use rssubstitute::arithmetic::{
    evaluate_arithmetic, is_evaluable, settle_expression, OnExpressionError, MAX_EXPRESSION_LENGTH,
};
use rssubstitute::error::SubstituteError;
use rssubstitute::layer::VariableLayer;

fn chars(s: &str) -> Vec<char> {
    s.chars().collect()
}

fn value(body: &str) -> String {
    let none = VariableLayer::new();
    evaluate_arithmetic(body, &none, &none, OnExpressionError::Passthrough).unwrap()
}

fn strict(body: &str) -> Result<String, SubstituteError> {
    let none = VariableLayer::new();
    evaluate_arithmetic(body, &none, &none, OnExpressionError::Fail)
}

#[test]
fn evaluate_arithmetic_operators() {
    assert_eq!(value("1 + 1"), "2");
    assert_eq!(value("7 - 10"), "-3");
    assert_eq!(value("6 * 7"), "42");
    assert_eq!(value("10 / 4"), "2");
    assert_eq!(value("10 / 4.0"), "2.5");
    assert_eq!(value("10 % 4"), "2");
    assert_eq!(value("(2 + 1) ^ 2"), "9");
    assert_eq!(value("2 + 3 * 4"), "14");
    assert_eq!(value("(2 + 3) * 4"), "20");
}

#[test]
fn evaluate_arithmetic_comparisons_and_booleans() {
    assert_eq!(value("1 < 2"), "true");
    assert_eq!(value("1 >= 2"), "false");
    assert_eq!(value("1 == 1 && 2 != 3"), "true");
    assert_eq!(value("true || false"), "true");
    assert_eq!(value("!true"), "false");
}

#[test]
fn evaluate_arithmetic_passes_bad_expression_through() {
    assert_eq!(value("1 +"), "1 +");
    assert_eq!(value("hello world"), "hello world");
    assert_eq!(value("1 / 0"), "1 / 0");
    assert_eq!(value("(1"), "(1");
    assert_eq!(value("9223372036854775807 + 1"), "9223372036854775807 + 1");
}

#[test]
fn evaluate_arithmetic_fails_when_asked_to() {
    assert_eq!(strict("1 + 1").unwrap(), "2");
    assert_eq!(strict("1 +"), Err(SubstituteError::ExpressionEvaluationFailure("1 +".to_string())));
    assert_eq!(
        strict("floor(2.5)"),
        Err(SubstituteError::ExpressionEvaluationFailure("floor(2.5)".to_string()))
    );
}

#[test]
fn evaluate_arithmetic_resolves_variables_first() {
    let mut env = VariableLayer::new();
    env.insert("a".to_string(), "2".to_string());
    let mut data = VariableLayer::new();
    data.insert("b".to_string(), "3".to_string());
    let result = evaluate_arithmetic("${a} * ${b}", &env, &data, OnExpressionError::Fail);
    assert_eq!(result.unwrap(), "6");
    let result = evaluate_arithmetic("${a} * ${c}", &env, &data, OnExpressionError::Fail);
    assert_eq!(result, Err(SubstituteError::ExpressionEvaluationFailure("2 * ${c}".to_string())));
}

#[test]
fn evaluate_arithmetic_numbers() {
    assert_eq!(value("42"), "42");
    assert_eq!(value("-7"), "-7");
    assert_eq!(value("1.5 + 1"), "2.5");
    assert_eq!(value("1e3"), "1000");
    assert_eq!(value("1.5e-3"), "0.0015");
    assert_eq!(value("2E2 + 1"), "201");
    assert_eq!(value(" 1\t+\n1 "), "2");
    assert_eq!(value("1 /**/ + 1"), "2");
}

#[test]
fn evaluate_arithmetic_leaves_other_notation_alone() {
    assert_eq!(value("math::sqrt(16)"), "math::sqrt(16)");
    assert_eq!(value("max(1, 5, 3)"), "max(1, 5, 3)");
    assert_eq!(value("\"a\" + \"b\""), "\"a\" + \"b\"");
    assert_eq!(value("shl(1, 200)"), "shl(1, 200)");
    assert_eq!(value("math::abs(0 - 5)"), "math::abs(0 - 5)");
    assert_eq!(value("str::substring(\"\u{e9}\", 1)"), "str::substring(\"\u{e9}\", 1)");
    assert_eq!(value("a = 1; a + a"), "a = 1; a + a");
    assert_eq!(value("1, 2"), "1, 2");
    assert_eq!(value("0x10"), "0x10");
    assert_eq!(value("1 + 1 // two"), "1 + 1 // two");
    assert_eq!(value("truefalse"), "truefalse");
    assert_eq!(value("True"), "True");
    assert_eq!(value("1 = 2"), "1 = 2");
    assert_eq!(value("1 += 2"), "1 += 2");
    assert_eq!(value("１ + １"), "１ + １");
}

#[test]
fn evaluate_arithmetic_up_to_the_longest_expression() {
    let long = "1+".repeat(MAX_EXPRESSION_LENGTH / 2) + "1";
    assert_eq!(long.len(), MAX_EXPRESSION_LENGTH + 1);
    assert_eq!(value(&long), long);
    let longest = "1+".repeat(MAX_EXPRESSION_LENGTH / 2 - 1) + "11";
    assert_eq!(longest.len(), MAX_EXPRESSION_LENGTH);
    assert_eq!(value(&longest), (MAX_EXPRESSION_LENGTH / 2 - 1 + 11).to_string());
}

#[test]
fn evaluate_arithmetic_at_full_depth() {
    let half = (MAX_EXPRESSION_LENGTH - 1) / 2;
    let nested = "(".repeat(half) + "7" + &")".repeat(half);
    assert_eq!(value(&nested), "7");
    let negated = "-".repeat(MAX_EXPRESSION_LENGTH - 1) + "7";
    assert_eq!(value(&negated), "-7");
    let powers = "1^".repeat(MAX_EXPRESSION_LENGTH / 2 - 1) + "1";
    assert_eq!(value(&powers), "1");
    let unclosed = "(".repeat(MAX_EXPRESSION_LENGTH);
    assert_eq!(value(&unclosed), unclosed);
}

#[test]
fn is_evaluable_reads_the_alphabet() {
    assert!(is_evaluable(&chars("1 + 1")));
    assert!(is_evaluable(&chars("")));
    assert!(is_evaluable(&chars("(1.5e3 - 2) * 3 / 4 % 5 ^ 6")));
    assert!(is_evaluable(&chars("1 < 2 && 3 >= 4 || !(5 == 6) != true")));
    assert!(is_evaluable(&chars("true")));
    assert!(is_evaluable(&chars("false")));
    assert!(is_evaluable(&chars("truefalsee")));
    assert!(!is_evaluable(&chars("tru")));
    assert!(!is_evaluable(&chars("fals")));
    assert!(!is_evaluable(&chars("xtrue")));
    assert!(!is_evaluable(&chars("TRUE")));
    assert!(!is_evaluable(&chars("a")));
    assert!(!is_evaluable(&chars("1, 2")));
    assert!(!is_evaluable(&chars("1; 2")));
    assert!(!is_evaluable(&chars("\"1\"")));
    assert!(!is_evaluable(&chars("${a}")));
    assert!(!is_evaluable(&chars("1 + 1\u{a0}")));
    assert!(is_evaluable(&chars(&"1".repeat(MAX_EXPRESSION_LENGTH))));
    assert!(!is_evaluable(&chars(&"1".repeat(MAX_EXPRESSION_LENGTH + 1))));
}

#[test]
fn settle_expression_by_policy() {
    let pass = OnExpressionError::Passthrough;
    let fail = OnExpressionError::Fail;
    assert_eq!(settle_expression("1+1".to_string(), Some("2".to_string()), pass).unwrap(), "2");
    assert_eq!(settle_expression("1+1".to_string(), Some("2".to_string()), fail).unwrap(), "2");
    assert_eq!(settle_expression("1+".to_string(), None, pass).unwrap(), "1+");
    assert_eq!(
        settle_expression("1+".to_string(), None, fail),
        Err(SubstituteError::ExpressionEvaluationFailure("1+".to_string()))
    );
}

fn next(state: &mut u64) -> usize {
    *state = state.wrapping_mul(6364136223846793005).wrapping_add(1442695040888963407);
    (*state >> 33) as usize
}

#[test]
fn evaluate_arithmetic_returns_on_any_notation() {
    let alphabet: Vec<&str> = vec![
        "0", "1", "2", "9", ".", "e", "E", " ", "\t", "\n", "+", "-", "*", "/", "%", "^", "<",
        ">", "=", "!", "&", "|", "(", ")", "true", "false", "9223372036854775807", "&&", "||",
        "==", "!=", "<=", ">=", "/*", "*/", "//",
    ];
    let mut state = 7u64;
    let none = VariableLayer::new();
    for round in 0..40000 {
        let pieces = 1 + next(&mut state) % 12;
        let mut text = String::new();
        for _ in 0..pieces {
            text.push_str(alphabet[next(&mut state) % alphabet.len()]);
        }
        assert!(is_evaluable(&chars(&text)), "{:?}", text);
        let policy = if round % 2 == 0 { OnExpressionError::Passthrough } else { OnExpressionError::Fail };
        match evaluate_arithmetic(&text, &none, &none, policy) {
            Ok(value) => assert!(!value.contains('}'), "{:?} gave {:?}", text, value),
            Err(e) => assert_eq!(e, SubstituteError::ExpressionEvaluationFailure(text.clone())),
        }
    }
}

#[test]
fn evaluate_arithmetic_returns_on_long_notation() {
    let alphabet = ["(", "(", "(", ")", "-", "!", "1", "2", "+", "*", "^", " ", "e", "=", "<", "true", "&&"];
    let mut state = 17u64;
    let none = VariableLayer::new();
    for _ in 0..3000 {
        let mut text = String::new();
        loop {
            let piece = alphabet[next(&mut state) % alphabet.len()];
            if text.len() + piece.len() > MAX_EXPRESSION_LENGTH {
                break;
            }
            text.push_str(piece);
        }
        assert!(is_evaluable(&chars(&text)));
        let result = evaluate_arithmetic(&text, &none, &none, OnExpressionError::Passthrough);
        assert!(result.is_ok());
    }
}

#[test]
fn evaluate_arithmetic_gives_one_value_for_one_text() {
    for text in ["1 + 1", "10 / 4.0", "0.1 + 0.2", "7 % 3 == 1", "1e300 * 1e300", "1 +", "9 / 0"] {
        assert_eq!(strict(text), strict(text), "{:?}", text);
    }
    assert_eq!(value("0.1 + 0.2"), "0.30000000000000004");
    assert_eq!(value("1e300 * 1e300"), "inf");
}

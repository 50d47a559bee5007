use rssubstitute::arithmetic::OnExpressionError;
use rssubstitute::error::SubstituteError;
use rssubstitute::layer::VariableLayer;
use rssubstitute::pipeline::{substitute, substitute_with, Options};

fn layer(pairs: &[(&str, &str)]) -> VariableLayer {
    let mut vars = VariableLayer::new();
    for (name, value) in pairs {
        vars.insert(name.to_string(), value.to_string());
    }
    vars
}

fn strict() -> Options {
    Options { on_expression_error: OnExpressionError::Fail, max_rewrites: usize::MAX }
}

#[test]
fn substitute_with_full_math_expression() {
    let result = substitute("#{1 + 1}", VariableLayer::new(), VariableLayer::new());
    assert_eq!("2", result.unwrap(), "expected an result for a match expression");
}

#[test]
fn substitute_math_expression() {
    let result = substitute("#{1 + 1}", VariableLayer::new(), VariableLayer::new());
    assert_eq!("2", result.unwrap(), "expected a result for a math expression");
}

#[test]
fn substitute_time() {
    let result = substitute("!{time:%Y}", VariableLayer::new(), VariableLayer::new());
    assert_eq!(4, result.unwrap().len());
}

#[test]
fn substitute_power_of() {
    let mut env_vars = VariableLayer::new();
    env_vars.insert("a".to_string(), "2".to_string());
    let result = substitute("(${a} + 1) ^ 2 = #{(${a} + 1) ^ 2}", env_vars, VariableLayer::new());
    assert_eq!("(2 + 1) ^ 2 = 9", result.unwrap());
}

#[test]
fn substitute_hello_world_from_data_store() {
    let result = substitute("Hello, ${name}!", VariableLayer::new(), layer(&[("name", "world")]));
    assert_eq!(result.unwrap(), "Hello, world!");
}

#[test]
fn substitute_leaves_plain_text_alone() {
    let text = "nothing to see here: $ { } # ! 100% {braces}";
    let result = substitute(text, layer(&[("a", "1")]), layer(&[("b", "2")]));
    assert_eq!(result.unwrap(), text);
}

#[test]
fn substitute_empty_template() {
    let result = substitute("", VariableLayer::new(), VariableLayer::new());
    assert_eq!(result.unwrap(), "");
}

#[test]
fn substitute_leaves_unbound_placeholder() {
    let result = substitute("Hello, ${nobody}!", layer(&[("name", "world")]), VariableLayer::new());
    assert_eq!(result.unwrap(), "Hello, ${nobody}!");
}

#[test]
fn substitute_is_stable_on_its_result() {
    let env = layer(&[("a", "2")]);
    let first = substitute("(${a} + 1) ^ 2 = #{(${a} + 1) ^ 2}", env, VariableLayer::new()).unwrap();
    let second = substitute(&first, layer(&[("a", "2")]), VariableLayer::new()).unwrap();
    assert_eq!(first, second);
}

#[test]
fn substitute_uuid_is_canonical() {
    let id = substitute("!{uuid}", VariableLayer::new(), VariableLayer::new()).unwrap();
    assert_eq!(id.chars().count(), 36);
    for (i, c) in id.chars().enumerate() {
        if i == 8 || i == 13 || i == 18 || i == 23 {
            assert_eq!(c, '-');
        } else {
            assert!(c.is_ascii_digit() || ('a'..='f').contains(&c));
        }
    }
    assert_eq!(id.chars().nth(14), Some('4'));
    assert!("89ab".contains(id.chars().nth(19).unwrap()));
    assert!(uuid::Uuid::parse_str(&id).is_ok());
}

#[test]
fn substitute_two_uuids_differ() {
    let text = substitute("!{uuid} !{uuid}", VariableLayer::new(), VariableLayer::new()).unwrap();
    let parts: Vec<&str> = text.split(' ').collect();
    assert_eq!(parts.len(), 2);
    assert_ne!(parts[0], parts[1]);
}

#[test]
fn substitute_time_year_is_current_utc_year() {
    let before = chrono::Utc::now().format("%Y").to_string();
    let year = substitute("!{time:%Y}", VariableLayer::new(), VariableLayer::new()).unwrap();
    let after = chrono::Utc::now().format("%Y").to_string();
    assert_eq!(year.len(), 4);
    assert!(year == before || year == after);
}

#[test]
fn substitute_bogus_directive_fails() {
    let result = substitute("!{bogus}", VariableLayer::new(), VariableLayer::new());
    assert_eq!(result, Err(SubstituteError::UnsupportedGeneratorDirective("bogus".to_string())));
}

#[test]
fn substitute_failure_returns_no_partial_text() {
    let result = substitute("#{1 + 1} and !{bogus} and !{uuid}", VariableLayer::new(), VariableLayer::new());
    assert_eq!(result, Err(SubstituteError::UnsupportedGeneratorDirective("bogus".to_string())));
}

#[test]
fn substitute_env_layer_goes_first() {
    let env = layer(&[("x", "${y}")]);
    let data = layer(&[("y", "z")]);
    assert_eq!(substitute("${x}", env, data).unwrap(), "z");
    let env = layer(&[("y", "z")]);
    let data = layer(&[("x", "${y}")]);
    assert_eq!(substitute("${x}", env, data).unwrap(), "${y}");
}

#[test]
fn substitute_expression_before_generator() {
    let env = layer(&[("kind", "uuid")]);
    let text = substitute("#{1 + 2}-!{${kind}}", env, VariableLayer::new()).unwrap();
    assert!(text.starts_with("3-"));
    assert_eq!(text.len(), 2 + 36);
}

#[test]
fn substitute_passes_bad_expression_through() {
    let result = substitute("#{1 +} and #{no such thing}", VariableLayer::new(), VariableLayer::new());
    assert_eq!(result.unwrap(), "1 + and no such thing");
}

#[test]
fn substitute_with_fail_policy_reports_bad_expression() {
    let env = layer(&[("a", "1")]);
    let result = substitute_with("#{${a} +}", &env, &VariableLayer::new(), strict());
    assert_eq!(result, Err(SubstituteError::ExpressionEvaluationFailure("1 +".to_string())));
}

#[test]
fn substitute_with_fail_policy_evaluates_good_expression() {
    let result = substitute_with("#{2 * 21}", &VariableLayer::new(), &VariableLayer::new(), strict());
    assert_eq!(result.unwrap(), "42");
}

#[test]
fn substitute_with_rewrite_limit() {
    let options = Options { on_expression_error: OnExpressionError::Passthrough, max_rewrites: 2 };
    let none = VariableLayer::new();
    assert_eq!(substitute_with("#{1} #{2}", &none, &none, options).unwrap(), "1 2");
    assert_eq!(
        substitute_with("#{1} #{2} #{3}", &none, &none, options),
        Err(SubstituteError::RewriteLimitExceeded)
    );
    assert_eq!(
        substitute_with("!{uuid}!{uuid}!{uuid}", &none, &none, options),
        Err(SubstituteError::RewriteLimitExceeded)
    );
}

#[test]
fn substitute_does_not_consume_across_markers() {
    let result = substitute("#{1 + 1}}} #{2}", VariableLayer::new(), VariableLayer::new());
    assert_eq!(result.unwrap(), "2}} 2");
}

#[test]
fn default_options() {
    let options = Options::new();
    assert_eq!(options.on_expression_error, OnExpressionError::Passthrough);
    assert_eq!(options.max_rewrites, usize::MAX);
}

#[test]
fn substitute_single_binding_is_literal_replacement() {
    let templates = ["", "${k}", "a${k}b${k}c", "${k", "x${K}y", "${k}}", "$${k}"];
    for template in templates {
        let expected = template.replace("${k}", "v w");
        let from_env = substitute(template, layer(&[("k", "v w")]), VariableLayer::new());
        assert_eq!(from_env.unwrap(), expected);
        let from_data = substitute(template, VariableLayer::new(), layer(&[("k", "v w")]));
        assert_eq!(from_data.unwrap(), expected);
    }
}

#[test]
fn substitute_never_reports_a_malformed_pattern() {
    let none = VariableLayer::new();
    for template in ["#{", "!{", "#{}", "!{}", "#{#{", "\\{a}", "({a})", "${a}"] {
        assert_eq!(substitute_with(template, &none, &none, strict()).unwrap(), template);
    }
}

#[test]
fn substitute_ends_by_itself_on_many_markers() {
    let template = "#{1 + 1} !{time:%Y} ".repeat(200);
    let text = substitute(&template, VariableLayer::new(), VariableLayer::new()).unwrap();
    assert!(!text.contains('{'));
    assert_eq!(text.len(), template.len() - 200 * (8 - 1) - 200 * (10 - 4));
}

use rssubstitute::error::SubstituteError;
use rssubstitute::generator::{
    classify_directive, evaluate_expression, evaluate_expression_at, Directive, Timestamp,
};

const EPOCH: Timestamp = Timestamp { seconds: 0, nanos: 0 };

#[test]
fn evaluate_expression_uuid() {
    let result = evaluate_expression("uuid");
    assert_eq!(result.unwrap().len(), 36);
}

#[test]
fn evaluate_expression_time() {
    let result = evaluate_expression("time");
    assert!(result.unwrap().contains('T'));
}

#[test]
fn evaluate_expression_is_case_insensitive() {
    assert_eq!(evaluate_expression("UUID").unwrap().len(), 36);
    assert_eq!(evaluate_expression("UuId").unwrap().len(), 36);
    assert!(evaluate_expression("TIME").unwrap().contains('T'));
    assert_eq!(evaluate_expression("Time:%Y").unwrap().len(), 4);
}

#[test]
fn evaluate_expression_unsupported() {
    for text in ["bogus", "", "uuid ", " uuid", "uuids", "timex", "tim", "time :%Y", "uu\u{0130}d"] {
        assert_eq!(
            evaluate_expression(text),
            Err(SubstituteError::UnsupportedGeneratorDirective(text.to_string())),
            "{:?}",
            text
        );
    }
}

#[test]
fn evaluate_expression_at_fixed_instant() {
    assert_eq!(evaluate_expression_at("time", EPOCH).unwrap(), "1970-01-01T00:00:00+00:00");
    assert_eq!(evaluate_expression_at("time:%Y", EPOCH).unwrap(), "1970");
    let later = Timestamp { seconds: 1_700_000_000, nanos: 500_000_000 };
    assert_eq!(evaluate_expression_at("time:%Y-%m-%d %H:%M:%S", later).unwrap(), "2023-11-14 22:13:20");
    assert_eq!(evaluate_expression_at("TIME", later).unwrap(), "2023-11-14T22:13:20.500+00:00");
    assert_eq!(evaluate_expression_at("time:", later).unwrap(), "");
    assert_eq!(evaluate_expression_at("time:at noon", later).unwrap(), "at noon");
}

#[test]
fn evaluate_expression_keeps_format_as_written() {
    let later = Timestamp { seconds: 1_700_000_000, nanos: 0 };
    assert_eq!(evaluate_expression_at("TIME:%B %b", later).unwrap(), "November Nov");
    assert_eq!(evaluate_expression_at("time:%H h", later).unwrap(), "22 h");
    assert_eq!(evaluate_expression_at("time:%I h", later).unwrap(), "10 h");
}

#[test]
fn evaluate_expression_rejects_bad_format() {
    assert_eq!(
        evaluate_expression_at("time:%Q", EPOCH),
        Err(SubstituteError::UnsupportedGeneratorDirective("time:%Q".to_string()))
    );
    assert_eq!(
        evaluate_expression("time:%"),
        Err(SubstituteError::UnsupportedGeneratorDirective("time:%".to_string()))
    );
}

#[test]
fn evaluate_expression_rejects_instant_without_date() {
    let never = Timestamp { seconds: i64::MAX, nanos: 0 };
    assert_eq!(
        evaluate_expression_at("time", never),
        Err(SubstituteError::UnsupportedGeneratorDirective("time".to_string()))
    );
    assert_eq!(evaluate_expression_at("uuid", never).unwrap().len(), 36);
}

#[test]
fn classify_directive_reads_keywords() {
    assert_eq!(classify_directive("uuid"), Directive::Uuid);
    assert_eq!(classify_directive("UUID"), Directive::Uuid);
    assert_eq!(classify_directive("time"), Directive::Time);
    assert_eq!(classify_directive("tImE"), Directive::Time);
    assert_eq!(classify_directive("time:%Y"), Directive::TimeFormat("%Y".to_string()));
    assert_eq!(classify_directive("TIME:%Y %M"), Directive::TimeFormat("%Y %M".to_string()));
    assert_eq!(classify_directive("time:"), Directive::TimeFormat(String::new()));
    assert_eq!(classify_directive("time;"), Directive::Unsupported);
    assert_eq!(classify_directive("UUID:"), Directive::Unsupported);
    assert_eq!(classify_directive("\u{55}\u{75}id"), Directive::Uuid);
    assert_eq!(classify_directive("5uid"), Directive::Unsupported);
    assert_eq!(classify_directive("TIME\u{1a}%Y"), Directive::Unsupported);
}

#[test]
fn keywords_fold_as_the_standard_lowercase_does() {
    for text in ["uuid", "UUID", "Time", "TIME:%Y", "t\u{0130}me", "\u{212A}", "tim\u{0045}", "ＵＵＩＤ"] {
        let lowered = text.to_lowercase();
        let expected = if lowered == "uuid" {
            Directive::Uuid
        } else if lowered == "time" {
            Directive::Time
        } else if lowered.starts_with("time:") {
            Directive::TimeFormat(text[5..].to_string())
        } else {
            Directive::Unsupported
        };
        assert_eq!(classify_directive(text), expected, "{:?}", text);
    }
}

#[test]
fn only_ascii_letters_lowercase_to_keyword_letters() {
    for code in 0x80..=0x10FFFFu32 {
        if let Some(c) = char::from_u32(code) {
            let lowered: String = c.to_lowercase().collect();
            let first = lowered.chars().next().unwrap();
            assert!(!"uidtme:".contains(first) || code == 0x130, "U+{:04X}", code);
        }
    }
    let dotted: Vec<char> = '\u{0130}'.to_lowercase().collect();
    assert_eq!(dotted, vec!['i', '\u{0307}']);
}

#[test]
fn error_messages() {
    assert_eq!(
        SubstituteError::UnsupportedGeneratorDirective("bogus".to_string()).message(),
        "unsupported substitute bogus"
    );
    assert_eq!(
        SubstituteError::ExpressionEvaluationFailure("1 +".to_string()).message(),
        "cannot evaluate expression 1 +"
    );
    assert_eq!(SubstituteError::MalformedMarkerPattern.message(), "malformed marker pattern");
    assert_eq!(SubstituteError::RewriteLimitExceeded.message(), "rewrite limit exceeded");
}

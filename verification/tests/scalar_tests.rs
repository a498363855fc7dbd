use konfik::Value;
use konfik::scalar::parse_i64;
use konfik::scalar::parse_scalar;
use konfik::value::value_eq;

#[test]
fn parses_booleans() {
    assert!(value_eq(&parse_scalar("true"), &Value::Bool(true)));
    assert!(value_eq(&parse_scalar("false"), &Value::Bool(false)));
}

#[test]
fn parses_integers() {
    assert!(value_eq(&parse_scalar("42"), &Value::Int(42)));
    assert!(value_eq(&parse_scalar("-7"), &Value::Int(-7)));
    assert!(value_eq(&parse_scalar("0"), &Value::Int(0)));
}

#[test]
fn parses_floats_as_decimal_text() {
    assert!(value_eq(&parse_scalar("3.14"), &Value::Float("3.14".to_string())));
}

#[test]
fn host_style_float_spellings_become_numbers() {
    assert!(value_eq(&parse_scalar("5."), &Value::Float("5.0".to_string())));
    assert!(value_eq(&parse_scalar(".5"), &Value::Float("0.5".to_string())));
    assert!(value_eq(&parse_scalar("-.5"), &Value::Float("-0.5".to_string())));
    assert!(value_eq(&parse_scalar("+1.5"), &Value::Float("1.5".to_string())));
    assert!(value_eq(&parse_scalar("+1e2"), &Value::Float("100.0".to_string())));
}

#[test]
fn bare_dots_and_signs_stay_strings() {
    assert!(value_eq(&parse_scalar("."), &Value::Text(".".to_string())));
    assert!(value_eq(&parse_scalar("+."), &Value::Text("+.".to_string())));
    assert!(value_eq(&parse_scalar("-."), &Value::Text("-.".to_string())));
    assert!(value_eq(&parse_scalar("+"), &Value::Text("+".to_string())));
}

#[test]
fn padded_numbers_stay_strings() {
    assert!(value_eq(&parse_scalar(" 42 "), &Value::Text(" 42 ".to_string())));
    assert!(value_eq(&parse_scalar("3.14 "), &Value::Text("3.14 ".to_string())));
}

#[test]
fn float_text_is_the_canonical_rendering_not_the_input() {
    assert!(value_eq(&parse_scalar("1e2"), &Value::Float("100.0".to_string())));
    assert!(value_eq(&parse_scalar("3.140"), &Value::Float("3.14".to_string())));
}

#[test]
fn parses_bracketed_text_as_a_list() {
    let expected = Value::List(vec![Value::Int(1), Value::Int(2), Value::Int(3)]);
    assert!(value_eq(&parse_scalar("[1,2,3]"), &expected));
}

#[test]
fn parses_braced_text_as_an_object() {
    let expected = Value::Object(vec![("a".to_string(), Value::Int(1))]);
    assert!(value_eq(&parse_scalar("{\"a\":1}"), &expected));
}

#[test]
fn keeps_plain_text_as_a_string() {
    assert!(value_eq(&parse_scalar("hello"), &Value::Text("hello".to_string())));
    assert!(value_eq(
        &parse_scalar("postgres://x"),
        &Value::Text("postgres://x".to_string()),
    ));
}

#[test]
fn malformed_brackets_fall_back_to_text() {
    assert!(value_eq(&parse_scalar("[1,2"), &Value::Text("[1,2".to_string())));
    assert!(value_eq(&parse_scalar("[not json]"), &Value::Text("[not json]".to_string())));
}

#[test]
fn integer_parser_handles_signs_and_leading_zeros() {
    assert_eq!(parse_i64("+42"), Some(42));
    assert_eq!(parse_i64("007"), Some(7));
    assert_eq!(parse_i64("-0"), Some(0));
    assert_eq!(parse_i64(""), None);
    assert_eq!(parse_i64("-"), None);
    assert_eq!(parse_i64("+"), None);
    assert_eq!(parse_i64("12a"), None);
    assert_eq!(parse_i64(" 12"), None);
}

#[test]
fn integer_parser_respects_the_64_bit_range() {
    assert_eq!(parse_i64("9223372036854775807"), Some(i64::MAX));
    assert_eq!(parse_i64("-9223372036854775808"), Some(i64::MIN));
    assert_eq!(parse_i64("9223372036854775808"), None);
    assert_eq!(parse_i64("-9223372036854775809"), None);
}

#[test]
fn out_of_range_integers_become_numbers_not_text() {
    match parse_scalar("9223372036854775808") {
        Value::Float(_) => {}
        other => panic!("expected a non-integer number, got {:?}", value_kind(&other)),
    }
}

fn value_kind(v: &Value) -> &'static str {
    match v {
        Value::Null => "null",
        Value::Bool(_) => "bool",
        Value::Int(_) => "int",
        Value::Float(_) => "float",
        Value::Text(_) => "text",
        Value::List(_) => "list",
        Value::Object(_) => "object",
    }
}

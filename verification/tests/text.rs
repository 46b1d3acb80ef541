use btjs_parser::text::to_json_string;
use btjs_parser::values::Value;

#[test]
fn json_text_of_scalars() {
    assert_eq!(to_json_string(&Value::Null), "null");
    assert_eq!(to_json_string(&Value::Bool(true)), "true");
    assert_eq!(to_json_string(&Value::Bool(false)), "false");
    assert_eq!(to_json_string(&Value::Number(0)), "0");
    assert_eq!(to_json_string(&Value::Number(123)), "123");
    assert_eq!(to_json_string(&Value::Number(-7)), "-7");
    assert_eq!(to_json_string(&Value::Number(i64::MAX)), "9223372036854775807");
    assert_eq!(to_json_string(&Value::Number(i64::MIN)), "-9223372036854775808");
}

#[test]
fn json_text_of_strings_escapes() {
    assert_eq!(to_json_string(&Value::String("plain".to_string())), "\"plain\"");
    assert_eq!(
        to_json_string(&Value::String("a\"b\\c".to_string())),
        "\"a\\\"b\\\\c\""
    );
    assert_eq!(
        to_json_string(&Value::String("tab\there\nline".to_string())),
        "\"tab\\there\\nline\""
    );
    assert_eq!(
        to_json_string(&Value::String("\u{8}\u{c}\r".to_string())),
        "\"\\b\\f\\r\""
    );
    // other control characters take the four-digit form with lower-case hex
    assert_eq!(
        to_json_string(&Value::String("\u{1}\u{1f}".to_string())),
        "\"\\u0001\\u001f\""
    );
}

#[test]
fn json_text_of_containers() {
    assert_eq!(to_json_string(&Value::Array(vec![])), "[]");
    assert_eq!(
        to_json_string(&Value::Array(vec![
            Value::Number(1),
            Value::String("x".to_string()),
            Value::Null,
        ])),
        "[1,\"x\",null]"
    );
    assert_eq!(to_json_string(&Value::Object(vec![])), "{}");
    assert_eq!(
        to_json_string(&Value::Object(vec![
            ("a".to_string(), Value::Number(1)),
            (
                "b".to_string(),
                Value::Array(vec![Value::Bool(false), Value::Object(vec![])]),
            ),
        ])),
        "{\"a\":1,\"b\":[false,{}]}"
    );
}

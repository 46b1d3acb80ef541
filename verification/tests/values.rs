use btjs_parser::values::{find_value_by_dotted_path, value_eq, Value};

fn sample_state() -> Value {
    Value::Object(vec![
        (
            "name".to_string(),
            Value::Object(vec![
                ("first".to_string(), Value::String("John".to_string())),
                ("last".to_string(), Value::String("Doe".to_string())),
            ]),
        ),
        (
            "favorite".to_string(),
            Value::Object(vec![(
                "categories".to_string(),
                Value::Object(vec![
                    (
                        "movies".to_string(),
                        Value::Array(vec![
                            Value::String("The Matrix".to_string()),
                            Value::String("The Godfather".to_string()),
                        ]),
                    ),
                    (
                        "music".to_string(),
                        Value::Array(vec![
                            Value::String("Jazz".to_string()),
                            Value::String("Blues".to_string()),
                        ]),
                    ),
                ]),
            )]),
        ),
        ("age".to_string(), Value::Number(30)),
    ])
}

fn expect_eq(actual: Option<Value>, expected: Option<Value>, message: &str) {
    match (actual, expected) {
        (None, None) => {}
        (Some(a), Some(e)) => assert!(value_eq(&a, &e), "{}", message),
        (Some(_), None) => panic!("{}: expected no value", message),
        (None, Some(_)) => panic!("{}: expected a value", message),
    }
}

#[test]
fn test_find_value_by_dotted_path() {
    let data = sample_state();

    // Test a successful path
    expect_eq(
        find_value_by_dotted_path("name.first", &data),
        Some(Value::String("John".to_string())),
        "Failed to get string.",
    );

    // Test a path that leads to single string
    expect_eq(
        find_value_by_dotted_path("age", &data),
        Some(Value::Number(30)),
        "Failed to get number.",
    );

    // Test a path that leads to an array
    expect_eq(
        find_value_by_dotted_path("favorite.categories.music", &data),
        Some(Value::Array(vec![
            Value::String("Jazz".to_string()),
            Value::String("Blues".to_string()),
        ])),
        "Failed to get array.",
    );

    // Test a non-existent path
    expect_eq(
        find_value_by_dotted_path("name.middle", &data),
        None,
        "Failed to handle non-existent path.",
    );

    // Test a path that leads to a non-object value
    expect_eq(
        find_value_by_dotted_path("age.years", &data),
        None,
        "Failed to handle path that leads to a non-object value.",
    );

    // Get length of array.
    expect_eq(
        find_value_by_dotted_path("favorite.categories.music.length", &data),
        Some(Value::Number(2)),
        "Failed to get length of array.",
    );
}

#[test]
fn find_value_by_dotted_path_test_find_value_by_dotted_path() {
    let data = sample_state();

    let value = find_value_by_dotted_path("name.first", &data);
    expect_eq(value, Some(Value::String("John".to_string())), "string");

    let value = find_value_by_dotted_path("age", &data);
    expect_eq(value, Some(Value::Number(30)), "number");

    let value = find_value_by_dotted_path("favorite.categories.music", &data);
    expect_eq(
        value,
        Some(Value::Array(vec![
            Value::String("Jazz".to_string()),
            Value::String("Blues".to_string()),
        ])),
        "array",
    );

    let value = find_value_by_dotted_path("name.middle", &data);
    expect_eq(value, None, "non-existent path");

    let value = find_value_by_dotted_path("age.years", &data);
    expect_eq(value, None, "path through a non-object value");
}

#[test]
fn resolve_length_of_nested_array() {
    // resolve("a.b.length", {a:{b:[1,2,3]}}) gives the element count
    let data = Value::Object(vec![(
        "a".to_string(),
        Value::Object(vec![(
            "b".to_string(),
            Value::Array(vec![Value::Number(1), Value::Number(2), Value::Number(3)]),
        )]),
    )]);
    expect_eq(
        find_value_by_dotted_path("a.b.length", &data),
        Some(Value::Number(3)),
        "length of nested array",
    );
}

#[test]
fn resolve_into_scalar_misses() {
    // resolve("age.years", {age:30}) misses: a number is not an object
    let data = Value::Object(vec![("age".to_string(), Value::Number(30))]);
    expect_eq(find_value_by_dotted_path("age.years", &data), None, "scalar");
}

#[test]
fn resolve_length_not_last_segment_misses() {
    // a `length` segment counts only when it is the last one
    let data = Value::Object(vec![(
        "a".to_string(),
        Value::Array(vec![Value::Number(1)]),
    )]);
    expect_eq(find_value_by_dotted_path("a.length.more", &data), None, "length not last");
}

#[test]
fn value_eq_is_structural_and_kind_strict() {
    assert!(value_eq(&Value::Number(3), &Value::Number(3)));
    assert!(!value_eq(&Value::Number(3), &Value::String("3".to_string())));
    assert!(value_eq(
        &Value::Array(vec![Value::Bool(true), Value::Null]),
        &Value::Array(vec![Value::Bool(true), Value::Null]),
    ));
    assert!(!value_eq(
        &Value::Array(vec![Value::Bool(true)]),
        &Value::Array(vec![Value::Bool(true), Value::Null]),
    ));
    assert!(value_eq(
        &Value::Object(vec![("k".to_string(), Value::Number(1))]),
        &Value::Object(vec![("k".to_string(), Value::Number(1))]),
    ));
    assert!(!value_eq(
        &Value::Object(vec![("k".to_string(), Value::Number(1))]),
        &Value::Object(vec![("q".to_string(), Value::Number(1))]),
    ));
}

use btjs_parser::expression::{parse_expression, safe_evaluate_expression};
use btjs_parser::values::Value;

fn sample_state() -> Value {
    Value::Object(vec![
        (
            "name".to_string(),
            Value::Object(vec![
                ("first".to_string(), Value::String("John".to_string())),
                ("last".to_string(), Value::String("Doe".to_string())),
            ]),
        ),
        (
            "favorite".to_string(),
            Value::Object(vec![(
                "categories".to_string(),
                Value::Object(vec![
                    (
                        "movies".to_string(),
                        Value::Array(vec![
                            Value::String("The Matrix".to_string()),
                            Value::String("The Godfather".to_string()),
                        ]),
                    ),
                    (
                        "music".to_string(),
                        Value::Array(vec![
                            Value::String("Jazz".to_string()),
                            Value::String("Blues".to_string()),
                        ]),
                    ),
                ]),
            )]),
        ),
        ("age".to_string(), Value::Number(30)),
        ("is_student".to_string(), Value::Bool(true)),
    ])
}

#[test]
fn test_parse_expression() {
    let test_cases = vec![
        ("a && b || c", vec!["a", "&&", "b", "||", "c"]),
        ("d == e", vec!["d", "==", "e"]),
        ("f > g", vec!["f", ">", "g"]),
        ("k&&l", vec!["k", "&&", "l"]),
        ("  m  ||  n  ", vec!["m", "||", "n"]),
        (
            "o > p && q <= r || s == t",
            vec!["o", ">", "p", "&&", "q", "<=", "r", "||", "s", "==", "t"],
        ),
    ];

    for (expression, expected) in test_cases {
        assert_eq!(parse_expression(expression), expected);
    }
}

#[test]
fn test_safe_evaluate_expression() {
    let data = sample_state();

    // A dangling trailing operator folds against null, so "name.first &&"
    // is false: null is falsy under &&.
    let test_cases = vec![
        ("name.first && age", true),
        ("age == 30", true),
        ("favorite.categories.music && favorite.categories.movies", true),
        ("age > 10", true),
        ("name.first &&", false),
        ("name && name.first", true),
        ("is_student", true),
        ("is_student && name.first", true),
        ("!is_student || true", true),
        ("name.middle", false),
        ("name.first && (age == 31)", false),
        ("name.first && false", false),
        ("\"a\" == \"b\"", false),
        ("!is_student", false),
        ("!is_student && name.first", false),
    ];

    for (expression, expected) in test_cases {
        assert_eq!(safe_evaluate_expression(expression, &data), expected, "{}", expression);
    }
}

#[test]
fn evaluate_respects_left_to_right_folding() {
    // ((a && b) || c) with {a:true, b:false, c:true}: positional order, not
    // conventional precedence of && over ||
    let state = Value::Object(vec![
        ("a".to_string(), Value::Bool(true)),
        ("b".to_string(), Value::Bool(false)),
        ("c".to_string(), Value::Bool(true)),
    ]);
    assert_eq!(safe_evaluate_expression("a && b || c", &state), true);
}

#[test]
fn evaluate_parenthesized_comparison() {
    let state = Value::Object(vec![("age".to_string(), Value::Number(30))]);
    assert_eq!(safe_evaluate_expression("(age == 30)", &state), true);
    assert_eq!(safe_evaluate_expression("age == 30 && (age == 31)", &state), false);
}

#[test]
fn evaluate_string_literals_and_negation() {
    let empty = Value::Object(vec![]);
    assert_eq!(safe_evaluate_expression("\"a\" == \"b\"", &empty), false);
    assert_eq!(safe_evaluate_expression("\"a\" == \"a\"", &empty), true);
    let state = Value::Object(vec![("is_student".to_string(), Value::Bool(true))]);
    assert_eq!(safe_evaluate_expression("!is_student", &state), false);
}

#[test]
fn evaluate_numeric_literal_rules() {
    let empty = Value::Object(vec![]);
    // exact value: 30 == 30 as written numbers
    assert_eq!(safe_evaluate_expression("30 == 30", &empty), true);
    assert_eq!(safe_evaluate_expression("30 == 31", &empty), false);
    // signed literals are numbers too
    assert_eq!(safe_evaluate_expression("-5 == -5", &empty), true);
    assert_eq!(safe_evaluate_expression("-5 < 0", &empty), true);
    assert_eq!(safe_evaluate_expression("0 == 0", &empty), true);
    assert_eq!(safe_evaluate_expression("-0 == 0", &empty), true);
    // a token that is not parseable as a number is a path, even when it
    // starts with a digit: unresolved it is null, which equals nothing
    assert_eq!(safe_evaluate_expression("1x == 0", &empty), false);
    assert_eq!(safe_evaluate_expression("0123 == 0", &empty), false);
    let keyed = Value::Object(vec![("1x".to_string(), Value::Number(7))]);
    assert_eq!(safe_evaluate_expression("1x == 7", &keyed), true);
}

#[test]
fn negation_keeps_the_pending_operator() {
    // in a && !b the && still consumes both sides: the left value and the
    // negated right operand
    let state = |a: bool, b: bool| {
        Value::Object(vec![
            ("a".to_string(), Value::Bool(a)),
            ("b".to_string(), Value::Bool(b)),
        ])
    };
    assert_eq!(safe_evaluate_expression("a && !b", &state(false, false)), false);
    assert_eq!(safe_evaluate_expression("a && !b", &state(true, false)), true);
    assert_eq!(safe_evaluate_expression("a && !b", &state(true, true)), false);
    assert_eq!(safe_evaluate_expression("a || !b", &state(false, false)), true);
    // negation applies to a whole parenthesized group as well
    assert_eq!(safe_evaluate_expression("!(a || b)", &state(false, false)), true);
    assert_eq!(safe_evaluate_expression("a || !(a && b)", &state(false, true)), true);
    // two negations cancel
    assert_eq!(safe_evaluate_expression("!!b", &state(false, true)), true);
}

#[test]
fn evaluate_comparisons_are_numeric_only() {
    let state = Value::Object(vec![("s".to_string(), Value::String("abc".to_string()))]);
    assert_eq!(safe_evaluate_expression("s > 1", &state), false);
    assert_eq!(safe_evaluate_expression("s < 1", &state), false);
    assert_eq!(safe_evaluate_expression("2 >= 2", &state), true);
    assert_eq!(safe_evaluate_expression("2 <= 1", &state), false);
}

#[test]
fn tokenize_then_rejoin_preserves_evaluation() {
    // the round trip on a concrete expression: reassembled tokens evaluate
    // exactly as the original string does
    let state = sample_state();
    let cases = vec![
        "age == 30 && (age == 31)",
        "  name.first  &&  age  ",
        "!is_student || true",
        "a && b || c",
    ];
    for expression in cases {
        let tokens = parse_expression(expression);
        let rejoined = tokens.concat();
        assert_eq!(
            safe_evaluate_expression(&rejoined, &state),
            safe_evaluate_expression(expression, &state),
            "{}",
            expression
        );
    }
}

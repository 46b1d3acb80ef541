use btjs_parser::parser::{handle_btr, StringServerHandler};
use btjs_parser::protocol::{
    templates_present, BuildTimeRenderingProtocol, BuildTimeRenderingStream,
    BuildTimeRenderingStreamAttribute, BuildTimeRenderingStreamRaw, BuildTimeRenderingStreamRepeat,
    BuildTimeRenderingStreamSignal, BuildTimeRenderingStreamWhen, BuildTimeRenderingTemplate,
};
use btjs_parser::values::Value;

fn render(protocol: BuildTimeRenderingProtocol, state: Value) -> String {
    let mut server_handler = StringServerHandler::new();
    handle_btr(protocol, state, &mut server_handler);
    server_handler.get_output()
}

#[test]
fn test_handle_btr_raw() {
    let protocol = BuildTimeRenderingProtocol {
        streams: vec![
            BuildTimeRenderingStream::Raw(BuildTimeRenderingStreamRaw {
                value: "Hello, ".to_string(),
            }),
            BuildTimeRenderingStream::Raw(BuildTimeRenderingStreamRaw {
                value: "world!".to_string(),
            }),
        ],
        templates: vec![],
    };
    let state = Value::Object(vec![]);
    assert_eq!(render(protocol, state), "Hello, world!");
}

#[test]
fn parser_test_handle_btr_raw() {
    let protocol = BuildTimeRenderingProtocol {
        streams: vec![
            BuildTimeRenderingStream::Raw(BuildTimeRenderingStreamRaw {
                value: "Hello, ".to_string(),
            }),
            BuildTimeRenderingStream::Raw(BuildTimeRenderingStreamRaw {
                value: "world!".to_string(),
            }),
        ],
        templates: vec![],
    };
    let state = Value::Object(vec![]);
    assert_eq!(render(protocol, state), "Hello, world!");
}

fn signal_protocol() -> BuildTimeRenderingProtocol {
    BuildTimeRenderingProtocol {
        streams: vec![
            BuildTimeRenderingStream::Signal(BuildTimeRenderingStreamSignal {
                value: "a".to_string(),
                default_value: Some("a".to_string()),
            }),
            BuildTimeRenderingStream::Signal(BuildTimeRenderingStreamSignal {
                value: "b".to_string(),
                default_value: Some("b".to_string()),
            }),
        ],
        templates: vec![],
    }
}

#[test]
fn test_handle_btr_signal() {
    let state = Value::Object(vec![("a".to_string(), Value::String("apple".to_string()))]);
    assert_eq!(render(signal_protocol(), state), "appleb");
}

#[test]
fn parser_test_handle_btr_signal() {
    let state = Value::Object(vec![("a".to_string(), Value::String("apple".to_string()))]);
    assert_eq!(render(signal_protocol(), state), "appleb");
}

#[test]
fn test_handle_btr_attribute() {
    let protocol = BuildTimeRenderingProtocol {
        streams: vec![BuildTimeRenderingStream::Attribute(
            BuildTimeRenderingStreamAttribute {
                value: "fruit".to_string(),
                name: "href".to_string(),
                default_value: None,
            },
        )],
        templates: vec![],
    };
    let state = Value::Object(vec![(
        "fruit".to_string(),
        Value::String("apple".to_string()),
    )]);
    assert_eq!(render(protocol, state), "href=apple");
}

#[test]
fn test_handle_btr_attribute_default() {
    let protocol = BuildTimeRenderingProtocol {
        streams: vec![BuildTimeRenderingStream::Attribute(
            BuildTimeRenderingStreamAttribute {
                value: "fruit".to_string(),
                name: "href".to_string(),
                default_value: Some("pineapple".to_string()),
            },
        )],
        templates: vec![],
    };
    let state = Value::Object(vec![(
        "liquid".to_string(),
        Value::String("water".to_string()),
    )]);
    assert_eq!(render(protocol, state), "href=pineapple");
}

fn when_protocol(expression: &str) -> BuildTimeRenderingProtocol {
    BuildTimeRenderingProtocol {
        streams: vec![BuildTimeRenderingStream::When(BuildTimeRenderingStreamWhen {
            value: expression.to_string(),
        })],
        templates: vec![],
    }
}

#[test]
fn test_handle_btr_when_visible() {
    let state = Value::Object(vec![("a".to_string(), Value::Number(10))]);
    assert_eq!(render(when_protocol("a > 5"), state), "");
}

#[test]
fn parser_test_handle_btr_when_visible() {
    let state = Value::Object(vec![("a".to_string(), Value::Number(10))]);
    assert_eq!(render(when_protocol("a > 5"), state), "");
}

#[test]
fn test_handle_btr_when_hidden() {
    let state = Value::Object(vec![("a".to_string(), Value::Number(10))]);
    assert_eq!(render(when_protocol("a > 10"), state), "style=\"display: none\"");
}

#[test]
fn parser_test_handle_btr_when_hidden() {
    let state = Value::Object(vec![("a".to_string(), Value::Number(10))]);
    assert_eq!(render(when_protocol("a > 10"), state), "style=\"display: none\"");
}

#[test]
fn when_boundary_both_ways() {
    // {a:10} suppresses, {a:11} passes: the marker appears exactly when the
    // condition evaluates false
    let state = Value::Object(vec![("a".to_string(), Value::Number(10))]);
    assert_eq!(render(when_protocol("a > 10"), state), "style=\"display: none\"");
    let state = Value::Object(vec![("a".to_string(), Value::Number(11))]);
    assert_eq!(render(when_protocol("a > 10"), state), "");
}

fn repeat_protocol(style: Option<String>) -> BuildTimeRenderingProtocol {
    BuildTimeRenderingProtocol {
        streams: vec![BuildTimeRenderingStream::Repeat(
            BuildTimeRenderingStreamRepeat {
                template: "item".to_string(),
                value: "items".to_string(),
            },
        )],
        templates: vec![(
            "item".to_string(),
            BuildTimeRenderingTemplate {
                template: "<div></div>".to_string(),
                style,
            },
        )],
    }
}

#[test]
fn test_handle_btr_repeat() {
    let state = Value::Object(vec![(
        "items".to_string(),
        Value::Array(vec![
            Value::String("item1".to_string()),
            Value::String("item2".to_string()),
            Value::String("item3".to_string()),
        ]),
    )]);
    assert_eq!(
        render(repeat_protocol(None), state),
        "<item><template shadowrootmode=\"open\"><div></div></template>item1</item>\
            <item><template shadowrootmode=\"open\"><div></div></template>item2</item>\
            <item><template shadowrootmode=\"open\"><div></div></template>item3</item>"
    );
}

#[test]
fn parser_test_handle_btr_repeat() {
    let state = Value::Object(vec![(
        "items".to_string(),
        Value::Array(vec![
            Value::String("item1".to_string()),
            Value::String("item2".to_string()),
            Value::String("item3".to_string()),
        ]),
    )]);
    assert_eq!(
        render(repeat_protocol(None), state),
        "<item><template shadowrootmode=\"open\"><div></div></template>item1</item>\
            <item><template shadowrootmode=\"open\"><div></div></template>item2</item>\
            <item><template shadowrootmode=\"open\"><div></div></template>item3</item>"
    );
}

#[test]
fn test_handle_btr_repeat_with_objects() {
    let state = Value::Object(vec![(
        "items".to_string(),
        Value::Array(vec![
            Value::Object(vec![
                ("color".to_string(), Value::String("red".to_string())),
                ("size".to_string(), Value::String("large".to_string())),
            ]),
            Value::Object(vec![
                ("color".to_string(), Value::String("blue".to_string())),
                ("quantities".to_string(), Value::Number(123)),
            ]),
            Value::Object(vec![
                (
                    "authors".to_string(),
                    Value::Array(vec![Value::String("a".to_string()), Value::Number(1)]),
                ),
                ("color".to_string(), Value::String("teal".to_string())),
            ]),
        ]),
    )]);
    assert_eq!(
        render(repeat_protocol(None), state),
        "<item><template shadowrootmode=\"open\"><div></div></template><span slot=\"color\">red</span><span slot=\"size\">large</span></item>\
            <item><template shadowrootmode=\"open\"><div></div></template><span slot=\"color\">blue</span><span slot=\"quantities\">123</span></item>\
            <item><template shadowrootmode=\"open\"><div></div></template><span slot=\"authors\">\"a\",1</span><span slot=\"color\">teal</span></item>"
    );
}

#[test]
fn test_handle_btr_repeat_with_style() {
    let state = Value::Object(vec![(
        "items".to_string(),
        Value::Array(vec![Value::String("item".to_string())]),
    )]);
    assert_eq!(
        render(repeat_protocol(Some(":host\\{color:red;\\}".to_string())), state),
        "<item><template shadowrootmode=\"open\"><style>:host\\{color:red;\\}</style><div></div></template>item</item>"
    );
}

#[test]
fn parser_test_handle_btr_repeat_with_style() {
    let state = Value::Object(vec![(
        "items".to_string(),
        Value::Array(vec![Value::String("item".to_string())]),
    )]);
    assert_eq!(
        render(repeat_protocol(Some(":host\\{color:red;\\}".to_string())), state),
        "<item><template shadowrootmode=\"open\"><style>:host\\{color:red;\\}</style><div></div></template>item</item>"
    );
}

#[test]
fn repeat_over_two_strings() {
    // two items expand in array order, each with its own template region
    let protocol = BuildTimeRenderingProtocol {
        streams: vec![BuildTimeRenderingStream::Repeat(
            BuildTimeRenderingStreamRepeat {
                template: "item".to_string(),
                value: "items".to_string(),
            },
        )],
        templates: vec![(
            "item".to_string(),
            BuildTimeRenderingTemplate {
                template: "<div></div>".to_string(),
                style: None,
            },
        )],
    };
    let state = Value::Object(vec![(
        "items".to_string(),
        Value::Array(vec![
            Value::String("x".to_string()),
            Value::String("y".to_string()),
        ]),
    )]);
    assert_eq!(
        render(protocol, state),
        "<item><template shadowrootmode=\"open\"><div></div></template>x</item>\
            <item><template shadowrootmode=\"open\"><div></div></template>y</item>"
    );
}

#[test]
fn repeat_missing_template_is_skipped() {
    // a repeat whose template is unregistered renders nothing, and the
    // registry check reports the defect
    let protocol = BuildTimeRenderingProtocol {
        streams: vec![
            BuildTimeRenderingStream::Raw(BuildTimeRenderingStreamRaw {
                value: "a".to_string(),
            }),
            BuildTimeRenderingStream::Repeat(BuildTimeRenderingStreamRepeat {
                template: "missing".to_string(),
                value: "items".to_string(),
            }),
            BuildTimeRenderingStream::Raw(BuildTimeRenderingStreamRaw {
                value: "b".to_string(),
            }),
        ],
        templates: vec![],
    };
    assert!(!templates_present(&protocol));
    let state = Value::Object(vec![(
        "items".to_string(),
        Value::Array(vec![Value::String("x".to_string())]),
    )]);
    assert_eq!(render(protocol, state), "ab");
}

#[test]
fn repeat_renders_scalar_kinds_canonically() {
    // numbers, booleans, null and nested arrays in their textual forms
    let state = Value::Object(vec![(
        "items".to_string(),
        Value::Array(vec![
            Value::Number(-7),
            Value::Bool(true),
            Value::Null,
            Value::Array(vec![Value::String("a".to_string()), Value::Number(1)]),
        ]),
    )]);
    let wrapper = |body: &str| {
        format!(
            "<item><template shadowrootmode=\"open\"><div></div></template>{}</item>",
            body
        )
    };
    let expected = format!(
        "{}{}{}{}",
        wrapper("-7"),
        wrapper("true"),
        wrapper(""),
        wrapper("\"a\",1")
    );
    assert_eq!(render(repeat_protocol(None), state), expected);
}

#[test]
fn attribute_renders_non_string_as_json_text() {
    let protocol = BuildTimeRenderingProtocol {
        streams: vec![BuildTimeRenderingStream::Attribute(
            BuildTimeRenderingStreamAttribute {
                value: "data".to_string(),
                name: "value".to_string(),
                default_value: None,
            },
        )],
        templates: vec![],
    };
    let state = Value::Object(vec![(
        "data".to_string(),
        Value::Object(vec![
            ("n".to_string(), Value::Number(2)),
            ("s".to_string(), Value::String("x\"y".to_string())),
        ]),
    )]);
    assert_eq!(render(protocol, state), "value={\"n\":2,\"s\":\"x\\\"y\"}");
}

use surp_core::error::SurpError;
use surp_core::text::{parse, TextValue};

fn s(t: &str) -> String {
    t.to_string()
}

fn float_of(v: &TextValue) -> f64 {
    match v {
        TextValue::Float(t) => t.parse::<f64>().unwrap(),
        other => panic!("not a float: {:?}", other),
    }
}

#[test]
fn parse_null() {
    assert_eq!(parse("null").unwrap(), TextValue::Null);
}

#[test]
fn parse_bool() {
    assert_eq!(parse("true").unwrap(), TextValue::Bool(true));
    assert_eq!(parse("false").unwrap(), TextValue::Bool(false));
}

#[test]
fn parse_uint() {
    assert_eq!(parse("42").unwrap(), TextValue::UInt(42));
    assert_eq!(parse("0").unwrap(), TextValue::UInt(0));
}

#[test]
fn parse_int() {
    assert_eq!(parse("-1").unwrap(), TextValue::Int(-1));
    assert_eq!(parse("-42").unwrap(), TextValue::Int(-42));
}

#[test]
fn parse_float() {
    assert_eq!(float_of(&parse("3.125").unwrap()), 3.125);
    assert_eq!(float_of(&parse("-2.5").unwrap()), -2.5);
}

#[test]
fn parse_string() {
    assert_eq!(parse(r#""hello""#).unwrap(), TextValue::Str(s("hello")));
    assert_eq!(
        parse(r#""with \"quotes\"""#).unwrap(),
        TextValue::Str(s("with \"quotes\""))
    );
}

#[test]
fn parse_bytes() {
    let v = parse("b64#AQID;").unwrap();
    assert_eq!(v, TextValue::Bytes(vec![1, 2, 3]));
}

#[test]
fn parse_array() {
    let v = parse("[1, 2, 3]").unwrap();
    assert_eq!(
        v,
        TextValue::Array(vec![TextValue::UInt(1), TextValue::UInt(2), TextValue::UInt(3)])
    );
}

#[test]
fn parse_object() {
    let v = parse(r#"{ name: "Alice"; age: 30; }"#).unwrap();
    assert_eq!(
        v,
        TextValue::Object(vec![
            (s("name"), TextValue::Str(s("Alice"))),
            (s("age"), TextValue::UInt(30)),
        ])
    );
}

#[test]
fn parse_nested() {
    let input = r#"{
            users: [
                { name: "Bob"; scores: [100, 95, 87]; }
            ];
            count: 1;
        }"#;
    let v = parse(input).unwrap();
    let expected = TextValue::Object(vec![
        (
            s("users"),
            TextValue::Array(vec![TextValue::Object(vec![
                (s("name"), TextValue::Str(s("Bob"))),
                (
                    s("scores"),
                    TextValue::Array(vec![
                        TextValue::UInt(100),
                        TextValue::UInt(95),
                        TextValue::UInt(87),
                    ]),
                ),
            ])]),
        ),
        (s("count"), TextValue::UInt(1)),
    ]);
    assert_eq!(v, expected);
}

#[test]
fn parse_comments() {
    let input = r#"{
            // This is a comment
            name: "Alice"; /* inline comment */
            age: 30;
        }"#;
    let v = parse(input).unwrap();
    assert_eq!(
        v,
        TextValue::Object(vec![
            (s("name"), TextValue::Str(s("Alice"))),
            (s("age"), TextValue::UInt(30)),
        ])
    );
}

#[test]
fn parse_type_annotation() {
    let v = parse("42::u32").unwrap();
    assert_eq!(v, TextValue::UInt(42));
}

#[test]
fn parse_rejects_trailing_content() {
    assert!(parse("42 trailing").is_err());
}

#[test]
fn parse_bytes_inside_array() {
    let v = parse("[b64#AQID, b64#BAUG]").unwrap();
    assert_eq!(
        v,
        TextValue::Array(vec![
            TextValue::Bytes(vec![1, 2, 3]),
            TextValue::Bytes(vec![4, 5, 6])
        ])
    );

    let v2 = parse("[b64#AQID; b64#BAUG;]").unwrap();
    assert_eq!(
        v2,
        TextValue::Array(vec![
            TextValue::Bytes(vec![1, 2, 3]),
            TextValue::Bytes(vec![4, 5, 6])
        ])
    );
}

#[test]
fn text_parse_never_panics_on_garbage() {
    let deep = "[".repeat(1000);
    let huge = format!("[{}]", "1,".repeat(10000));
    let adversarial_inputs = [
        "",
        "   ",
        "\n\n\n",
        "{",
        "}",
        "[",
        "]",
        "{{{{",
        "]]]]",
        "{ key: }",
        "{ : value; }",
        "{ key value; }",
        "{ key: value }",
        r#"{ key: "unterminated }"#,
        "\"\\",
        "b64#;",
        "b64#!!!;",
        "b64#====;",
        "999999999999999999999999999999999999",
        "-999999999999999999999999999999999999",
        "1e99999",
        "1e-99999",
        "0.0.0",
        "--1",
        "++1",
        "/* unclosed comment",
        "// line comment with no newline",
        "/* /* nested */ still going",
        "null null",
        "truefalse",
        "nullnull",
        "\x00",
        "\u{FEFF}",
        "{ \"a\": 1; \"a\": 2; }",
        deep.as_str(),
        huge.as_str(),
    ];

    for input in &adversarial_inputs {
        let _ = parse(input);
    }
}

#[test]
fn text_parse_deeply_nested_objects() {
    let depth = 200;
    let mut text = String::new();
    for _ in 0..depth {
        text.push_str("{ a: ");
    }
    text.push('1');
    for _ in 0..depth {
        text.push_str("; }");
    }
    let _ = parse(&text);
}

#[test]
fn text_parse_huge_number_doesnt_panic() {
    let huge = "9".repeat(1000);
    let result = parse(&huge);
    assert!(result.is_ok() || result.is_err());
}

// ---------------------------------------------------------------------
// Further cases of the grammar and its errors.
// ---------------------------------------------------------------------

fn parse_error(input: &str) -> (usize, usize, String) {
    match parse(input) {
        Err(SurpError::ParseError { line, col, message }) => (line, col, message),
        other => panic!("expected a parse error for {:?}, got {:?}", input, other),
    }
}

#[test]
fn text_trailing_content_error_position() {
    assert_eq!(parse_error("42 trailing"), (1, 4, s("unexpected trailing content")));
}

#[test]
fn text_empty_input_error() {
    assert_eq!(parse_error(""), (1, 1, s("unexpected end of input")));
    assert_eq!(parse_error("  \n  "), (2, 3, s("unexpected end of input")));
}

#[test]
fn text_unexpected_character_error() {
    assert_eq!(parse_error("?"), (1, 1, s("unexpected character: '?'")));
}

#[test]
fn text_integer_limits() {
    assert_eq!(parse("18446744073709551615").unwrap(), TextValue::UInt(u64::MAX));
    assert_eq!(parse_error("18446744073709551616"), (1, 21, s("invalid integer: 18446744073709551616")));
    assert_eq!(parse("-9223372036854775808").unwrap(), TextValue::Int(i64::MIN));
    assert_eq!(parse_error("-9223372036854775809").2, s("invalid integer: -9223372036854775809"));
    assert_eq!(parse("+7").unwrap(), TextValue::UInt(7));
    assert_eq!(parse("-0").unwrap(), TextValue::Int(0));
    assert_eq!(parse_error("--1").2, s("invalid integer: -"));
    assert_eq!(parse_error("++1").2, s("invalid integer: +"));
}

#[test]
fn text_float_literals() {
    assert_eq!(parse("1e5").unwrap(), TextValue::Float(s("1e5")));
    assert_eq!(float_of(&parse("1e5").unwrap()), 100000.0);
    assert_eq!(parse("2.").unwrap(), TextValue::Float(s("2.")));
    assert_eq!(parse("1E-3").unwrap(), TextValue::Float(s("1E-3")));
    assert!(float_of(&parse("1e99999").unwrap()).is_infinite());
    assert_eq!(parse_error("0.0.0").2, s("invalid float: 0.0.0"));
    assert_eq!(parse_error("1e").2, s("invalid float: 1e"));
    assert_eq!(parse_error("1e+").2, s("invalid float: 1e+"));
    assert_eq!(parse_error("-.").2, s("invalid float: -."));
    assert_eq!(parse("inf").unwrap(), TextValue::Float(s("inf")));
    assert_eq!(parse("-inf").unwrap(), TextValue::Float(s("-inf")));
    assert_eq!(parse("NaN").unwrap(), TextValue::Float(s("NaN")));
}

#[test]
fn text_float_texts_agree_with_std() {
    for t in ["1.5", "-0.25", "3e10", "+4.0", "5.", "6.e2", "0.0.1", "1e2e3", "1.2.3e4", "7e-", "-e5"] {
        let ours = parse(t);
        let std_ok = t.parse::<f64>().is_ok();
        match ours {
            Ok(TextValue::Float(x)) => {
                assert!(std_ok, "{t}");
                assert_eq!(x, t);
            }
            Err(SurpError::ParseError { message, .. }) => {
                assert!(!std_ok, "{t}");
                assert_eq!(message, format!("invalid float: {t}"));
            }
            other => panic!("{t}: {other:?}"),
        }
    }
}

#[test]
fn text_string_escapes() {
    assert_eq!(
        parse(r#""a\nb\tc\rd\\e\"f\qg""#).unwrap(),
        TextValue::Str(s("a\nb\tc\rd\\e\"f\\qg"))
    );
    assert_eq!(parse_error("\"abc").2, s("unterminated string"));
    assert_eq!(parse_error("\"abc\\").2, s("unterminated string escape"));
}

#[test]
fn text_expected_character_errors() {
    assert_eq!(parse_error("{ key value; }").2, s("expected ':', got 'v'"));
    assert_eq!(parse_error("{ key: 1 }").2, s("expected ';', got '}'"));
    assert_eq!(parse_error("{ key: 1").2, s("expected ';', got EOF"));
    assert_eq!(parse_error("{ : value; }").2, s("expected identifier"));
}

#[test]
fn text_base64_errors() {
    assert_eq!(parse_error("b64#;").2, s("empty base64 payload"));
    assert!(parse_error("b64#====").2.starts_with("invalid base64: "));
    assert_eq!(parse("b64#AQID").unwrap(), TextValue::Bytes(vec![1, 2, 3]));
}

#[test]
fn text_nested_block_comments_and_annotations() {
    assert_eq!(parse("/* a /* b */ c */ 5").unwrap(), TextValue::UInt(5));
    assert_eq!(parse_error("/* /* nested */ still going").2, s("unexpected end of input"));
    assert_eq!(parse("\"x\"::str ;").unwrap(), TextValue::Str(s("x")));
    assert_eq!(parse("true::bool").unwrap(), TextValue::Bool(true));
    assert_eq!(parse("{ \"quoted key\": null; _k2: [] ; }").unwrap(), TextValue::Object(vec![
        (s("quoted key"), TextValue::Null),
        (s("_k2"), TextValue::Array(vec![])),
    ]));
}

#[test]
fn text_multiline_error_position() {
    assert_eq!(parse_error("{\n  a: 1;\n  b 2;\n}"), (3, 6, s("expected ':', got '2'")));
}

// ---------------------------------------------------------------------
// Pretty-printing.
// ---------------------------------------------------------------------

use surp_core::decoder::Decoder;
use surp_core::encoder::Encoder;
use surp_core::text::pretty_print;
use surp_core::value::Value;

fn float_text(f: f64) -> TextValue {
    if f.is_nan() {
        TextValue::Float(s("NaN"))
    } else if f.is_infinite() {
        TextValue::Float(s(if f < 0.0 { "-inf" } else { "inf" }))
    } else {
        TextValue::Float(format!("{f}"))
    }
}

fn to_value(v: &TextValue) -> Value {
    match v {
        TextValue::Null => Value::Null,
        TextValue::Bool(b) => Value::Bool(*b),
        TextValue::UInt(n) => Value::UInt(*n),
        TextValue::Int(n) => Value::Int(*n),
        TextValue::Float(t) => Value::Float(t.parse::<f64>().unwrap().to_bits()),
        TextValue::Str(x) => Value::Str(x.clone()),
        TextValue::Bytes(b) => Value::Bytes(b.clone()),
        TextValue::Array(items) => Value::Array(items.iter().map(to_value).collect()),
        TextValue::Object(fs) => Value::Object(fs.iter().map(|(k, v)| (k.clone(), to_value(v))).collect()),
    }
}

fn to_text(v: &Value) -> TextValue {
    match v {
        Value::Null => TextValue::Null,
        Value::Bool(b) => TextValue::Bool(*b),
        Value::UInt(n) => TextValue::UInt(*n),
        Value::Int(n) => TextValue::Int(*n),
        Value::Float(bits) => float_text(f64::from_bits(*bits)),
        Value::Str(x) => TextValue::Str(x.clone()),
        Value::Bytes(b) => TextValue::Bytes(b.clone()),
        Value::Array(items) => TextValue::Array(items.iter().map(to_text).collect()),
        Value::Object(fs) => TextValue::Object(fs.iter().map(|(k, v)| (k.clone(), to_text(v))).collect()),
    }
}

fn structural_eq(a: &TextValue, b: &TextValue) -> bool {
    match (a, b) {
        (TextValue::Float(x), TextValue::Float(y)) => {
            x.parse::<f64>().unwrap().to_bits() == y.parse::<f64>().unwrap().to_bits()
        }
        (TextValue::Array(x), TextValue::Array(y)) => {
            x.len() == y.len() && x.iter().zip(y).all(|(a, b)| structural_eq(a, b))
        }
        (TextValue::Object(x), TextValue::Object(y)) => {
            x.len() == y.len()
                && x.iter().zip(y).all(|((ka, va), (kb, vb))| ka == kb && structural_eq(va, vb))
        }
        _ => a == b,
    }
}

#[test]
fn pretty_print_roundtrip() {
    let original = TextValue::Object(vec![
        (s("name"), TextValue::Str(s("Alice"))),
        (s("age"), TextValue::UInt(30)),
        (
            s("tags"),
            TextValue::Array(vec![TextValue::Str(s("admin")), TextValue::Str(s("user"))]),
        ),
    ]);
    let text = pretty_print(&original, 4);
    let parsed = parse(&text).unwrap();
    assert_eq!(parsed, original);
}

#[test]
fn pretty_print_bytes() {
    let v = TextValue::Bytes(vec![0xDE, 0xAD, 0xBE, 0xEF]);
    let text = pretty_print(&v, 0);
    assert!(text.starts_with("b64#"));
    let parsed = parse(&text).unwrap();
    assert_eq!(parsed, v);
}

#[test]
fn text_binary_text_roundtrip() {
    let input = r#"{ name: "Alice"; age: 30; active: true; }"#;
    let val1 = parse(input).unwrap();

    let mut enc = Encoder::new();
    enc.encode_value(&to_value(&val1)).unwrap();
    let binary = enc.finish().unwrap();

    let mut dec = Decoder::new(&binary);
    let val2 = to_text(&dec.decode_next().unwrap().to_owned_value());
    assert_eq!(val1, val2);

    let text2 = pretty_print(&val2, 4);
    let val3 = parse(&text2).unwrap();
    assert_eq!(val1, val3);
}

#[test]
fn text_pretty_print_then_reparse_identity() {
    let values = vec![
        TextValue::Null,
        TextValue::Bool(true),
        TextValue::Bool(false),
        TextValue::UInt(0),
        TextValue::UInt(u64::MAX),
        TextValue::Int(-1),
        TextValue::Int(i64::MIN),
        float_text(3.125),
        float_text(0.0),
        TextValue::Str(s("")),
        TextValue::Str(s("hello world")),
        TextValue::Str(s("with \"quotes\" and \\backslash")),
        TextValue::Str(s("line\nbreak\ttab")),
        TextValue::Array(vec![]),
        TextValue::Object(vec![]),
        TextValue::Array(vec![TextValue::UInt(1), TextValue::Str(s("two")), TextValue::Null]),
        TextValue::Object(vec![
            (s("key"), TextValue::UInt(1)),
            (
                s("nested"),
                TextValue::Object(vec![(s("inner"), TextValue::Bool(true))]),
            ),
        ]),
    ];

    for val in &values {
        let text = pretty_print(val, 2);
        let reparsed = parse(&text).unwrap_or_else(|e| {
            panic!(
                "Failed to re-parse pretty_print output for {:?}:\n{}\nError: {}",
                val,
                text,
                e.message()
            );
        });
        assert!(
            structural_eq(val, &reparsed),
            "Pretty-print roundtrip failed for {:?}\nText: {}\nReparsed: {:?}",
            val,
            text,
            reparsed
        );
    }
}

#[test]
fn text_pretty_print_exact_layout() {
    let v = TextValue::Object(vec![
        (s("name"), TextValue::Str(s("A\"b"))),
        (s("two words"), TextValue::Int(0)),
        (s("list"), TextValue::Array(vec![TextValue::UInt(1), TextValue::Int(-2)])),
        (
            s("deep"),
            TextValue::Array(vec![TextValue::Array(vec![]), TextValue::Bytes(vec![1, 2, 3])]),
        ),
        (s("f"), TextValue::Float(s("5"))),
        (s("g"), TextValue::Float(s("NaN"))),
        (s("e"), TextValue::Object(vec![])),
    ]);
    let expected = "{\n  name: \"A\\\"b\";\n  \"two words\": -0;\n  list: [1, -2];\n  deep: [\n    [],\n    b64#AQID\n  ];\n  f: 5.0;\n  g: NaN;\n  e: {};\n}";
    assert_eq!(pretty_print(&v, 2), expected);
    assert_eq!(pretty_print(&TextValue::Array((0..9).map(|_| TextValue::Null).collect()), 1), "[\n null,\n null,\n null,\n null,\n null,\n null,\n null,\n null,\n null\n]");
}

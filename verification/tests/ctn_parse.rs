use surp_core::ctn::{format_value, CtnPayload, CtnScalar, CtnTensorData, CtnValue};
use surp_core::ctn_expr::parse_inline_expr;
use surp_core::ctn_inline::{parse_numeric_literal, parse_quoted_string, split_top_level};
use surp_core::ctn_lex::{parse_hex_compact, parse_hex_spaced};
use surp_core::ctn_lines::preprocess_lines;
use surp_core::ctn_reader::{parse_document, parse_value};
use surp_core::error::SurpError;

fn chars(s: &str) -> Vec<char> {
    s.chars().collect()
}

fn inline(s: &str) -> Result<CtnValue, SurpError> {
    parse_inline_expr(&chars(s))
}

#[test]
fn parses_struct_with_nested_values() {
    let input = r#"
User
  id = uid"550e8400-e29b-41d4-a716-446655440000"
  age = 30u8
  active = true
  tags = ['admin, 'staff]
"#;
    let value = parse_value(input).unwrap();
    let CtnValue::Product { type_label, fields } = value else {
        panic!("expected struct product");
    };
    assert_eq!(type_label.as_deref(), Some("User"));
    assert_eq!(fields.len(), 4);
}

#[test]
fn parses_document_with_annotations_and_binding() {
    let input = r#"
@surp v1
@encoding cbf

let alice = User
  id = uid"550e8400-e29b-41d4-a716-446655440000"
  name = "Alice"

&alice
"#;
    let doc = parse_document(input).unwrap();
    assert_eq!(doc.annotations.len(), 2);
    assert_eq!(doc.bindings.len(), 1);
    assert!(matches!(doc.root, Some(CtnValue::RefBinding(_))));
}

#[test]
fn parses_inline_map_and_sequence() {
    let value = parse_value("map<str, bool> [\"enabled\" => true, \"debug\" => false]").unwrap();
    let CtnValue::Association(pairs) = value else {
        panic!("expected map association");
    };
    assert_eq!(pairs.len(), 2);
}

#[test]
fn empty_map_format_is_parseable_and_idempotent() {
    let value = parse_value("map<str, str> []").unwrap();
    let text = format_value(&value);
    assert_eq!(text, "map<any, any> []");
    let reparsed = parse_value(&text).unwrap();
    assert_eq!(value, reparsed);
    assert_eq!(format_value(&reparsed), text);
}

#[test]
fn format_roundtrip_preserves_shape() {
    let input = r#"
Order
  id = uid"a1b2c3d4-e5f6-7890-abcd-ef1234567890"
  total = 99.99f64
  items = ["a", "b"]
"#;
    let value = parse_value(input).unwrap();
    let text = format_value(&value);
    let reparsed = parse_value(&text).unwrap();
    assert_eq!(value, reparsed);
}

#[test]
fn parses_tensor_block() {
    let input = r#"
tensor<f32>[2, 2]
  [1.0f32, 2.0f32]
  [3.0f32, 4.0f32]
"#;
    let value = parse_value(input).unwrap();
    let CtnValue::Tensor { shape, data, .. } = value else {
        panic!("expected tensor");
    };
    assert_eq!(shape.len(), 2);
    match data {
        CtnTensorData::DenseF64(values) => assert_eq!(values.len(), 4),
        _ => panic!("expected dense f64 tensor data"),
    }
}

#[test]
fn inline_scalars_and_references() {
    assert_eq!(inline("  null ").unwrap(), CtnValue::Scalar(CtnScalar::Null));
    assert_eq!(inline("true").unwrap(), CtnValue::Scalar(CtnScalar::Bool(true)));
    assert_eq!(inline("&alice").unwrap(), CtnValue::RefBinding("alice".into()));
    assert_eq!(
        inline("ref 5").unwrap(),
        CtnValue::RefById(Box::new(CtnValue::Scalar(CtnScalar::Vi64(5))))
    );
    assert_eq!(inline("'admin").unwrap(), CtnValue::Scalar(CtnScalar::Sym("admin".into())));
    assert_eq!(inline("a::b").unwrap(), CtnValue::Sum { type_label: Some("a".into()), variant: "b".into(), payload: CtnPayload::Unit });
    assert_eq!(inline("\"\"\"raw \\n\"\"\"").unwrap(), CtnValue::Scalar(CtnScalar::Str("raw \\n".into())));
    assert_eq!(
        inline("ts\"2024\"").unwrap(),
        CtnValue::Scalar(CtnScalar::Tagged { tag: "ts".into(), value: "2024".into() })
    );
}

#[test]
fn inline_bytes_literals() {
    assert_eq!(inline("b\"0a_ff\"").unwrap(), CtnValue::Scalar(CtnScalar::Bytes(vec![0x0a, 0xff])));
    assert_eq!(inline("<0a ff 01>").unwrap(), CtnValue::Scalar(CtnScalar::Bytes(vec![0x0a, 0xff, 0x01])));
    assert_eq!(inline("b64\"AQI=\"").unwrap(), CtnValue::Scalar(CtnScalar::Bytes(vec![1, 2])));
    assert!(matches!(inline("b64\"!!\""), Err(SurpError::InvalidBase64(_))));
    assert!(matches!(inline("b64\""), Err(SurpError::InvalidData(_))));
    assert_eq!(parse_hex_compact(&chars("abc")), Err(SurpError::InvalidData("hex bytes literal must have even length".into())));
    assert_eq!(parse_hex_compact(&chars("zz")), Err(SurpError::InvalidData("invalid hex bytes literal".into())));
    assert_eq!(parse_hex_spaced(&chars("abc")), Err(SurpError::InvalidData("space-separated hex bytes must be two hex digits each".into())));
    assert_eq!(parse_hex_spaced(&chars("")), Ok(vec![]));
}

#[test]
fn inline_containers() {
    let v = inline("[1, 2, , 3]").unwrap();
    let CtnValue::Sequence { items, .. } = v else { panic!("expected sequence") };
    assert_eq!(items.len(), 3);
    assert_eq!(inline("()").unwrap(), CtnValue::Sequence { elem_type: None, items: vec![] });
    assert!(matches!(inline("(1, )"), Err(SurpError::InvalidData(_))));
    let s = inline("Shape::Circle(r: 1, c: \"x\")").unwrap();
    let CtnValue::Sum { payload: CtnPayload::Struct(fs), variant, .. } = s else { panic!("expected struct variant") };
    assert_eq!(variant, "Circle");
    assert_eq!(fs.len(), 2);
    let t = inline("Pair::Of(1, 2)").unwrap();
    let CtnValue::Sum { payload: CtnPayload::Tuple(xs), .. } = t else { panic!("expected tuple variant") };
    assert_eq!(xs.len(), 2);
    assert_eq!(
        inline("map<a, b> [1]"),
        Err(SurpError::ParseError { line: 1, col: 1, message: "expected separator '=>' in '1'".into() })
    );
}

#[test]
fn inline_errors() {
    assert_eq!(inline("   "), Err(SurpError::InvalidData("empty inline expression".into())));
    assert_eq!(inline("&1x"), Err(SurpError::InvalidData("invalid reference name '1x'".into())));
    assert_eq!(inline("'"), Err(SurpError::InvalidData("invalid symbol ''".into())));
    assert_eq!(inline("x::"), Err(SurpError::InvalidData("missing enum variant".into())));
    assert_eq!(inline("x::y(1"), Err(SurpError::InvalidData("unterminated enum payload".into())));
    assert_eq!(inline("@@"), Err(SurpError::InvalidData("unable to parse inline expression '@@'".into())));
}

#[test]
fn splitting_quoting_and_numbers() {
    let parts = split_top_level(&chars("a, (b, c), \"d,e\""), ',');
    assert_eq!(parts, vec![chars("a"), chars("(b, c)"), chars("\"d,e\"")]);
    assert_eq!(parse_quoted_string(&chars("\"a\\tb\"")).unwrap(), chars("a\tb"));
    assert_eq!(parse_numeric_literal(&chars("42i64")).unwrap(), Some(CtnScalar::I64(42)));
    assert_eq!(parse_numeric_literal(&chars("abc")).unwrap(), None);
}

#[test]
fn preprocessing_lines() {
    let ls = preprocess_lines(&chars("a --comment\n--! doc\n  b --[[x]] c\n--[[\nskip\n]] d\r\n\n")).unwrap();
    let texts: Vec<(usize, usize, String)> = ls.iter().map(|l| (l.number, l.indent, l.text.iter().collect())).collect();
    assert_eq!(
        texts,
        vec![(1, 0, "a".to_string()), (3, 2, "b  c".to_string()), (6, 1, "d".to_string())]
    );
    assert_eq!(
        preprocess_lines(&chars("\tx")).err(),
        Some(SurpError::ParseError { line: 1, col: 1, message: "tabs are not allowed for indentation in CTN".into() })
    );
}

#[test]
fn document_errors_and_blocks() {
    assert_eq!(
        parse_value(""),
        Err(SurpError::InvalidData("document has no root value or bindings".into()))
    );
    assert_eq!(
        parse_document("let 1 = 2"),
        Err(SurpError::ParseError { line: 1, col: 1, message: "invalid binding name '1'".into() })
    );
    let v = parse_value("let a = 1\nlet b = seq<u8>\n  1\n  2").unwrap();
    let CtnValue::Sequence { elem_type, items } = v else { panic!("expected sequence") };
    assert_eq!(elem_type.as_deref(), Some("u8"));
    assert_eq!(items.len(), 2);
    let m = parse_value("map<str, u8>\n  \"a\" => 1\n  \"b\" => 2").unwrap();
    let CtnValue::Association(ps) = m else { panic!("expected map") };
    assert_eq!(ps.len(), 2);
    let st = parse_value("stream<Event>\n  @rate 5").unwrap();
    let CtnValue::Stream { item_type, annotations } = st else { panic!("expected stream") };
    assert_eq!(item_type, "Event");
    assert_eq!(annotations.len(), 1);
    let e = parse_value("Shape::Circle\n  r = 1").unwrap();
    assert!(matches!(e, CtnValue::Sum { payload: CtnPayload::Struct(_), .. }));
    let b = parse_value("tensor<u8>[_, 4]\n  <binary: 3 bytes>").unwrap();
    let CtnValue::Tensor { shape, data, .. } = b else { panic!("expected tensor") };
    assert_eq!(shape, vec![None, Some(4)]);
    assert_eq!(data, CtnTensorData::BinaryBlob(vec![0, 0, 0]));
    assert_eq!(
        parse_value("User\n  a = 1\n   b = 2"),
        Err(SurpError::ParseError { line: 3, col: 1, message: "inconsistent indentation in struct fields".into() })
    );
}

use surp_core::ctn::{
    format_document, format_value, CtnAnnotation, CtnBinding, CtnDocument, CtnField, CtnPayload, CtnScalar,
    CtnTensorData, CtnValue,
};

fn sc(s: CtnScalar) -> CtnValue {
    CtnValue::Scalar(s)
}

#[test]
fn formats_scalars() {
    assert_eq!(format_value(&sc(CtnScalar::I64(-5))), "-5i64");
    assert_eq!(format_value(&sc(CtnScalar::I64(i64::MIN))), "-9223372036854775808i64");
    assert_eq!(format_value(&sc(CtnScalar::U64(7))), "7u64");
    assert_eq!(format_value(&sc(CtnScalar::Vi64(-3))), "-3");
    assert_eq!(format_value(&sc(CtnScalar::Vu64(3))), "3");
    assert_eq!(format_value(&sc(CtnScalar::F64("1.5".into()))), "1.5f64");
    assert_eq!(format_value(&sc(CtnScalar::F32("2".into()))), "2f32");
    assert_eq!(format_value(&sc(CtnScalar::Str("a\"b\\c\n".into()))), "\"a\\\"b\\\\c\\n\"");
    assert_eq!(format_value(&sc(CtnScalar::Bytes(vec![1, 2]))), "b64\"AQI=\"");
    assert_eq!(format_value(&sc(CtnScalar::Sym("theme".into()))), "'theme");
    assert_eq!(
        format_value(&sc(CtnScalar::Tagged { tag: "ts".into(), value: "2024".into() })),
        "ts\"2024\""
    );
    assert_eq!(format_value(&sc(CtnScalar::Null)), "null");
    assert_eq!(format_value(&sc(CtnScalar::Unit)), "unit");
    assert_eq!(format_value(&sc(CtnScalar::Bool(true))), "true");
}

#[test]
fn formats_structures() {
    let point = CtnValue::Product {
        type_label: Some("Point".into()),
        fields: vec![
            CtnField { name: "x".into(), value: sc(CtnScalar::I64(1)) },
            CtnField { name: "y".into(), value: sc(CtnScalar::Vu64(2)) },
        ],
    };
    assert_eq!(format_value(&point), "Point\n  x = 1i64\n  y = 2");
    assert_eq!(format_value(&CtnValue::Association(vec![])), "map<any, any> []");
    let flat = CtnValue::Sequence {
        elem_type: None,
        items: vec![sc(CtnScalar::Vu64(1)), sc(CtnScalar::Str("a".into())), CtnValue::RefBinding("b".into())],
    };
    assert_eq!(format_value(&flat), "[1, \"a\", &b]");
    let nested = CtnValue::Sequence {
        elem_type: Some("P".into()),
        items: vec![CtnValue::Product {
            type_label: Some("P".into()),
            fields: vec![CtnField { name: "a".into(), value: sc(CtnScalar::Null) }],
        }],
    };
    assert_eq!(format_value(&nested), "seq<P>\n  P\n    a = null");
    let map = CtnValue::Association(vec![(sc(CtnScalar::Sym("k".into())), sc(CtnScalar::Bool(false)))]);
    assert_eq!(format_value(&map), "map<any, any>\n  'k => false");
    let unit_variant = CtnValue::Sum { type_label: Some("Color".into()), variant: "Red".into(), payload: CtnPayload::Unit };
    assert_eq!(format_value(&unit_variant), "Color :: Red");
    let tuple = CtnValue::Sum {
        type_label: None,
        variant: "Pair".into(),
        payload: CtnPayload::Tuple(vec![sc(CtnScalar::Vu64(1)), sc(CtnScalar::Vu64(2))]),
    };
    assert_eq!(format_value(&tuple), "Pair(1, 2)");
    let by_id = CtnValue::RefById(Box::new(sc(CtnScalar::Vu64(9))));
    assert_eq!(format_value(&by_id), "ref 9");
    let tensor = CtnValue::Tensor {
        element_type: "f64".into(),
        shape: vec![Some(2), None],
        data: CtnTensorData::DenseF64(vec!["1.5".into(), "2".into()]),
        annotations: vec![CtnAnnotation { name: "unit".into(), value: Some(CtnScalar::Str("m".into())) }],
    };
    assert_eq!(format_value(&tensor), "tensor<f64>[2, _]\n  @unit \"m\"\n  [1.5f64, 2f64]");
    let blob = CtnValue::Tensor {
        element_type: "u8".into(),
        shape: vec![],
        data: CtnTensorData::BinaryBlob(vec![0; 3]),
        annotations: vec![],
    };
    assert_eq!(format_value(&blob), "tensor<u8>\n  <binary: 3 bytes>");
    let stream = CtnValue::Stream { item_type: "Event".into(), annotations: vec![] };
    assert_eq!(format_value(&stream), "stream<Event>");
    let opaque = CtnValue::Opaque { type_tag: "x".into(), bytes: vec![1, 2] };
    assert_eq!(format_value(&opaque), "opaque<x> <binary: 2 bytes>");
}

#[test]
fn formats_documents() {
    let doc = CtnDocument {
        annotations: vec![CtnAnnotation { name: "version".into(), value: Some(CtnScalar::Vu64(1)) }],
        uses: vec!["std".into()],
        bindings: vec![
            CtnBinding { name: "x".into(), value: sc(CtnScalar::Vu64(5)) },
            CtnBinding {
                name: "p".into(),
                value: CtnValue::Product {
                    type_label: None,
                    fields: vec![CtnField { name: "a".into(), value: sc(CtnScalar::Null) }],
                },
            },
        ],
        root: Some(sc(CtnScalar::Null)),
    };
    assert_eq!(format_document(&doc), "@version 1\nuse std\nlet x = 5\nlet p = struct\n  a = null\n\nnull");
    let no_root = CtnDocument {
        annotations: vec![CtnAnnotation { name: "a".into(), value: None }],
        uses: vec![],
        bindings: vec![],
        root: None,
    };
    assert_eq!(format_document(&no_root), "@a");
    let only_root = CtnDocument { annotations: vec![], uses: vec![], bindings: vec![], root: Some(sc(CtnScalar::Unit)) };
    assert_eq!(format_document(&only_root), "unit");
}

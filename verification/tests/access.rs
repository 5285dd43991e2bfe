use surp_core::ast::{
    Annotation, Binding, Document, Field, Product, Reference, Scalar, Sequence, Stream, Sum, SumPayload, Tensor,
    TensorData, Value,
};

#[test]
fn document_introspection_helpers() {
    let doc = Document {
        annotations: vec![Annotation { name: "surp".into(), value: Some(Scalar::Str("v1".into())) }],
        uses: Vec::new(),
        bindings: vec![Binding { name: "alice".into(), value: Value::Scalar(Scalar::Str("Alice".into())) }],
        root: None,
    };

    assert_eq!(doc.annotation_names(), vec!["surp"]);
    assert_eq!(doc.binding_names(), vec!["alice"]);
    assert_eq!(doc.binding_value("alice").and_then(Value::as_scalar), Some(&Scalar::Str("Alice".into())));
    assert!(!doc.is_empty());
}

#[test]
fn rfc_value_introspection_helpers() {
    let value = Value::Product(Product {
        type_label: Some("User".into()),
        fields: vec![
            Field { name: "name".into(), value: Value::Scalar(Scalar::Str("Alice".into())) },
            Field {
                name: "tags".into(),
                value: Value::Sequence(Sequence {
                    elem_type: Some("str".into()),
                    items: vec![Value::Scalar(Scalar::Str("admin".into())), Value::Scalar(Scalar::Str("ops".into()))],
                }),
            },
        ],
    });

    assert_eq!(value.type_label(), "product");
    assert_eq!(value.keys(), vec!["name", "tags"]);
    assert_eq!(value.len(), 2);
    assert!(value.contains_key("tags"));
    assert_eq!(
        value.get("tags").and_then(|tags| tags.get_index(1)).and_then(Value::as_scalar),
        Some(&Scalar::Str("ops".into()))
    );
}

#[test]
fn empty_document_is_empty() {
    let doc = Document { annotations: Vec::new(), uses: Vec::new(), bindings: Vec::new(), root: None };
    assert!(doc.is_empty());
    assert!(doc.annotation("x").is_none());
    assert!(doc.binding_value("x").is_none());
}

#[test]
fn association_lookup_by_string_and_symbol_keys() {
    let value = Value::Association(vec![
        (Value::Scalar(Scalar::Str("a".into())), Value::Scalar(Scalar::U64(1))),
        (Value::Scalar(Scalar::U64(7)), Value::Scalar(Scalar::U64(2))),
        (Value::Scalar(Scalar::Sym("b".into())), Value::Scalar(Scalar::U64(3))),
        (Value::Scalar(Scalar::Str("a".into())), Value::Scalar(Scalar::U64(4))),
    ]);
    assert_eq!(value.type_label(), "association");
    assert_eq!(value.get("a"), Some(&Value::Scalar(Scalar::U64(1))));
    assert_eq!(value.get("b"), Some(&Value::Scalar(Scalar::U64(3))));
    assert_eq!(value.get("c"), None);
    assert_eq!(value.keys(), vec!["a", "b", "a"]);
    assert_eq!(value.values().len(), 4);
    assert_eq!(value.len(), 4);
}

#[test]
fn sum_payload_accessors() {
    let tuple = Sum {
        type_label: None,
        variant: "Pair".into(),
        payload: SumPayload::Tuple(vec![Value::Scalar(Scalar::Bool(true)), Value::Scalar(Scalar::Null)]),
    };
    assert_eq!(tuple.payload_kind(), "tuple");
    assert_eq!(tuple.len(), 2);
    assert_eq!(tuple.get_index(0), Some(&Value::Scalar(Scalar::Bool(true))));
    assert_eq!(tuple.get_index(2), None);
    assert!(tuple.field("x").is_none());
    assert!(tuple.field_names().is_empty());

    let record = Sum {
        type_label: Some("Shape".into()),
        variant: "Circle".into(),
        payload: SumPayload::Struct(vec![Field { name: "r".into(), value: Value::Scalar(Scalar::U64(2)) }]),
    };
    assert_eq!(record.payload_kind(), "struct");
    assert_eq!(record.field("r"), Some(&Value::Scalar(Scalar::U64(2))));
    assert_eq!(record.field_names(), vec!["r"]);
    let value = Value::Sum(record);
    assert_eq!(value.type_label(), "sum");
    assert!(value.contains_key("r"));

    let unit = Sum { type_label: None, variant: "None".into(), payload: SumPayload::Unit };
    assert!(unit.is_empty());
    assert!(unit.values().is_empty());
    assert_eq!(SumPayload::Unit.kind(), "unit");
}

#[test]
fn reference_by_value_is_looked_through() {
    let inner = Value::Sequence(Sequence { elem_type: None, items: vec![Value::Scalar(Scalar::I64(-1))] });
    let value = Value::Reference(Reference::ById(Box::new(inner)));
    assert_eq!(value.type_label(), "reference");
    assert_eq!(value.get_index(0), Some(&Value::Scalar(Scalar::I64(-1))));
    assert_eq!(value.values().len(), 1);
    assert_eq!(value.len(), 0);
    let binding = Value::Reference(Reference::Binding("x".into()));
    assert!(binding.get_index(0).is_none());
    assert!(binding.keys().is_empty());
}

#[test]
fn tensor_and_stream_accessors() {
    let tensor = Tensor {
        element_type: "i64".into(),
        shape: vec![Some(3)],
        data: TensorData::DenseI64(vec![1, 2, 3]),
        annotations: vec![Annotation { name: "unit".into(), value: None }],
    };
    assert_eq!(tensor.data_kind(), "dense_i64");
    assert_eq!(tensor.len(), 3);
    assert!(!tensor.is_empty());
    assert!(tensor.annotation("unit").is_some());
    assert!(tensor.annotation("scale").is_none());
    assert_eq!(TensorData::BinaryBlob(vec![]).kind(), "binary_blob");
    assert!(TensorData::DenseF64(vec![]).is_empty());

    let stream = Stream {
        item_type: "Event".into(),
        annotations: vec![
            Annotation { name: "a".into(), value: None },
            Annotation { name: "b".into(), value: Some(Scalar::U64(1)) },
        ],
    };
    assert_eq!(stream.annotation_names(), vec!["a", "b"]);
    assert_eq!(stream.annotation("b").map(|a| &a.value), Some(&Some(Scalar::U64(1))));
    let value = Value::Stream(stream);
    assert_eq!(value.len(), 2);
    assert!(value.as_stream().is_some());
    assert!(value.as_tensor().is_none());
}

#[test]
fn scalar_accessors() {
    assert_eq!(Scalar::I64(-2).as_i64(), Some(-2));
    assert_eq!(Scalar::Vu64(7).as_i64(), Some(7));
    assert_eq!(Scalar::U64(u64::MAX).as_i64(), None);
    assert_eq!(Scalar::Bool(true).as_bool(), Some(true));
    assert_eq!(Scalar::Str("x".into()).as_str(), Some("x"));
    assert_eq!(Scalar::Sym("x".into()).as_str(), None);
    assert_eq!(Scalar::Tagged { tag: "t".into(), value: "v".into() }.type_label(), "tagged");
    assert_eq!(Value::from(Scalar::Unit), Value::Scalar(Scalar::Unit));
    assert!(Value::from(Scalar::Unit).is_scalar());
}

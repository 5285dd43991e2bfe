use surp_core::ast::{
    Binding, Document, Field, Product, Reference, Scalar, Sequence, Tensor, TensorData, Value,
};
use surp_core::cbf::{EncodeOptions, CBF_HEADER_SIZE};
use surp_core::document::{encode_document, encode_value, resolve_references};
use surp_core::error::SurpError;
use surp_core::segment::{decode_document, decode_value};

fn doc_with(bindings: Vec<Binding>, root: Option<Value>) -> Document {
    Document { annotations: Vec::new(), uses: Vec::new(), bindings, root }
}

fn options() -> EncodeOptions {
    EncodeOptions { with_symtab: true, alignment: 0 }
}

#[test]
fn scalar_roundtrip() {
    let value = Value::Scalar(Scalar::Vi64(-42));
    let encoded = encode_value(&value, options()).unwrap();
    let decoded = decode_value(&encoded).unwrap();
    assert_eq!(decoded, value);
}

#[test]
fn product_roundtrip_with_symbols() {
    let value = Value::Product(Product {
        type_label: Some("User".into()),
        fields: vec![
            Field {
                name: "id".into(),
                value: Value::Scalar(Scalar::Tagged {
                    tag: "uid".into(),
                    value: "550e8400-e29b-41d4-a716-446655440000".into(),
                }),
            },
            Field { name: "role".into(), value: Value::Scalar(Scalar::Sym("Admin".into())) },
        ],
    });

    let encoded = encode_value(&value, options()).unwrap();
    let decoded = decode_value(&encoded).unwrap();
    assert_eq!(decoded, value);
}

#[test]
fn sequence_map_tensor_roundtrip() {
    let value = Value::Association(vec![
        (
            Value::Scalar(Scalar::Str("vectors".into())),
            Value::Sequence(Sequence {
                elem_type: Some("tensor<f64>".into()),
                items: vec![Value::Tensor(Tensor {
                    element_type: "f64".into(),
                    shape: vec![Some(2)],
                    data: TensorData::DenseF64(vec![1.0f64.to_bits(), 2.0f64.to_bits()]),
                    annotations: Vec::new(),
                })],
            }),
        ),
        (Value::Scalar(Scalar::Str("active".into())), Value::Scalar(Scalar::Bool(true))),
    ]);

    let encoded = encode_value(&value, options()).unwrap();
    let decoded = decode_value(&encoded).unwrap();
    assert_eq!(decoded, value);
}

#[test]
fn crc_detects_corruption() {
    let value = Value::Scalar(Scalar::Str("hello".into()));
    let mut encoded = encode_value(&value, options()).unwrap();
    let idx = CBF_HEADER_SIZE + 2;
    encoded[idx] ^= 0xFF;
    let err = decode_value(&encoded).unwrap_err();
    assert!(matches!(err, SurpError::ChecksumMismatch { .. }));
}

#[test]
fn resolves_references_before_encoding() {
    let doc = doc_with(
        vec![Binding {
            name: "alice".into(),
            value: Value::Product(Product {
                type_label: Some("User".into()),
                fields: vec![Field { name: "name".into(), value: Value::Scalar(Scalar::Str("Alice".into())) }],
            }),
        }],
        Some(Value::Reference(Reference::Binding("alice".into()))),
    );

    let encoded = encode_document(&doc, options()).unwrap();
    let decoded = decode_document(&encoded).unwrap();
    let root = decoded.document.effective_root().unwrap();
    assert!(matches!(root, Value::Product(_)));
}

#[test]
fn effective_root_prefers_explicit_root() {
    let doc = doc_with(
        vec![Binding { name: "a".into(), value: Value::Scalar(Scalar::U64(1)) }],
        Some(Value::Scalar(Scalar::U64(2))),
    );
    assert_eq!(doc.effective_root().unwrap(), Value::Scalar(Scalar::U64(2)));
}

#[test]
fn effective_root_falls_back_to_last_binding() {
    let doc = doc_with(
        vec![
            Binding { name: "a".into(), value: Value::Scalar(Scalar::U64(1)) },
            Binding { name: "b".into(), value: Value::Scalar(Scalar::U64(2)) },
        ],
        None,
    );
    assert_eq!(doc.effective_root().unwrap(), Value::Scalar(Scalar::U64(2)));
}

#[test]
fn empty_document_has_no_root() {
    let doc = doc_with(Vec::new(), None);
    assert!(matches!(doc.effective_root(), Err(SurpError::InvalidData(_))));
    assert!(matches!(encode_document(&doc, options()), Err(SurpError::InvalidData(_))));
}

#[test]
fn symbol_table_is_sorted_and_distinct() {
    let value = Value::Product(Product {
        type_label: Some("User".into()),
        fields: vec![
            Field { name: "role".into(), value: Value::Scalar(Scalar::Sym("Admin".into())) },
            Field { name: "alias".into(), value: Value::Scalar(Scalar::Sym("Admin".into())) },
        ],
    });
    let encoded = encode_value(&value, options()).unwrap();
    let decoded = decode_document(&encoded).unwrap();
    assert_eq!(decoded.symbols, vec!["Admin".to_string(), "User".into(), "alias".into(), "role".into()]);
    assert!(decoded.header.has_symtab());
    assert_eq!(decoded.document.root, Some(value));
}

#[test]
fn no_symtab_rejects_symbol_values() {
    let value = Value::Scalar(Scalar::Sym("Admin".into()));
    let err = encode_value(&value, EncodeOptions { with_symtab: false, alignment: 0 }).unwrap_err();
    assert_eq!(
        err,
        SurpError::InvalidData("symbol values require symbol table; enable EncodeOptions::with_symtab".into())
    );
}

#[test]
fn no_symtab_encodes_symbol_free_values() {
    let value = Value::Product(Product {
        type_label: Some("Point".into()),
        fields: vec![Field { name: "x".into(), value: Value::Scalar(Scalar::I64(3)) }],
    });
    let encoded = encode_value(&value, EncodeOptions { with_symtab: false, alignment: 4 }).unwrap();
    let decoded = decode_document(&encoded).unwrap();
    assert!(decoded.symbols.is_empty());
    assert!(!decoded.header.has_symtab());
    assert_eq!(decoded.header.alignment, 4);
    assert_eq!(decoded.header.root_offset, 0);
    assert_eq!(decoded.document.root, Some(value));
}

#[test]
fn encoded_scalar_bytes() {
    let encoded = encode_value(&Value::Scalar(Scalar::Null), options()).unwrap();
    // Header (32), the null segment (4), the CRC (8).
    assert_eq!(encoded.len(), 44);
    assert_eq!(&encoded[..4], b"SURP");
    assert_eq!(encoded[6], 1);
}

#[test]
fn cyclic_reference_is_rejected() {
    let doc = doc_with(
        vec![
            Binding { name: "a".into(), value: Value::Reference(Reference::Binding("b".into())) },
            Binding { name: "b".into(), value: Value::Reference(Reference::Binding("a".into())) },
        ],
        None,
    );
    let err = encode_document(&doc, options()).unwrap_err();
    assert_eq!(err, SurpError::InvalidData("cyclic reference detected at binding 'a'".into()));
}

#[test]
fn unknown_binding_stays_a_reference() {
    let doc = doc_with(Vec::new(), None);
    let value = Value::Reference(Reference::Binding("ghost".into()));
    let mut stack = Vec::new();
    let resolved = resolve_references(&value, &doc, &mut stack).unwrap();
    assert_eq!(resolved, value);
    assert!(stack.is_empty());
}

#[test]
fn sequence_without_element_type_roundtrip() {
    let value = Value::Sequence(Sequence {
        elem_type: None,
        items: vec![Value::Scalar(Scalar::Str("x".into()))],
    });
    let doc = doc_with(Vec::new(), Some(value));
    let encoded = encode_document(&doc, options()).unwrap();
    let decoded = decode_document(&encoded).unwrap();
    assert_eq!(decoded.document.root, doc.root);
}

use surp_core::decoder::Decoder;
use surp_core::encoder::Encoder;
use surp_core::value::Value;

fn record() -> Value {
    Value::Object(vec![
        ("id".into(), Value::UInt(12345)),
        ("msg".into(), Value::Str("test message".into())),
        ("ok".into(), Value::Bool(true)),
    ])
}

fn owned_roundtrip(val: &Value, dedup: bool) -> Value {
    let mut enc = Encoder::new();
    if dedup {
        enc.enable_dedup();
    }
    enc.encode_value(val).unwrap();
    let bytes = enc.finish().unwrap();
    let mut dec = Decoder::new(&bytes);
    dec.decode_next_owned().unwrap()
}

#[test]
fn sustained_throughput_100k_encodes() {
    let val = record();
    for _ in 0..100_000 {
        let mut enc = Encoder::new();
        enc.encode_value(&val).unwrap();
        let bytes = enc.finish().unwrap();
        assert!(bytes.len() > 8);
    }
}

#[test]
fn sustained_throughput_100k_decodes() {
    let val = record();
    let mut enc = Encoder::new();
    enc.encode_value(&val).unwrap();
    let bytes = enc.finish().unwrap();

    for _ in 0..100_000 {
        let mut dec = Decoder::new(&bytes);
        let decoded = dec.decode_next_owned().unwrap();
        assert_eq!(decoded, val);
    }
}

#[test]
fn large_array_10k_items() {
    let items: Vec<Value> = (0..10_000).map(|i| Value::Str(format!("item-{i:06}"))).collect();
    let val = Value::Array(items);
    assert_eq!(owned_roundtrip(&val, false), val);
}

#[test]
fn large_object_1k_fields() {
    let entries: Vec<(String, Value)> = (0..1000).map(|i| (format!("field_{i:04}"), Value::UInt(i))).collect();
    let val = Value::Object(entries);
    assert_eq!(owned_roundtrip(&val, false), val);
}

#[test]
fn large_string_1mb() {
    let val = Value::Str("A".repeat(1024 * 1024));
    assert_eq!(owned_roundtrip(&val, false), val);
}

#[test]
fn large_binary_5mb() {
    let val = Value::Bytes(vec![0xCD; 5 * 1024 * 1024]);
    assert_eq!(owned_roundtrip(&val, false), val);
}

#[test]
fn mixed_payload_sizes() {
    let values = vec![
        Value::Null,
        Value::Bool(true),
        Value::UInt(42),
        Value::Str("short".into()),
        Value::Str("a".repeat(1000)),
        Value::Bytes(vec![0xAB; 10_000]),
        Value::Array((0..1000).map(|_| Value::UInt(1)).collect()),
        Value::Object((0..100).map(|i| (format!("k{i}"), Value::Str(format!("v{i}")))).collect()),
    ];

    let mut enc = Encoder::new();
    for v in &values {
        enc.encode_value(v).unwrap();
    }
    let bytes = enc.finish().unwrap();

    let mut dec = Decoder::new(&bytes);
    let decoded = dec.decode_all_owned().unwrap();
    assert_eq!(decoded.len(), values.len());
    for (original, decoded) in values.iter().zip(decoded.iter()) {
        assert_eq!(decoded, original);
    }
}

#[test]
fn dedup_with_many_unique_strings() {
    let items: Vec<Value> = (0..1000).map(|i| Value::Str(format!("unique_string_number_{i:06}"))).collect();
    let val = Value::Array(items);
    assert_eq!(owned_roundtrip(&val, true), val);
}

#[test]
fn dedup_with_all_identical_strings() {
    let items: Vec<Value> = (0..500).map(|_| Value::Str("identical".into())).collect();
    let val = Value::Array(items);

    let mut enc_dedup = Encoder::new();
    enc_dedup.enable_dedup();
    enc_dedup.encode_value(&val).unwrap();
    let bytes_dedup = enc_dedup.finish().unwrap();

    let mut enc_plain = Encoder::new();
    enc_plain.encode_value(&val).unwrap();
    let bytes_plain = enc_plain.finish().unwrap();

    assert!(bytes_dedup.len() < bytes_plain.len() / 2, "dedup={} plain={}", bytes_dedup.len(), bytes_plain.len());

    let mut dec = Decoder::new(&bytes_dedup);
    let decoded = dec.decode_next_owned().unwrap();
    assert_eq!(decoded, val);
}

#[test]
fn dedup_empty_strings() {
    let items: Vec<Value> = (0..10).map(|_| Value::Str(String::new())).collect();
    let val = Value::Array(items);
    assert_eq!(owned_roundtrip(&val, true), val);
}

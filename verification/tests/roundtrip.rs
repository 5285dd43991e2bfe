use surp_core::decoder::Decoder;
use surp_core::encoder::Encoder;
use surp_core::error::SurpError;
use surp_core::value::{SurpValue, Value};
use surp_core::wire::CompressionType;

fn sample_values() -> Vec<Value> {
    vec![
        Value::Null,
        Value::Bool(true),
        Value::Bool(false),
        Value::UInt(0),
        Value::UInt(u64::MAX),
        Value::Int(-1),
        Value::Int(i64::MIN),
        Value::Float(1.5f64.to_bits()),
        Value::Str("hello".into()),
        Value::Str("ünïcödé ✓".into()),
        Value::Bytes(vec![0, 1, 2, 255]),
        Value::Array(vec![Value::UInt(1), Value::Str("x".into()), Value::Array(vec![])]),
        Value::Object(vec![
            ("name".into(), Value::Str("Alice".into())),
            ("age".into(), Value::UInt(30)),
            ("tags".into(), Value::Array(vec![Value::Str("a".into()), Value::Str("b".into())])),
        ]),
    ]
}

fn encode_all(values: &[Value], compression: CompressionType, dedup: bool) -> Vec<u8> {
    let mut enc = Encoder::new();
    enc.set_compression(compression);
    if dedup {
        enc.enable_dedup();
    }
    for v in values {
        enc.encode_value(v).unwrap();
    }
    enc.finish().unwrap()
}

#[test]
fn roundtrip_owned_every_kind() {
    let values = sample_values();
    let bytes = encode_all(&values, CompressionType::Uncompressed, false);
    let mut dec = Decoder::new(&bytes);
    assert_eq!(dec.decode_all_owned().unwrap(), values);
}

#[test]
fn roundtrip_zero_copy_every_kind() {
    let values = sample_values();
    let bytes = encode_all(&values, CompressionType::Uncompressed, false);
    let mut dec = Decoder::new(&bytes);
    let got: Vec<Value> = dec.decode_all().unwrap().iter().map(|v| v.to_owned_value()).collect();
    assert_eq!(got, values);
}

#[test]
fn roundtrip_one_value_at_a_time() {
    let mut enc = Encoder::new();
    enc.encode_value(&Value::Str("hello".into())).unwrap();
    let bytes = enc.finish().unwrap();
    let mut dec = Decoder::new(&bytes);
    let val = dec.decode_next().unwrap();
    assert_eq!(val.to_owned_value(), Value::Str("hello".into()));
    assert!(matches!(val, SurpValue::Str("hello")));
    assert!(matches!(dec.decode_next(), Err(SurpError::UnexpectedEof(_))));
}

#[test]
fn roundtrip_compressed_blocks() {
    let mut values = sample_values();
    values.push(Value::Str("repetitive ".repeat(200)));
    for ct in [CompressionType::Zstd, CompressionType::Snappy, CompressionType::Lz4] {
        let bytes = encode_all(&values, ct, false);
        let mut dec = Decoder::new(&bytes);
        assert_eq!(dec.decode_all_owned().unwrap(), values, "compression {ct:?}");
        let mut zc = Decoder::new(&bytes);
        assert!(matches!(zc.decode_next(), Err(SurpError::DecompressionError(_))));
    }
}

#[test]
fn roundtrip_with_string_dedup() {
    let values = vec![
        Value::Str("apple".into()),
        Value::Str("apricot".into()),
        Value::Str("apple".into()),
        Value::Array(vec![Value::Str("banana".into()), Value::Str("apricot".into())]),
    ];
    let bytes = encode_all(&values, CompressionType::Uncompressed, true);
    assert_eq!(bytes[0], 0x04);
    let mut dec = Decoder::new(&bytes);
    assert_eq!(dec.decode_all_owned().unwrap(), values);
}

#[test]
fn dedup_of_strings_sharing_part_of_a_character_is_refused_on_read() {
    // "è" and "é" share their first UTF-8 byte only: the dictionary stores
    // a suffix that is not valid UTF-8 on its own.
    let values = vec![Value::Str("é".into()), Value::Str("è".into())];
    let bytes = encode_all(&values, CompressionType::Uncompressed, true);
    let mut dec = Decoder::new(&bytes);
    assert!(matches!(dec.decode_all_owned(), Err(SurpError::InvalidUtf8(_))));
}

#[test]
fn encoder_exact_bytes() {
    let mut enc = Encoder::new();
    enc.encode_value(&Value::Null).unwrap();
    assert_eq!(enc.block_buffer(), &[0x00]);
    enc.encode_value(&Value::Bool(true)).unwrap();
    enc.encode_value(&Value::Int(-2)).unwrap();
    enc.encode_value(&Value::Str("hi".into())).unwrap();
    enc.encode_value(&Value::Array(vec![Value::UInt(300)])).unwrap();
    enc.encode_value(&Value::Object(vec![("k".into(), Value::Null)])).unwrap();
    assert_eq!(
        enc.block_buffer(),
        &[0x00, 0x01, 0x01, 0x03, 0x03, 0x05, 0x00, 0x02, b'h', b'i', 0x08, 0x01, 0x02, 0xac, 0x02, 0x09, 0x06, 0x01, 0x01, b'k', 0x00, 0x07]
    );
    assert_eq!(enc.current_size(), 22);
    let size = enc.flush_block().unwrap();
    assert_eq!(size, 10 + 22);
    assert_eq!(enc.current_size(), 1 + 1 + 1 + 8 + 22);
    assert_eq!(enc.flush_block().unwrap(), 0);
}

#[test]
fn encoder_refuses_too_deep_and_too_many() {
    let mut v = Value::Null;
    for _ in 0..129 {
        v = Value::Array(vec![v]);
    }
    let mut enc = Encoder::new();
    assert!(matches!(enc.encode_value(&v), Err(SurpError::NestingTooDeep(128, 128))));
    let mut strict = surp_core::limits::Limits::default();
    strict.max_items = 2;
    let mut enc = Encoder::with_limits(strict);
    assert!(matches!(
        enc.encode_value(&Value::Array(vec![Value::Null, Value::Null, Value::Null])),
        Err(SurpError::TooManyItems(3, 2))
    ));
}

#[test]
fn decoder_positions_and_memory() {
    let bytes = encode_all(&[Value::Str("abcd".into())], CompressionType::Uncompressed, false);
    let mut dec = Decoder::new(&bytes);
    assert_eq!(dec.position(), 0);
    dec.decode_next_owned().unwrap();
    assert_eq!(dec.memory_used(), 4);
    assert_eq!(dec.position(), 1 + 1 + 1 + 8 + 7);
}

#[test]
fn skip_value_at_rejects_truncation() {
    let mut dec = Decoder::new(&[0x05, 0x00, 0x05, b'a']);
    assert!(dec.skip_value_at(4).is_err());
}

#[test]
fn value_type_names() {
    assert_eq!(Value::Null.type_label(), "null");
    assert_eq!(Value::Bool(true).type_label(), "bool");
    assert_eq!(Value::UInt(42).type_label(), "uint");
    assert_eq!(Value::Str("hi".into()).type_label(), "str");
}

#[test]
fn surp_value_to_owned() {
    let cv = SurpValue::Object(vec![("name", SurpValue::Str("Alice")), ("age", SurpValue::UInt(30))]);
    let owned = cv.to_owned_value();
    assert_eq!(
        owned,
        Value::Object(vec![("name".into(), Value::Str("Alice".into())), ("age".into(), Value::UInt(30))])
    );
}

fn compressible_value() -> Value {
    let mut items = Vec::new();
    for i in 0..200u64 {
        items.push(Value::Object(vec![
            ("id".into(), Value::UInt(i)),
            ("name".into(), Value::Str("repeated text repeated text".into())),
            ("neg".into(), Value::Int(-(i as i64))),
        ]));
    }
    Value::Array(items)
}

#[test]
fn roundtrip_under_every_compression() {
    for ct in [CompressionType::Uncompressed, CompressionType::Zstd, CompressionType::Snappy, CompressionType::Lz4] {
        let mut enc = Encoder::new();
        enc.set_compression(ct);
        enc.encode_value(&compressible_value()).unwrap();
        enc.encode_value(&Value::Null).unwrap();
        let bytes = enc.finish().unwrap();
        let mut dec = Decoder::new(&bytes);
        assert_eq!(dec.decode_all_owned().unwrap(), vec![compressible_value(), Value::Null]);
        assert_eq!(dec.decode_all_owned().unwrap(), vec![]);
    }
}

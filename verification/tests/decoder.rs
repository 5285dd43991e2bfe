use surp_core::decoder::Decoder;
use surp_core::encoder::Encoder;
use surp_core::limits::Limits;
use surp_core::value::Value;
use surp_core::wire::CompressionType;

/// Encode a value and decode it back.
fn roundtrip(value: &Value) -> Value {
    let mut enc = Encoder::new();
    enc.encode_value(value).unwrap();
    let bytes = enc.finish().unwrap();
    let mut dec = Decoder::new(&bytes);
    dec.decode_next().unwrap().to_owned_value()
}

#[test]
fn roundtrip_null() {
    assert_eq!(roundtrip(&Value::Null), Value::Null);
}

#[test]
fn roundtrip_bool() {
    assert_eq!(roundtrip(&Value::Bool(true)), Value::Bool(true));
    assert_eq!(roundtrip(&Value::Bool(false)), Value::Bool(false));
}

#[test]
fn roundtrip_uint() {
    for &v in &[0u64, 1, 127, 128, 300, 65535, u64::MAX] {
        assert_eq!(roundtrip(&Value::UInt(v)), Value::UInt(v), "uint roundtrip failed for {v}");
    }
}

#[test]
fn roundtrip_int() {
    for &v in &[0i64, 1, -1, 127, -128, 1000, -1000, i64::MAX, i64::MIN] {
        assert_eq!(roundtrip(&Value::Int(v)), Value::Int(v), "int roundtrip failed for {v}");
    }
}

#[test]
fn roundtrip_float() {
    for &v in &[0.0f64, 1.0, -1.0, 3.125, f64::MAX, f64::MIN, f64::INFINITY] {
        assert_eq!(
            roundtrip(&Value::Float(v.to_bits())),
            Value::Float(v.to_bits()),
            "float roundtrip failed for {v}"
        );
    }
}

#[test]
fn roundtrip_string() {
    let long_str = "a".repeat(1000);
    for s in &["", "hello", "こんにちは", long_str.as_str()] {
        assert_eq!(
            roundtrip(&Value::Str(s.to_string())),
            Value::Str(s.to_string()),
            "string roundtrip failed for {s:?}"
        );
    }
}

#[test]
fn roundtrip_bytes() {
    let data = vec![0xDE, 0xAD, 0xBE, 0xEF];
    assert_eq!(roundtrip(&Value::Bytes(data.clone())), Value::Bytes(data));
}

#[test]
fn roundtrip_array() {
    let arr = Value::Array(vec![Value::UInt(1), Value::Str("two".into()), Value::Bool(true), Value::Null]);
    assert_eq!(roundtrip(&arr), arr);
}

#[test]
fn roundtrip_object() {
    let obj = Value::Object(vec![
        ("name".into(), Value::Str("Alice".into())),
        ("age".into(), Value::UInt(30)),
        ("active".into(), Value::Bool(true)),
    ]);
    assert_eq!(roundtrip(&obj), obj);
}

#[test]
fn roundtrip_nested() {
    let val = Value::Object(vec![
        (
            "users".into(),
            Value::Array(vec![Value::Object(vec![
                ("name".into(), Value::Str("Bob".into())),
                ("scores".into(), Value::Array(vec![Value::UInt(100), Value::UInt(95), Value::UInt(87)])),
            ])]),
        ),
        ("count".into(), Value::UInt(1)),
    ]);
    assert_eq!(roundtrip(&val), val);
}

#[test]
fn checksum_verification() {
    let mut enc = Encoder::new();
    enc.encode_value(&Value::UInt(42)).unwrap();
    let mut bytes = enc.finish().unwrap();

    // The stream has no file header: the first block starts at offset 0,
    // and byte 12 lies inside its payload.
    let corrupt_pos = 12;
    if corrupt_pos < bytes.len() {
        bytes[corrupt_pos] ^= 0xFF;
    }

    let mut dec = Decoder::new(&bytes);
    assert!(dec.decode_next().is_err());
}

#[test]
fn decoder_nesting_depth_limit() {
    let limits = Limits { max_nesting_depth: 2, ..Limits::default() };
    let val = Value::Array(vec![Value::Array(vec![Value::Array(vec![])])]);
    let mut enc = Encoder::with_limits(Limits::unlimited());
    enc.encode_value(&val).unwrap();
    let bytes = enc.finish().unwrap();

    let mut dec = Decoder::with_limits(&bytes, limits);
    assert!(dec.decode_next().is_err());
}

#[test]
fn memory_tracking() {
    let big_str = "x".repeat(1000);
    let val = Value::Str(big_str);
    let mut enc = Encoder::new();
    enc.encode_value(&val).unwrap();
    let bytes = enc.finish().unwrap();

    let mut dec = Decoder::new(&bytes);
    let _ = dec.decode_next().unwrap();
    assert!(dec.memory_used() >= 1000, "memory should track string allocation");
}

#[test]
fn memory_limit_enforcement() {
    let big_str = "x".repeat(1000);
    let val = Value::Str(big_str);
    let mut enc = Encoder::new();
    enc.encode_value(&val).unwrap();
    let bytes = enc.finish().unwrap();

    let limits = Limits { max_memory: 500, ..Limits::default() };
    let mut dec = Decoder::with_limits(&bytes, limits);
    assert!(dec.decode_next().is_err(), "should fail when memory limit exceeded");
}

#[test]
fn skip_value_works() {
    let val = Value::Object(vec![
        ("name".into(), Value::Str("Alice".into())),
        ("scores".into(), Value::Array(vec![Value::UInt(1), Value::UInt(2)])),
    ]);
    let mut enc = Encoder::new();
    enc.encode_value(&val).unwrap();
    let bytes = enc.finish().unwrap();

    let mut dec = Decoder::new(&bytes);
    let decoded = dec.decode_next().unwrap().to_owned_value();
    assert_eq!(decoded, val);
}

#[test]
fn string_dedup_roundtrip() {
    let val = Value::Array(vec![
        Value::Str("hello_world_long_string".into()),
        Value::Str("another_reasonably_long_string".into()),
        Value::Str("hello_world_long_string".into()),
        Value::Str("another_reasonably_long_string".into()),
        Value::Str("hello_world_long_string".into()),
        Value::Str("another_reasonably_long_string".into()),
        Value::Str("hello_world_long_string".into()),
        Value::Str("another_reasonably_long_string".into()),
        Value::Str("hello_world_long_string".into()),
        Value::Str("another_reasonably_long_string".into()),
    ]);

    let mut enc = Encoder::new();
    enc.enable_dedup();
    enc.encode_value(&val).unwrap();
    let bytes = enc.finish().unwrap();

    let mut enc_no_dedup = Encoder::new();
    enc_no_dedup.encode_value(&val).unwrap();
    let bytes_no_dedup = enc_no_dedup.finish().unwrap();
    assert!(
        bytes.len() < bytes_no_dedup.len(),
        "dedup ({}) should be smaller than no-dedup ({})",
        bytes.len(),
        bytes_no_dedup.len()
    );

    let mut dec = Decoder::new(&bytes);
    let decoded = dec.decode_next().unwrap().to_owned_value();
    assert_eq!(decoded, val, "dedup roundtrip should produce identical value");
}

#[test]
fn string_dedup_in_object() {
    let val = Value::Object(vec![
        ("greeting".into(), Value::Str("hello".into())),
        ("farewell".into(), Value::Str("goodbye".into())),
        ("echo".into(), Value::Str("hello".into())),
    ]);

    let mut enc = Encoder::new();
    enc.enable_dedup();
    enc.encode_value(&val).unwrap();
    let bytes = enc.finish().unwrap();

    let mut dec = Decoder::new(&bytes);
    let decoded = dec.decode_next().unwrap().to_owned_value();
    assert_eq!(decoded, val, "dedup in object should roundtrip correctly");
}

#[test]
fn lz4_compression_roundtrip() {
    let val = Value::Object(vec![
        ("name".into(), Value::Str("Alice".into())),
        (
            "bio".into(),
            Value::Str("A long string that is repeated many times to test compression effectiveness. ".repeat(20)),
        ),
        ("scores".into(), Value::Array((0..50).map(|_| Value::UInt(100)).collect())),
    ]);
    let mut enc = Encoder::new();
    enc.set_compression(CompressionType::Lz4);
    enc.encode_value(&val).unwrap();
    let bytes = enc.finish().unwrap();

    let mut dec = Decoder::new(&bytes);
    let decoded = dec.decode_all_owned().unwrap();
    assert_eq!(decoded.len(), 1);
    assert_eq!(decoded[0], val);
}

#[test]
fn lz4_zero_copy_errors_cleanly() {
    let val = Value::Str("A".repeat(1000));
    let mut enc = Encoder::new();
    enc.set_compression(CompressionType::Lz4);
    enc.encode_value(&val).unwrap();
    let bytes = enc.finish().unwrap();

    let mut dec = Decoder::new(&bytes);
    assert!(dec.decode_next().is_err(), "zero-copy decode should fail on compressed block");

    let mut dec2 = Decoder::new(&bytes);
    let decoded = dec2.decode_all_owned().unwrap();
    assert_eq!(decoded.len(), 1);
    assert_eq!(decoded[0], val);
}

#[test]
fn decode_next_owned_uncompressed() {
    let val = Value::Object(vec![("x".into(), Value::UInt(10)), ("y".into(), Value::Float(3.15f64.to_bits()))]);
    let mut enc = Encoder::new();
    enc.encode_value(&val).unwrap();
    let bytes = enc.finish().unwrap();

    let mut dec = Decoder::new(&bytes);
    let decoded = dec.decode_next_owned().unwrap();
    assert_eq!(decoded, val);
}

#[test]
fn dedup_owned_roundtrip() {
    let val = Value::Array(vec![
        Value::Str("alpha".into()),
        Value::Str("beta".into()),
        Value::Str("alpha".into()),
        Value::Str("beta".into()),
        Value::Str("gamma".into()),
        Value::Str("alpha".into()),
    ]);
    let mut enc = Encoder::new();
    enc.enable_dedup();
    enc.encode_value(&val).unwrap();
    let bytes = enc.finish().unwrap();

    let mut dec = Decoder::new(&bytes);
    let decoded = dec.decode_next_owned().unwrap();
    assert_eq!(decoded, val, "owned decode should resolve dedup references");
}

#[test]
fn dedup_plus_lz4_roundtrip() {
    let val = Value::Object(vec![
        ("city".into(), Value::Str("Tokyo".into())),
        ("country".into(), Value::Str("Japan".into())),
        ("description".into(), Value::Str("Tokyo is the capital of Japan. ".repeat(30))),
        ("origin".into(), Value::Str("Tokyo".into())),
        ("nation".into(), Value::Str("Japan".into())),
    ]);
    let mut enc = Encoder::new();
    enc.enable_dedup();
    enc.set_compression(CompressionType::Lz4);
    enc.encode_value(&val).unwrap();
    let bytes = enc.finish().unwrap();

    let mut dec = Decoder::new(&bytes);
    let decoded = dec.decode_all_owned().unwrap();
    assert_eq!(decoded.len(), 1);
    assert_eq!(decoded[0], val, "dedup + lz4 should roundtrip correctly");
}

#[test]
fn string_dict_block_roundtrip() {
    let val = Value::Array(vec![
        Value::Str("config_database_host".into()),
        Value::Str("config_database_port".into()),
        Value::Str("config_database_name".into()),
        Value::Str("config_cache_host".into()),
        Value::Str("config_cache_port".into()),
        Value::Str("config_database_host".into()),
        Value::Str("config_database_port".into()),
        Value::Str("config_cache_host".into()),
        Value::Str("config_database_host".into()),
        Value::Str("config_cache_port".into()),
    ]);

    let mut enc = Encoder::new();
    enc.enable_dedup();
    enc.encode_value(&val).unwrap();
    let bytes = enc.finish().unwrap();

    let mut enc_no_dedup = Encoder::new();
    enc_no_dedup.encode_value(&val).unwrap();
    let bytes_no_dedup = enc_no_dedup.finish().unwrap();

    assert!(
        bytes.len() < bytes_no_dedup.len(),
        "dedup with StringDict ({}) should be smaller than no-dedup ({})",
        bytes.len(),
        bytes_no_dedup.len()
    );

    let mut dec = Decoder::new(&bytes);
    let decoded = dec.decode_next().unwrap().to_owned_value();
    assert_eq!(decoded, val, "StringDict block roundtrip should produce identical value");

    let mut dec2 = Decoder::new(&bytes);
    let decoded2 = dec2.decode_next_owned().unwrap();
    assert_eq!(decoded2, val, "StringDict block owned roundtrip should produce identical value");
}

#[test]
fn string_dict_prefix_delta_compression() {
    let shared_prefix_val = Value::Array(vec![
        Value::Str("application_settings_theme".into()),
        Value::Str("application_settings_language".into()),
        Value::Str("application_settings_timezone".into()),
        Value::Str("application_settings_theme".into()),
        Value::Str("application_settings_language".into()),
        Value::Str("application_settings_timezone".into()),
        Value::Str("application_settings_theme".into()),
        Value::Str("application_settings_language".into()),
    ]);

    let mut enc = Encoder::new();
    enc.enable_dedup();
    enc.encode_value(&shared_prefix_val).unwrap();
    let bytes = enc.finish().unwrap();

    let mut dec = Decoder::new(&bytes);
    let decoded = dec.decode_all_owned().unwrap();
    assert_eq!(decoded.len(), 1);
    assert_eq!(decoded[0], shared_prefix_val);
}

#[test]
fn skip_value_at_checks_container_count_against_block_end() {
    let data = [0x08u8, 0x00];
    let mut dec = Decoder::new(&data);
    let r = dec.skip_value_at(1);
    assert!(matches!(r, Err(surp_core::error::SurpError::UnexpectedEof(1))));
    let mut whole = Decoder::new(&data);
    assert!(whole.skip_value_at(2).is_ok());
}

#[test]
fn decode_all_after_trailer_gives_nothing_more() {
    let mut enc = Encoder::new();
    enc.encode_value(&Value::UInt(7)).unwrap();
    enc.encode_value(&Value::Str("x".into())).unwrap();
    let bytes = enc.finish().unwrap();
    let mut dec = Decoder::new(&bytes);
    assert_eq!(dec.decode_all_owned().unwrap().len(), 2);
    assert_eq!(dec.decode_all_owned().unwrap().len(), 0);
    assert_eq!(dec.decode_all().unwrap().len(), 0);
    let mut zc = Decoder::new(&bytes);
    assert_eq!(zc.decode_all().unwrap().len(), 2);
    assert_eq!(zc.decode_all().unwrap().len(), 0);
}

#[test]
fn dedup_dictionary_prefix_splitting_a_character_is_not_read_back() {
    // The dictionary stores each key as the bytes it shares with the key
    // before it (in byte order) and a suffix that must be valid UTF-8 on
    // its own; "è" (C3 A8) and "é" (C3 A9) share one byte of a character.
    let mut enc = Encoder::new();
    enc.enable_dedup();
    let v = Value::Array(vec![Value::Str("é".into()), Value::Str("è".into())]);
    enc.encode_value(&v).unwrap();
    let bytes = enc.finish().unwrap();
    let mut dec = Decoder::new(&bytes);
    assert!(matches!(dec.decode_all_owned(), Err(surp_core::error::SurpError::InvalidUtf8(_))));

    let mut ascii = Encoder::new();
    ascii.enable_dedup();
    ascii.set_compression(CompressionType::Lz4);
    let w = Value::Array(vec![Value::Str("same".into()), Value::Str("same".into()), Value::Str("sam".into())]);
    ascii.encode_value(&w).unwrap();
    let bytes = ascii.finish().unwrap();
    let mut dec = Decoder::new(&bytes);
    assert_eq!(dec.decode_all_owned().unwrap(), vec![w]);
}

#[test]
fn decode_all_on_a_truncated_block_then_again() {
    // A data block announcing 10 payload bytes of which only 2 are present:
    // the first call stops at the missing bytes without error; the second
    // call reads the two bytes left as a block header and fails.
    let mut data = vec![0x01u8, 0x0A, 0x00];
    data.extend_from_slice(&[0u8; 8]);
    data.extend_from_slice(&[0xFE, 0x00]);
    let mut dec = Decoder::new(&data);
    assert_eq!(dec.decode_all().unwrap().len(), 0);
    assert!(matches!(dec.decode_all(), Err(surp_core::error::SurpError::InvalidBlockType(0xFE))));
}

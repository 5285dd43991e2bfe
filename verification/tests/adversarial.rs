use surp_core::decoder::Decoder;
use surp_core::encoder::Encoder;
use surp_core::error::SurpError;
use surp_core::limits::Limits;
use surp_core::value::Value;
use surp_core::varint::{decode_varint, encode_varint_vec, zigzag_decode, zigzag_encode};
use surp_core::checksum::compute_xxh64;
use surp_core::wire::{BlockType, CompressionType, WireType};

#[test]
fn decode_empty_input() {
    let mut dec = Decoder::new(&[]);
    assert!(dec.decode_next().is_err());
    assert!(dec.decode_all_owned().is_ok());
}

#[test]
fn decode_trailer_only() {
    let data = Encoder::new().finish().unwrap();
    let mut dec = Decoder::new(&data);
    let vals = dec.decode_all_owned().unwrap();
    assert!(vals.is_empty());
}

#[test]
fn decode_truncated_block_prefixes() {
    let prefix = [BlockType::Data.to_byte(), 0x01, CompressionType::Uncompressed.to_byte()];
    for len in 0..prefix.len() {
        let data = prefix[..len].to_vec();
        let mut dec = Decoder::new(&data);
        assert!(dec.decode_next().is_err());
    }
}

#[test]
fn decode_invalid_leading_bytes() {
    let data = vec![0xFE];
    let mut dec = Decoder::new(&data);
    assert!(matches!(dec.decode_next(), Err(SurpError::InvalidBlockType(0xFE))));

    let data = b"GARBAGE\x00".to_vec();
    let mut dec = Decoder::new(&data);
    assert!(dec.decode_next().is_err());
}

#[test]
fn decode_every_single_byte_input() {
    for b in 0..=255u8 {
        let data = [b];
        let mut dec = Decoder::new(&data);
        let _ = dec.decode_all_owned();
    }
}

#[test]
fn decode_every_two_byte_input() {
    for hi in 0..=255u8 {
        for lo in [0x00u8, 0x01, 0x7F, 0x80, 0xFF] {
            let data = [hi, lo];
            let mut dec = Decoder::new(&data);
            let _ = dec.decode_all_owned();
        }
    }
}

#[test]
fn decode_invalid_block_type() {
    let mut data = Vec::new();
    data.push(0xFE);
    let mut dec = Decoder::new(&data);
    assert!(matches!(dec.decode_next(), Err(SurpError::InvalidBlockType(0xFE))));
}

#[test]
fn decode_invalid_compression() {
    let mut data = Vec::new();
    data.push(BlockType::Data.to_byte());
    data.push(0x01);
    data.push(0xFE);
    let mut dec = Decoder::new(&data);
    assert!(matches!(dec.decode_next(), Err(SurpError::UnknownCompression(0xFE))));
}

#[test]
fn decode_block_with_wrong_checksum() {
    let mut enc = Encoder::new();
    enc.encode_value(&Value::UInt(42)).unwrap();
    let mut bytes = enc.finish().unwrap();
    let cksum_offset = 1 + 1 + 1;
    bytes[cksum_offset] ^= 0xFF;
    let mut dec = Decoder::new(&bytes);
    assert!(matches!(dec.decode_next(), Err(SurpError::ChecksumMismatch { .. })));
}

#[test]
fn decode_block_payload_shorter_than_declared() {
    let mut data = Vec::new();
    data.push(BlockType::Data.to_byte());
    encode_varint_vec(1000, &mut data);
    data.push(CompressionType::Uncompressed.to_byte());
    data.extend_from_slice(&[0u8; 8]);
    data.extend_from_slice(&[0u8; 10]);
    let mut dec = Decoder::new(&data);
    assert!(dec.decode_next().is_err());
}

#[test]
fn decode_block_header_without_compression_byte() {
    // A data block header cut right after its length: reported, not a panic.
    let data = [BlockType::Data.to_byte(), 0x00];
    let mut dec = Decoder::new(&data);
    assert!(matches!(dec.decode_next(), Err(SurpError::UnexpectedEof(2))));
}

#[test]
fn bomb_deeply_nested_arrays() {
    let mut v = Value::Null;
    for _ in 0..200 {
        v = Value::Array(vec![v]);
    }
    let mut enc = Encoder::with_limits(Limits::unlimited());
    enc.encode_value(&v).unwrap();
    let bytes = enc.finish().unwrap();
    let mut dec = Decoder::new(&bytes);
    assert!(matches!(dec.decode_next(), Err(SurpError::NestingTooDeep(128, 128))));
}

#[test]
fn bomb_huge_declared_string() {
    let mut payload = vec![0x05, 0x00];
    encode_varint_vec(u32::MAX as u64, &mut payload);
    let mut w = surp_core::block::BlockWriter::new(BlockType::Data);
    w.write(&payload);
    let bytes = w.finish();
    let mut dec = Decoder::new(&bytes);
    assert!(matches!(dec.decode_next(), Err(SurpError::StringTooLong(_, _))));
}

#[test]
fn varint_all_powers_of_two() {
    for shift in 0..64u32 {
        let val = 1u64 << shift;
        let mut buf = Vec::new();
        encode_varint_vec(val, &mut buf);
        let (decoded, _) = decode_varint(&buf, 0).unwrap();
        assert_eq!(decoded, val, "power of two {shift}");
    }
}

#[test]
fn varint_boundary_values() {
    let boundaries: Vec<u64> = (0..10)
        .flat_map(|n| {
            let base = 1u64.checked_shl(7 * n).unwrap_or(u64::MAX);
            vec![base.saturating_sub(1), base, base.saturating_add(1)]
        })
        .collect();
    for &val in &boundaries {
        let mut buf = Vec::new();
        encode_varint_vec(val, &mut buf);
        let (decoded, consumed) = decode_varint(&buf, 0).unwrap();
        assert_eq!(decoded, val, "boundary {val}");
        assert!(consumed <= 10, "varint too long for {val}");
    }
}

#[test]
fn varint_10th_byte_overflow() {
    let bad = [0x80, 0x80, 0x80, 0x80, 0x80, 0x80, 0x80, 0x80, 0x80, 0x02];
    assert!(matches!(decode_varint(&bad, 0), Err(SurpError::VarintOverflow)));
}

#[test]
fn varint_10th_byte_exactly_one() {
    let valid = [0xFF, 0xFF, 0xFF, 0xFF, 0xFF, 0xFF, 0xFF, 0xFF, 0xFF, 0x01];
    let (val, consumed) = decode_varint(&valid, 0).unwrap();
    assert_eq!(val, u64::MAX);
    assert_eq!(consumed, 10);
}

#[test]
fn varint_non_canonical_encoding() {
    let non_canonical = [0x80, 0x00];
    let (val, consumed) = decode_varint(&non_canonical, 0).unwrap();
    assert_eq!(val, 0);
    assert_eq!(consumed, 2);
}

#[test]
fn zigzag_all_boundary_values() {
    for &v in &[0i64, 1, -1, 2, -2, 63, -64, 64, -65, i64::MAX, i64::MIN] {
        let encoded = zigzag_encode(v);
        let decoded = zigzag_decode(encoded);
        assert_eq!(decoded, v, "zigzag roundtrip failed for {v}");
    }
}

/// A data block around `payload`, with its checksum, uncompressed.
fn raw_data_block(payload: &[u8]) -> Vec<u8> {
    let mut data = Vec::new();
    let checksum = compute_xxh64(payload);
    data.push(BlockType::Data.to_byte());
    encode_varint_vec(payload.len() as u64, &mut data);
    data.push(CompressionType::Uncompressed.to_byte());
    data.extend_from_slice(&checksum.to_le_bytes());
    data.extend_from_slice(payload);
    data
}

#[test]
fn decode_header_plus_random_garbage() {
    let data: Vec<u8> = Vec::new();
    let empty_block = [BlockType::Data.to_byte(), 0x00, 0x00, 0x00, 0x00, 0x00, 0x00, 0x00, 0x00, 0x00, 0x00];
    for garbage in [&[0xFF][..], &[0x00], &[0x01, 0x80, 0x80, 0x80], &[0x01, 0x05, 0x00], &empty_block[..]] {
        let mut input = data.clone();
        input.extend_from_slice(garbage);
        let mut dec = Decoder::new(&input);
        let _ = dec.decode_all_owned();
    }
}

#[test]
fn bomb_huge_array_count() {
    let mut block_payload = vec![];
    block_payload.push(WireType::StartArray.to_tag());
    encode_varint_vec(1_000_000_000, &mut block_payload);
    let data = raw_data_block(&block_payload);

    let limits = Limits::strict();
    let mut dec = Decoder::with_limits(&data, limits);
    assert!(matches!(dec.decode_next(), Err(SurpError::TooManyItems(..))));
}

#[test]
fn bomb_huge_string_length() {
    let mut block_payload = vec![];
    block_payload.push(WireType::LenDelimited.to_tag());
    block_payload.push(0x00);
    encode_varint_vec(1_000_000_000, &mut block_payload);
    let data = raw_data_block(&block_payload);

    let limits = Limits::strict();
    let mut dec = Decoder::with_limits(&data, limits);
    let result = dec.decode_next_owned();
    assert!(result.is_err());
}

#[test]
fn bomb_memory_limit_with_many_small_strings() {
    let limits = Limits { max_memory: 1024, ..Limits::default() };
    let mut items: Vec<Value> = Vec::new();
    for i in 0..200 {
        items.push(Value::Str(format!("string_{i:04}")));
    }
    let val = Value::Array(items);
    let mut enc = Encoder::new();
    enc.encode_value(&val).unwrap();
    let bytes = enc.finish().unwrap();

    let mut dec = Decoder::with_limits(&bytes, limits);
    let result = dec.decode_all_owned();
    assert!(result.is_err());
}

#[test]
fn bomb_block_size_limit() {
    let limits = Limits { max_block_size: 100, ..Limits::default() };
    let big_str = "x".repeat(200);
    let val = Value::Str(big_str);
    let mut enc = Encoder::new();
    enc.encode_value(&val).unwrap();
    let bytes = enc.finish().unwrap();

    let mut dec = Decoder::with_limits(&bytes, limits);
    assert!(matches!(dec.decode_next(), Err(SurpError::BlockTooLarge(..))));
}

#[test]
fn roundtrip_u64_max() {
    let val = Value::UInt(u64::MAX);
    let mut enc = Encoder::new();
    enc.encode_value(&val).unwrap();
    let bytes = enc.finish().unwrap();
    let mut dec = Decoder::new(&bytes);
    assert_eq!(dec.decode_next().unwrap().to_owned_value(), val);
}

#[test]
fn roundtrip_i64_extremes() {
    for v in [i64::MIN, i64::MAX, 0, -1, 1] {
        let val = Value::Int(v);
        let mut enc = Encoder::new();
        enc.encode_value(&val).unwrap();
        let bytes = enc.finish().unwrap();
        let mut dec = Decoder::new(&bytes);
        assert_eq!(dec.decode_next().unwrap().to_owned_value(), val, "i64 {v}");
    }
}

#[test]
fn roundtrip_special_floats() {
    for &f in &[
        f64::INFINITY,
        f64::NEG_INFINITY,
        0.0,
        -0.0,
        f64::MIN,
        f64::MAX,
        f64::MIN_POSITIVE,
        f64::EPSILON,
    ] {
        let val = Value::Float(f.to_bits());
        let mut enc = Encoder::new();
        enc.encode_value(&val).unwrap();
        let bytes = enc.finish().unwrap();
        let mut dec = Decoder::new(&bytes);
        let decoded = dec.decode_next().unwrap().to_owned_value();
        match (&val, &decoded) {
            (Value::Float(a), Value::Float(b)) => {
                assert_eq!(a, b, "float bits for {f}");
            },
            _ => panic!("type mismatch"),
        }
    }
}

#[test]
fn roundtrip_nan_preserves_bits() {
    let val = Value::Float(f64::NAN.to_bits());
    let mut enc = Encoder::new();
    enc.encode_value(&val).unwrap();
    let bytes = enc.finish().unwrap();
    let mut dec = Decoder::new(&bytes);
    let decoded = dec.decode_next().unwrap().to_owned_value();
    match decoded {
        Value::Float(f) => assert!(f64::from_bits(f).is_nan()),
        _ => panic!("expected float"),
    }
}

#[test]
fn roundtrip_empty_containers() {
    for val in [Value::Array(vec![]), Value::Object(vec![]), Value::Str(String::new()), Value::Bytes(vec![])] {
        let mut enc = Encoder::new();
        enc.encode_value(&val).unwrap();
        let bytes = enc.finish().unwrap();
        let mut dec = Decoder::new(&bytes);
        assert_eq!(dec.decode_next().unwrap().to_owned_value(), val);
    }
}

#[test]
fn roundtrip_empty_key_in_object() {
    let val = Value::Object(vec![("".into(), Value::Null)]);
    let mut enc = Encoder::new();
    enc.encode_value(&val).unwrap();
    let bytes = enc.finish().unwrap();
    let mut dec = Decoder::new(&bytes);
    assert_eq!(dec.decode_next().unwrap().to_owned_value(), val);
}

#[test]
fn roundtrip_unicode_stress() {
    let strings = vec![
        "こんにちは世界",
        "🎉🎊🎈",
        "\u{0000}",
        "\u{FEFF}",
        "𝕳𝖊𝖑𝖑𝖔",
        "\u{202E}RLO override\u{202C}",
        "a\u{0300}",
        "\u{10FFFF}",
    ];
    for s in strings {
        let val = Value::Str(s.to_string());
        let mut enc = Encoder::new();
        enc.encode_value(&val).unwrap();
        let bytes = enc.finish().unwrap();
        let mut dec = Decoder::new(&bytes);
        assert_eq!(dec.decode_next().unwrap().to_owned_value(), val, "unicode roundtrip failed for {:?}", s);
    }
}

#[test]
fn roundtrip_large_binary_blob() {
    let blob = vec![0xABu8; 1024 * 1024];
    let val = Value::Bytes(blob.clone());
    let mut enc = Encoder::new();
    enc.encode_value(&val).unwrap();
    let bytes = enc.finish().unwrap();
    let mut dec = Decoder::new(&bytes);
    assert_eq!(dec.decode_next_owned().unwrap(), val);
}

#[test]
fn roundtrip_1000_values_multi_block_scenario() {
    let mut enc = Encoder::new();
    for i in 0..1000u64 {
        enc.encode_value(&Value::UInt(i)).unwrap();
    }
    let bytes = enc.finish().unwrap();
    let mut dec = Decoder::new(&bytes);
    let vals = dec.decode_all_owned().unwrap();
    assert_eq!(vals.len(), 1000);
    for (i, v) in vals.iter().enumerate() {
        assert_eq!(v, &Value::UInt(i as u64));
    }
}

#[test]
fn encoder_finish_without_encoding() {
    let enc = Encoder::new();
    let bytes = enc.finish().unwrap();
    assert_eq!(bytes[0], BlockType::Trailer.to_byte());
    let mut dec = Decoder::new(&bytes);
    let vals = dec.decode_all_owned().unwrap();
    assert!(vals.is_empty());
}

#[test]
fn encoder_flush_empty_block() {
    let mut enc = Encoder::new();
    let flushed = enc.flush_block().unwrap();
    assert_eq!(flushed, 0);
}

#[test]
fn encoder_multiple_flushes() {
    let mut enc = Encoder::new();
    enc.encode_value(&Value::UInt(1)).unwrap();
    enc.flush_block().unwrap();
    enc.encode_value(&Value::UInt(2)).unwrap();
    enc.flush_block().unwrap();
    enc.encode_value(&Value::UInt(3)).unwrap();
    let bytes = enc.finish().unwrap();

    let mut dec = Decoder::new(&bytes);
    let vals = dec.decode_all_owned().unwrap();
    assert_eq!(vals, vec![Value::UInt(1), Value::UInt(2), Value::UInt(3)]);
}

#[test]
fn encoder_dedup_with_no_strings() {
    let mut enc = Encoder::new();
    enc.enable_dedup();
    enc.encode_value(&Value::UInt(42)).unwrap();
    let bytes = enc.finish().unwrap();
    let mut dec = Decoder::new(&bytes);
    assert_eq!(dec.decode_next_owned().unwrap(), Value::UInt(42));
}

#[test]
fn encoder_dedup_single_string_no_dup() {
    let mut enc = Encoder::new();
    enc.enable_dedup();
    enc.encode_value(&Value::Str("unique".into())).unwrap();
    let bytes = enc.finish().unwrap();
    let mut dec = Decoder::new(&bytes);
    assert_eq!(dec.decode_next_owned().unwrap(), Value::Str("unique".into()));
}

#[test]
fn all_wire_types_zero_copy_roundtrip() {
    let val = Value::Object(vec![
        ("null".into(), Value::Null),
        ("bool_t".into(), Value::Bool(true)),
        ("bool_f".into(), Value::Bool(false)),
        ("uint".into(), Value::UInt(42)),
        ("int".into(), Value::Int(-7)),
        ("float".into(), Value::Float(3.125f64.to_bits())),
        ("str".into(), Value::Str("hello".into())),
        ("bytes".into(), Value::Bytes(vec![1, 2, 3])),
        ("array".into(), Value::Array(vec![Value::UInt(1)])),
        ("nested_obj".into(), Value::Object(vec![("k".into(), Value::Null)])),
    ]);
    let mut enc = Encoder::new();
    enc.encode_value(&val).unwrap();
    let bytes = enc.finish().unwrap();

    let mut dec = Decoder::new(&bytes);
    let zc = dec.decode_next().unwrap().to_owned_value();
    assert_eq!(zc, val);

    let mut dec2 = Decoder::new(&bytes);
    let owned = dec2.decode_next_owned().unwrap();
    assert_eq!(owned, val);
}

#[test]
fn reference_to_nonexistent_dict_entry() {
    let mut block_payload = vec![];
    block_payload.push(WireType::Reference.to_tag());
    encode_varint_vec(999, &mut block_payload);
    let data = raw_data_block(&block_payload);

    let mut dec = Decoder::new(&data);
    let result = dec.decode_next_owned();
    assert!(result.is_err());
    let err = result.unwrap_err();
    assert!(err.message().contains("Invalid reference"), "Expected InvalidReference error, got: {}", err.message());
}

#[test]
fn skip_value_all_types() {
    let val = Value::Object(vec![
        ("null".into(), Value::Null),
        ("bool".into(), Value::Bool(true)),
        ("uint".into(), Value::UInt(u64::MAX)),
        ("int".into(), Value::Int(i64::MIN)),
        ("float".into(), Value::Float(f64::INFINITY.to_bits())),
        ("str".into(), Value::Str("hello world this is a test".into())),
        ("bytes".into(), Value::Bytes(vec![0; 100])),
        ("arr".into(), Value::Array(vec![Value::UInt(1), Value::UInt(2)])),
        ("obj".into(), Value::Object(vec![("k".into(), Value::Null)])),
    ]);
    let mut enc = Encoder::new();
    enc.encode_value(&val).unwrap();
    let bytes = enc.finish().unwrap();

    let mut dec = Decoder::new(&bytes);
    let decoded = dec.decode_next().unwrap().to_owned_value();
    assert_eq!(decoded, val);
}

#[test]
fn encoding_is_deterministic() {
    let val = Value::Object(vec![
        ("z".into(), Value::UInt(1)),
        ("a".into(), Value::UInt(2)),
        ("m".into(), Value::Array(vec![Value::Str("x".into())])),
    ]);

    let mut bytes1 = Vec::new();
    let mut bytes2 = Vec::new();
    for bytes in [&mut bytes1, &mut bytes2] {
        let mut enc = Encoder::new();
        enc.encode_value(&val).unwrap();
        *bytes = enc.finish().unwrap();
    }

    assert_eq!(bytes1, bytes2, "encoding must be deterministic");
}

#[test]
fn dedup_encoding_is_deterministic() {
    let val = Value::Array(vec![Value::Str("hello".into()), Value::Str("world".into()), Value::Str("hello".into())]);

    let mut results = Vec::new();
    for _ in 0..3 {
        let mut enc = Encoder::new();
        enc.enable_dedup();
        enc.encode_value(&val).unwrap();
        results.push(enc.finish().unwrap());
    }
    assert_eq!(results[0], results[1]);
    assert_eq!(results[1], results[2]);
}

#[test]
fn zero_copy_and_owned_produce_same_result() {
    let values = vec![
        Value::Null,
        Value::Bool(true),
        Value::UInt(42),
        Value::Int(-99),
        Value::Float(2.75f64.to_bits()),
        Value::Str("hello".into()),
        Value::Bytes(vec![1, 2, 3]),
        Value::Array(vec![Value::UInt(1), Value::Str("two".into())]),
        Value::Object(vec![("key".into(), Value::Array(vec![Value::Null, Value::Bool(false)]))]),
    ];

    for val in &values {
        let mut enc = Encoder::new();
        enc.encode_value(val).unwrap();
        let bytes = enc.finish().unwrap();

        let mut dec_zc = Decoder::new(&bytes);
        let zc = dec_zc.decode_next().unwrap().to_owned_value();

        let mut dec_own = Decoder::new(&bytes);
        let owned = dec_own.decode_next_owned().unwrap();

        assert_eq!(zc, owned, "zero-copy vs owned mismatch for {:?}", val);
        assert_eq!(zc, *val, "decoded != original for {:?}", val);
    }
}

#[test]
fn multiple_top_level_values() {
    let mut enc = Encoder::new();
    enc.encode_value(&Value::UInt(1)).unwrap();
    enc.encode_value(&Value::Str("two".into())).unwrap();
    enc.encode_value(&Value::Bool(true)).unwrap();
    let bytes = enc.finish().unwrap();

    let mut dec = Decoder::new(&bytes);
    let vals = dec.decode_all_owned().unwrap();
    assert_eq!(vals, vec![Value::UInt(1), Value::Str("two".into()), Value::Bool(true)]);
}

#[test]
fn decode_invalid_utf8_string() {
    let mut block_payload = vec![];
    block_payload.push(WireType::LenDelimited.to_tag());
    block_payload.push(0x00);
    block_payload.push(0x04);
    block_payload.extend_from_slice(&[0xFF, 0xFE, 0x80, 0x81]);
    let data = raw_data_block(&block_payload);

    let mut dec = Decoder::new(&data);
    assert!(matches!(dec.decode_next(), Err(SurpError::InvalidUtf8(..))));

    let mut dec2 = Decoder::new(&data);
    assert!(matches!(dec2.decode_next_owned(), Err(SurpError::InvalidUtf8(..))));
}

#[test]
fn stress_10k_individual_roundtrips() {
    for i in 0..10_000u64 {
        let val = match i % 7 {
            0 => Value::Null,
            1 => Value::Bool(i % 2 == 0),
            2 => Value::UInt(i),
            3 => Value::Int(-(i as i64)),
            4 => Value::Float((i as f64 * 0.001).to_bits()),
            5 => Value::Str(format!("s{i}")),
            6 => Value::Bytes(vec![(i & 0xFF) as u8; (i % 16) as usize]),
            _ => unreachable!(),
        };
        let mut enc = Encoder::new();
        enc.encode_value(&val).unwrap();
        let bytes = enc.finish().unwrap();
        let mut dec = Decoder::new(&bytes);
        let decoded = dec.decode_next_owned().unwrap();
        assert_eq!(decoded, val, "mismatch at i={i}");
    }
}

#[test]
fn decompression_ratio_limit_enforcement() {
    let mut moderate_data = String::new();
    for i in 0..500 {
        moderate_data.push_str(&format!("item_{}_data ", i % 100));
    }
    let val = Value::Str(moderate_data);

    let mut enc = Encoder::new();
    enc.set_compression(CompressionType::Lz4);
    enc.encode_value(&val).unwrap();
    let bytes = enc.finish().unwrap();

    let mut dec = Decoder::new(&bytes);
    assert!(dec.decode_next_owned().is_ok(), "Moderate compression ratio data should decode with default limits");

    let extreme_str = "x".repeat(100_000);
    let extreme_val = Value::Str(extreme_str);

    let mut enc2 = Encoder::new();
    enc2.set_compression(CompressionType::Lz4);
    enc2.encode_value(&extreme_val).unwrap();
    let extreme_bytes = enc2.finish().unwrap();

    let strict_limits = Limits::strict();
    let mut dec2 = Decoder::with_limits(&extreme_bytes, strict_limits);
    let result = dec2.decode_next_owned();
    assert!(result.is_err(), "Extreme compression ratio should fail with strict limits");
    let err_str = result.unwrap_err().message();
    assert!(
        err_str.contains("Decompression ratio") || err_str.contains("exceeds maximum"),
        "Expected decompression ratio error, got: {err_str}"
    );
}

#[test]
fn string_too_long_error() {
    let mut block_payload = vec![];
    block_payload.push(WireType::LenDelimited.to_tag());
    block_payload.push(0x00);
    encode_varint_vec(1_000_000, &mut block_payload);
    block_payload.extend_from_slice(b"short");
    let data = raw_data_block(&block_payload);

    let strict_limits = Limits::strict();
    let mut dec = Decoder::with_limits(&data, strict_limits);
    let result = dec.decode_next_owned();
    assert!(result.is_err());
    let err = result.unwrap_err();
    assert!(
        err.message().contains("String length") || err.message().contains("Unexpected end"),
        "Expected string length or EOF error, got: {}",
        err.message()
    );
}

#[test]
fn length_overflow_handling() {
    let mut block_payload = vec![];
    block_payload.push(WireType::LenDelimited.to_tag());
    block_payload.push(0x00);
    encode_varint_vec(u64::MAX / 2, &mut block_payload);
    let data = raw_data_block(&block_payload);

    let mut dec = Decoder::new(&data);
    let result = dec.decode_next_owned();
    assert!(result.is_err());
}

#[test]
fn invalid_reference_zero_copy() {
    let mut block_payload = vec![];
    block_payload.push(WireType::Reference.to_tag());
    encode_varint_vec(42, &mut block_payload);
    let data = raw_data_block(&block_payload);

    let mut dec = Decoder::new(&data);
    let result = dec.decode_next();
    assert!(result.is_err());
    let err = result.unwrap_err();
    assert!(err.message().contains("Invalid reference"), "Expected InvalidReference error, got: {}", err.message());
}

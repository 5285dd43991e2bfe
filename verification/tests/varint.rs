use surp_core::varint::{
    decode_signed_varint, decode_varint, encode_signed_varint_vec, encode_varint, encode_varint_vec, zigzag_decode,
    zigzag_encode,
};

#[test]
fn zigzag_roundtrip() {
    for &v in &[0i64, 1, -1, 2, -2, 127, -128, i64::MAX, i64::MIN] {
        assert_eq!(zigzag_decode(zigzag_encode(v)), v, "ZigZag roundtrip failed for {v}");
    }
}

#[test]
fn zigzag_known_values() {
    assert_eq!(zigzag_encode(0), 0);
    assert_eq!(zigzag_encode(-1), 1);
    assert_eq!(zigzag_encode(1), 2);
    assert_eq!(zigzag_encode(-2), 3);
    assert_eq!(zigzag_encode(i64::MAX), u64::MAX - 1);
    assert_eq!(zigzag_encode(i64::MIN), u64::MAX);
}

#[test]
fn varint_single_byte() {
    let mut buf = [0u8; 10];
    for v in 0..=127u64 {
        let n = encode_varint(v, &mut buf);
        assert_eq!(n, 1, "values 0–127 should encode in 1 byte, got {n} for {v}");
        assert_eq!(buf[0], v as u8);
        let (decoded, consumed) = decode_varint(&buf[..n], 0).unwrap();
        assert_eq!(decoded, v);
        assert_eq!(consumed, 1);
    }
}

#[test]
fn varint_multi_byte() {
    let test_cases: &[(u64, &[u8])] = &[
        (128, &[0x80, 0x01]),
        (300, &[0xac, 0x02]),
        (16384, &[0x80, 0x80, 0x01]),
        (u64::MAX, &[0xff, 0xff, 0xff, 0xff, 0xff, 0xff, 0xff, 0xff, 0xff, 0x01]),
    ];
    for &(value, expected) in test_cases {
        let mut buf = [0u8; 10];
        let n = encode_varint(value, &mut buf);
        assert_eq!(&buf[..n], expected, "encoding mismatch for {value}");
        let (decoded, consumed) = decode_varint(expected, 0).unwrap();
        assert_eq!(decoded, value, "decode mismatch for {value}");
        assert_eq!(consumed, expected.len());
    }
}

#[test]
fn varint_overflow_detection() {
    let bad = [0x80u8; 11];
    assert!(decode_varint(&bad, 0).is_err());
}

#[test]
fn varint_unexpected_eof() {
    let truncated = [0x80u8];
    assert!(decode_varint(&truncated, 0).is_err());
}

#[test]
fn varint_decode_at_offset() {
    let data = [0xFFu8, 0xac, 0x02, 0x07];
    assert_eq!(decode_varint(&data, 1).unwrap(), (300, 2));
    assert_eq!(decode_varint(&data, 3).unwrap(), (7, 1));
    assert!(decode_varint(&data, 4).is_err());
}

#[test]
fn signed_varint_roundtrip() {
    for &v in &[0i64, 1, -1, 42, -42, 1000, -1000, i64::MAX, i64::MIN] {
        let mut buf = Vec::new();
        encode_signed_varint_vec(v, &mut buf);
        let (decoded, _) = decode_signed_varint(&buf, 0).unwrap();
        assert_eq!(decoded, v, "signed varint roundtrip failed for {v}");
    }
}

#[test]
fn varint_vec_appends() {
    let mut out = vec![9u8];
    encode_varint_vec(300, &mut out);
    assert_eq!(out, vec![9, 0xac, 0x02]);
}

use surp_core::cbf::{
    crc64_ecma, decode_symbol_table, encode_symbol_table, parse_segment_header, write_segment_header, CbfHeader,
    EncodeOptions, SegmentHeader, CBF_HEADER_SIZE, FLAG_HAS_SYMTAB,
};
use surp_core::error::SurpError;

#[test]
fn header_roundtrip() {
    let mut header = CbfHeader::new();
    header.flags |= FLAG_HAS_SYMTAB;
    header.root_offset = 42;
    header.symtab_offset = 0;
    header.alignment = 6;

    let bytes = header.encode();
    let decoded = CbfHeader::decode(&bytes).unwrap();
    assert_eq!(decoded, header);
}

#[test]
fn header_flags_and_layout() {
    let header = CbfHeader::new();
    assert!(header.self_describing());
    assert!(!header.has_symtab());
    assert!(!header.has_index());
    let bytes = header.encode();
    assert_eq!(bytes.len(), CBF_HEADER_SIZE);
    assert_eq!(&bytes[..4], b"SURP");
    assert_eq!(bytes[4], 1);
    assert_eq!(bytes[6], 1);
}

#[test]
fn header_decode_errors() {
    assert!(matches!(CbfHeader::decode(&[0u8; 10]), Err(SurpError::UnexpectedEof(10))));
    let mut bytes = CbfHeader::new().encode();
    bytes[0] = b'X';
    assert!(matches!(CbfHeader::decode(&bytes), Err(SurpError::InvalidMagic)));
    let mut bytes = CbfHeader::new().encode();
    bytes[4] = 2;
    assert!(matches!(CbfHeader::decode(&bytes), Err(SurpError::UnsupportedVersion(2))));
}

#[test]
fn encode_options_default() {
    let o = EncodeOptions::default();
    assert!(o.with_symtab);
    assert_eq!(o.alignment, 0);
}

#[test]
fn segment_header_roundtrip() {
    for &len in &[0usize, 5, 0xFF_FFFE, 0x100_0000, 1 << 40] {
        let mut out = Vec::new();
        write_segment_header(&mut out, 0x4, 0x8, len).unwrap();
        let h = parse_segment_header(&out, 0).unwrap();
        let header_len = if len <= 0xFF_FFFF { 4 } else { 12 };
        assert_eq!(h, SegmentHeader { type_nibble: 0x4, config_nibble: 0x8, payload_len: len, header_len });
        assert_eq!(out.len(), header_len);
    }
}

#[test]
fn segment_header_of_length_ff_ffff_reads_as_extended() {
    let mut out = Vec::new();
    write_segment_header(&mut out, 1, 2, 0xFF_FFFF).unwrap();
    assert_eq!(out, vec![0x12, 0xFF, 0xFF, 0xFF]);
    assert!(matches!(parse_segment_header(&out, 0), Err(SurpError::UnexpectedEof(4))));
}

#[test]
fn segment_header_rejects_wide_nibbles() {
    let mut out = Vec::new();
    match write_segment_header(&mut out, 0x10, 0, 1) {
        Err(SurpError::InvalidData(m)) => assert_eq!(m, "invalid segment header nibble"),
        other => panic!("unexpected {other:?}"),
    }
    assert!(out.is_empty());
    assert!(matches!(parse_segment_header(&[1, 2], 0), Err(SurpError::UnexpectedEof(0))));
}

#[test]
fn symbol_table_roundtrip() {
    let syms = vec!["alpha".to_string(), String::new(), "ünïcode".to_string()];
    let bytes = encode_symbol_table(&syms);
    assert_eq!(&bytes[..4], &[3, 0, 0, 0]);
    assert_eq!(decode_symbol_table(&bytes, 0).unwrap(), syms);
    let mut shifted = vec![0xAA, 0xBB];
    shifted.extend_from_slice(&bytes);
    assert_eq!(decode_symbol_table(&shifted, 2).unwrap(), syms);
}

#[test]
fn symbol_table_errors() {
    assert!(matches!(decode_symbol_table(&[1, 0], 0), Err(SurpError::UnexpectedEof(0))));
    assert!(matches!(decode_symbol_table(&[1, 0, 0, 0, 5, b'a'], 0), Err(SurpError::UnexpectedEof(10))));
    assert!(matches!(decode_symbol_table(&[1, 0, 0, 0, 1, 0xFF], 0), Err(SurpError::InvalidUtf8(5))));
}

#[test]
fn crc64_check_value() {
    assert_eq!(crc64_ecma(b""), 0);
    assert_eq!(crc64_ecma(b"123456789"), 0x6C40DF5F0B497347);
}

use surp_core::block::{inspect, BlockReader, BlockWriter};
use surp_core::encoder::Encoder;
use surp_core::error::SurpError;
use surp_core::value::Value;
use surp_core::wire::{BlockType, CompressionType};

#[test]
fn block_roundtrip() {
    let mut writer = BlockWriter::new(BlockType::Data);
    writer.write(b"hello world");
    let bytes = writer.finish();

    let (reader, consumed) = BlockReader::parse(&bytes, 0).unwrap();
    assert_eq!(consumed, bytes.len());
    assert_eq!(reader.block_type, BlockType::Data);
    assert_eq!(reader.compression, CompressionType::Uncompressed);
    assert_eq!(reader.payload, b"hello world");
    assert!(reader.verify_checksum());
}

#[test]
fn block_checksum_failure() {
    let mut writer = BlockWriter::new(BlockType::Data);
    writer.write(b"test data");
    let mut bytes = writer.finish();
    let last = bytes.len() - 1;
    bytes[last] ^= 0xFF;
    let (reader, _) = BlockReader::parse(&bytes, 0).unwrap();
    assert!(!reader.verify_checksum());
}

#[test]
fn parse_with_limit_rejects_oversized_declared_block_len() {
    let mut writer = BlockWriter::new(BlockType::Data);
    writer.write(b"hello world");
    let bytes = writer.finish();

    let (reader, _) = BlockReader::parse(&bytes, 0).unwrap();
    assert_eq!(reader.payload, b"hello world");

    let err = BlockReader::parse_with_limit(&bytes, 0, 4).unwrap_err();
    assert!(matches!(err, SurpError::BlockTooLarge(_, 4)));

    let (reader, consumed) = BlockReader::parse_with_limit(&bytes, 0, 4096).unwrap();
    assert_eq!(consumed, bytes.len());
    assert_eq!(reader.payload, b"hello world");
}

#[test]
fn block_writer_exact_bytes() {
    let mut writer = BlockWriter::new(BlockType::Index);
    writer.set_compression(CompressionType::Lz4);
    writer.write(b"ab");
    writer.payload_mut().push(b'c');
    assert_eq!(writer.payload_len(), 3);
    let bytes = writer.finish();
    assert_eq!(bytes[0], 0x02);
    assert_eq!(bytes[1], 3);
    assert_eq!(bytes[2], 0x03);
    assert_eq!(&bytes[3..11], &surp_core::checksum::compute_xxh64(b"abc").to_le_bytes());
    assert_eq!(&bytes[11..], b"abc");
}

#[test]
fn inspect_walks_blocks_and_validates_trailer() {
    let mut encoder = Encoder::new();
    encoder.encode_value(&Value::Object(vec![("hello".into(), Value::UInt(42))])).unwrap();
    let bytes = encoder.finish().unwrap();

    let report = inspect(&bytes).unwrap();
    assert_eq!(report.file_size, bytes.len());
    assert!(!report.blocks.is_empty());
    assert_eq!(report.blocks[0].block_type, BlockType::Data);
    assert_eq!(report.blocks[0].compression, CompressionType::Uncompressed);
    assert_eq!(report.blocks[0].payload_checksum_valid, Some(true));

    let trailer = report.trailer.expect("trailer must exist");
    assert!(trailer.payload_checksum_valid);
    assert!(trailer.file_checksum_valid);
}

#[test]
fn inspect_reports_corrupt_block_cleanly() {
    let mut writer = BlockWriter::new(BlockType::Data);
    writer.write(b"hello world");
    let mut bytes = writer.finish();
    bytes.truncate(3);

    let err = inspect(&bytes).unwrap_err();
    assert!(err.message().contains("failed to parse block #0"));
}

#[test]
fn block_types() {
    for bt in [BlockType::Data, BlockType::Index, BlockType::Schema, BlockType::StringDict] {
        let writer = BlockWriter::new(bt);
        let bytes = writer.finish();
        let (reader, _) = BlockReader::parse(&bytes, 0).unwrap();
        assert_eq!(reader.block_type, bt);
    }
}

#[test]
fn error_messages() {
    assert_eq!(SurpError::UnexpectedEof(12).message(), "Unexpected end of input at offset 12");
    assert_eq!(SurpError::InvalidWireType(0x0b).message(), "Invalid wire type tag: 0x0b");
    assert_eq!(
        SurpError::ChecksumMismatch { expected: 1, actual: 255 }.message(),
        "Checksum mismatch: expected 0x0000000000000001, got 0x00000000000000ff"
    );
    assert_eq!(SurpError::NestingTooDeep(129, 128).message(), "Nesting depth 129 exceeds maximum 128");
}

#[test]
fn analyze_blocks_detects_valid_trailer() {
    let mut encoder = surp_core::encoder::Encoder::new();
    encoder
        .encode_value(&surp_core::value::Value::Object(vec![("hello".into(), surp_core::value::Value::UInt(42))]))
        .expect("encode should succeed");
    let bytes = encoder.finish().expect("finish should succeed");

    let report = surp_core::block::inspect(&bytes).expect("analyze should succeed");
    assert!(!report.blocks.is_empty());
    let trailer = report.trailer.expect("trailer must exist");
    assert!(trailer.payload_checksum_valid);
    assert!(trailer.file_checksum_valid);
}

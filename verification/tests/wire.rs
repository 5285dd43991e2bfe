use surp_core::wire::flags;
use surp_core::wire::{BlockType, CompressionType, WireType};

#[test]
fn wire_type_roundtrip() {
    for tag in 0x00..=0x0Au8 {
        let wt = WireType::from_tag(tag).unwrap();
        assert_eq!(wt.to_tag(), tag);
    }
}

#[test]
fn unknown_wire_type() {
    assert!(WireType::from_tag(0x0B).is_none());
    assert!(WireType::from_tag(0x0F).is_none());
}

#[test]
fn tag_with_flags() {
    let tag = WireType::VarUInt.to_tag_with_flags(flags::STRING_DICT_REF);
    assert_eq!(tag, 0x12);
    assert_eq!(WireType::from_tag(tag), Some(WireType::VarUInt));
    assert_eq!(tag >> 4, flags::STRING_DICT_REF);
}

#[test]
fn compression_and_block_bytes_roundtrip() {
    for c in [CompressionType::Uncompressed, CompressionType::Zstd, CompressionType::Snappy, CompressionType::Lz4] {
        assert_eq!(CompressionType::from_byte(c.to_byte()), Some(c));
    }
    for b in [BlockType::Data, BlockType::Index, BlockType::Schema, BlockType::StringDict, BlockType::Trailer] {
        assert_eq!(BlockType::from_byte(b.to_byte()), Some(b));
    }
    assert_eq!(BlockType::Data.to_byte(), 0x01);
    assert_eq!(BlockType::Trailer.to_byte(), 0xFF);
    assert_eq!(CompressionType::from_byte(0x04), None);
    assert_eq!(BlockType::from_byte(0x00), None);
}

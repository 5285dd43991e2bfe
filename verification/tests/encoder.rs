use surp_core::block::BlockReader;
use surp_core::decoder::Decoder;
use surp_core::encoder::Encoder;
use surp_core::limits::Limits;
use surp_core::value::Value;
use surp_core::wire::{BlockType, CompressionType};

#[test]
fn encode_null() {
    let mut enc = Encoder::new();
    enc.encode_value(&Value::Null).unwrap();
    assert_eq!(enc.block_buffer(), &[0x00]);
}

#[test]
fn encode_bool() {
    let mut enc = Encoder::new();
    enc.encode_value(&Value::Bool(true)).unwrap();
    assert_eq!(enc.block_buffer(), &[0x01, 0x01]);
    let mut enc = Encoder::new();
    enc.encode_value(&Value::Bool(false)).unwrap();
    assert_eq!(enc.block_buffer(), &[0x01, 0x00]);
}

#[test]
fn encode_uint_small() {
    let mut enc = Encoder::new();
    enc.encode_value(&Value::UInt(42)).unwrap();
    assert_eq!(enc.block_buffer(), &[0x02, 42]);
}

#[test]
fn encode_uint_large() {
    let mut enc = Encoder::new();
    enc.encode_value(&Value::UInt(300)).unwrap();
    assert_eq!(enc.block_buffer(), &[0x02, 0xac, 0x02]);
}

#[test]
fn encode_int_negative() {
    let mut enc = Encoder::new();
    enc.encode_value(&Value::Int(-1)).unwrap();
    assert_eq!(enc.block_buffer(), &[0x03, 0x01]);
}

#[test]
fn encode_float() {
    let mut enc = Encoder::new();
    enc.encode_value(&Value::Float(3.125f64.to_bits())).unwrap();
    let mut expected = vec![0x04];
    expected.extend_from_slice(&3.125f64.to_le_bytes());
    assert_eq!(enc.block_buffer(), &expected[..]);
}

#[test]
fn encode_string() {
    let mut enc = Encoder::new();
    enc.encode_value(&Value::Str("hello".into())).unwrap();
    let mut expected = vec![0x05, 0x00, 5];
    expected.extend_from_slice(b"hello");
    assert_eq!(enc.block_buffer(), &expected[..]);
}

#[test]
fn encode_bytes() {
    let mut enc = Encoder::new();
    enc.encode_value(&Value::Bytes(vec![0xDE, 0xAD])).unwrap();
    assert_eq!(enc.block_buffer(), &[0x05, 0x01, 2, 0xDE, 0xAD]);
}

#[test]
fn encode_array() {
    let mut enc = Encoder::new();
    let arr = Value::Array(vec![Value::UInt(1), Value::UInt(2)]);
    enc.encode_value(&arr).unwrap();
    assert_eq!(enc.block_buffer(), &[0x08, 0x02, 0x02, 0x01, 0x02, 0x02, 0x09]);
}

#[test]
fn encode_object() {
    let mut enc = Encoder::new();
    let obj = Value::Object(vec![("x".into(), Value::UInt(10))]);
    enc.encode_value(&obj).unwrap();
    assert_eq!(enc.block_buffer(), &[0x06, 0x01, 0x01, b'x', 0x02, 0x0a, 0x07]);
}

#[test]
fn finish_produces_valid_file() {
    let mut enc = Encoder::new();
    enc.encode_value(&Value::Null).unwrap();
    let bytes = enc.finish().unwrap();
    assert_eq!(bytes[0], BlockType::Data.to_byte());
    // The trailer block is 19 bytes: type, varint length, compression,
    // checksum (8) and payload (8).
    assert_eq!(bytes[bytes.len() - 19], BlockType::Trailer.to_byte());
}

#[test]
fn encoder_nesting_depth_limit() {
    let mut enc = Encoder::with_limits(Limits { max_nesting_depth: 2, ..Limits::default() });
    let val = Value::Array(vec![Value::Array(vec![Value::Array(vec![])])]);
    assert!(enc.encode_value(&val).is_err());
}

#[test]
fn compression_ratio_guard_falls_back_to_uncompressed() {
    let mut enc = Encoder::new();
    enc.set_compression(CompressionType::Lz4);
    enc.encode_value(&Value::Str("A".repeat(20_000))).unwrap();
    let bytes = enc.finish().unwrap();

    let (block, _) = BlockReader::parse(&bytes, 0).expect("data block should parse");
    assert_eq!(block.block_type, BlockType::Data);
    assert_eq!(block.compression, CompressionType::Uncompressed);

    let mut dec = Decoder::new(&bytes);
    let values = dec.decode_all_owned().expect("decode should succeed");
    assert_eq!(values.len(), 1);
}

#[test]
fn block_buffer_after_flush_is_empty() {
    let mut enc = Encoder::new();
    enc.encode_value(&Value::UInt(7)).unwrap();
    assert_eq!(enc.current_size(), 2);
    let n = enc.flush_block().unwrap();
    // Ten bytes of block framing are counted, plus the payload.
    assert_eq!(n, 12);
    assert!(enc.block_buffer().is_empty());
}

#[test]
fn size_hint_encoder_matches_default_encoder() {
    let value = Value::Object(vec![("k".into(), Value::Str("v".into()))]);
    let mut a = Encoder::with_size_hint(10_000);
    a.encode_value(&value).unwrap();
    let mut b = Encoder::new();
    b.encode_value(&value).unwrap();
    assert_eq!(a.finish().unwrap(), b.finish().unwrap());
}

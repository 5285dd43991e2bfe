use surp_core::compression::{
    BuiltinCompressor, Compressor, CompressorRegistry, Lz4Compressor, NoCompression, SnappyCompressor, ZstdCompressor,
};
use surp_core::error::SurpError;
use surp_core::wire::CompressionType;

#[test]
fn no_compression_roundtrip() {
    let comp = NoCompression;
    let data = b"hello world, this is a test";
    let compressed = comp.compress(data).unwrap();
    let decompressed = comp.decompress(&compressed, 1024).unwrap();
    assert_eq!(&decompressed, data);
}

#[test]
fn registry_find() {
    let reg = CompressorRegistry::new();
    assert!(reg.find(CompressionType::Uncompressed).is_some());
    assert!(reg.find(CompressionType::Zstd).is_none());
}

#[test]
fn registry_with_defaults_finds_each() {
    let reg = CompressorRegistry::with_defaults();
    for ct in [CompressionType::Uncompressed, CompressionType::Zstd, CompressionType::Lz4, CompressionType::Snappy] {
        let c = reg.find(ct).unwrap();
        assert_eq!(c.compression_type(), ct);
    }
    assert_eq!(reg.find(CompressionType::Lz4).unwrap().name(), "lz4");
}

#[test]
fn registry_register_appends() {
    let mut reg = CompressorRegistry::new();
    assert!(reg.find(CompressionType::Snappy).is_none());
    reg.register(BuiltinCompressor::Snappy(SnappyCompressor));
    assert_eq!(reg.find(CompressionType::Snappy).unwrap().name(), "snappy");
}

#[test]
fn builtin_compressors_roundtrip() {
    let data: Vec<u8> = b"abcabcabcabcabcabcabcabcabcabcabcabc hello hello hello".to_vec();
    let comps: Vec<Box<dyn Compressor>> = vec![
        Box::new(ZstdCompressor::default()),
        Box::new(SnappyCompressor),
        Box::new(Lz4Compressor),
    ];
    for c in comps {
        let packed = c.compress(&data).unwrap();
        assert_ne!(packed, data);
        let unpacked = c.decompress(&packed, 1 << 20).unwrap();
        assert_eq!(unpacked, data, "roundtrip through {}", c.name());
    }
}

#[test]
fn lz4_rejects_short_input_and_oversized_output() {
    let c = Lz4Compressor;
    match c.decompress(&[1, 2, 3], 100) {
        Err(SurpError::DecompressionError(m)) => assert_eq!(m, "lz4: input too short for size prefix"),
        other => panic!("unexpected {other:?}"),
    }
    let packed = c.compress(&[7u8; 100]).unwrap();
    assert!(matches!(c.decompress(&packed, 10), Err(SurpError::MemoryLimitExceeded(100, 10))));
}

#[test]
fn snappy_rejects_oversized_output() {
    let c = SnappyCompressor;
    let packed = c.compress(&[7u8; 100]).unwrap();
    assert!(matches!(c.decompress(&packed, 10), Err(SurpError::MemoryLimitExceeded(100, 10))));
}

#[test]
fn zstd_decompress_error_is_prefixed() {
    let c = ZstdCompressor { level: 3 };
    match c.decompress(b"not zstd at all", 100) {
        Err(SurpError::DecompressionError(m)) => assert!(m.starts_with("zstd decompress: ")),
        other => panic!("unexpected {other:?}"),
    }
}

#[test]
fn builtin_compressor_dispatches_to_its_variant() {
    let data = b"builtin builtin builtin builtin builtin".to_vec();
    let all = vec![
        (BuiltinCompressor::Passthrough(NoCompression), "none"),
        (BuiltinCompressor::Zstd(ZstdCompressor { level: 3 }), "zstd"),
        (BuiltinCompressor::Lz4(Lz4Compressor), "lz4"),
        (BuiltinCompressor::Snappy(SnappyCompressor), "snappy"),
    ];
    for (c, name) in &all {
        assert_eq!(c.name(), *name);
        let packed = c.compress(&data).unwrap();
        assert_eq!(c.decompress(&packed, 1 << 20).unwrap(), data);
    }
    let plain = BuiltinCompressor::Passthrough(NoCompression).compress(&data).unwrap();
    assert_eq!(plain, data);
    let lz = BuiltinCompressor::Lz4(Lz4Compressor).compress(&data).unwrap();
    assert_eq!(&lz[..4], &(data.len() as u32).to_le_bytes()[..]);
    assert!(BuiltinCompressor::Lz4(Lz4Compressor).decompress(&[1, 2], 10).is_err());
}

#[test]
fn no_compression_respects_max_output() {
    let data = [1u8, 2, 3, 4, 5];
    assert_eq!(NoCompression.decompress(&data, 5).unwrap(), data.to_vec());
    match NoCompression.decompress(&data, 4) {
        Err(SurpError::MemoryLimitExceeded(5, 4)) => {}
        other => panic!("unexpected {:?}", other),
    }
}

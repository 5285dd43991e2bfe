use surp_core::checksum::{compute_crc32, compute_xxh3, compute_xxh64, verify_crc32, verify_xxh3, verify_xxh64, ChecksumAlgo};

#[test]
fn checksum_deterministic() {
    let data = b"The quick brown fox jumps over the lazy dog";
    assert_eq!(compute_xxh64(data), compute_xxh64(data));
}

#[test]
fn checksum_differs_for_different_data() {
    assert_ne!(compute_xxh64(b"aaa"), compute_xxh64(b"aab"));
}

#[test]
fn checksum_known_values() {
    // XXH64 of the empty input with seed 0, and CRC-32 of "123456789".
    assert_eq!(compute_xxh64(b""), 0xEF46DB3751D8E999);
    assert_eq!(compute_crc32(b"123456789"), 0xCBF43926);
}

#[test]
fn verify_works() {
    let data = b"test data";
    let hash = compute_xxh64(data);
    assert!(verify_xxh64(data, hash));
    assert!(!verify_xxh64(data, hash.wrapping_add(1)));
    let h3 = compute_xxh3(data);
    assert!(verify_xxh3(data, h3));
    assert!(!verify_xxh3(data, h3 ^ 1));
    let c = compute_crc32(data);
    assert!(verify_crc32(data, c));
    assert!(c <= u32::MAX as u64);
}

#[test]
fn algo_api() {
    let data = b"checksum algo test";
    let algo = ChecksumAlgo::Xxh64;
    let hash = algo.compute(data);
    assert!(algo.verify(data, hash));
    assert!(!algo.verify(data, hash ^ 1));
}

#[test]
fn default_algo_works() {
    let data = b"default algo";
    let algo = ChecksumAlgo::default_algo();
    let hash = algo.compute(data);
    assert!(algo.verify(data, hash));
}

#[test]
fn algo_compute_matches_functions() {
    let data = b"abc";
    assert_eq!(ChecksumAlgo::Xxh64.compute(data), compute_xxh64(data));
    assert_eq!(ChecksumAlgo::Xxh3.compute(data), compute_xxh3(data));
    assert_eq!(ChecksumAlgo::Crc32.compute(data), compute_crc32(data));
}

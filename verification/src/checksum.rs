//! Checksum utilities for Surp block integrity.
//!
//! Blocks carry an XXH64 checksum (seed 0) of their payload. XXH3-64 and
//! CRC32 (zero-extended to 64 bits) are offered as alternative algorithms.
//! The hash functions themselves come from the `xxhash-rust` and
//! `crc32fast` crates; this module fixes how they are applied.

use vstd::prelude::*;

verus! {

/// The XXH64 hash of `data` under `seed`, as `xxhash_rust::xxh64::xxh64`
/// computes it.
pub uninterp spec fn xxh64_of(data: Seq<u8>, seed: u64) -> u64;

/// The XXH3-64 hash of `data` (default secret, seed 0), as
/// `xxhash_rust::xxh3::xxh3_64` computes it.
pub uninterp spec fn xxh3_64_of(data: Seq<u8>) -> u64;

/// The CRC-32 (IEEE) checksum of `data`, as `crc32fast::hash` computes it.
pub uninterp spec fn crc32_of(data: Seq<u8>) -> u32;

/// Calls `xxhash_rust::xxh64::xxh64(data, seed)`. The hash is a pure
/// function of the bytes and the seed; its value is given the name
/// `xxh64_of` and nothing else is claimed of it.
#[verifier::external_body]
fn xxh64_call(data: &[u8], seed: u64) -> (r: u64)
    ensures
        r == xxh64_of(data@, seed),
{
    xxhash_rust::xxh64::xxh64(data, seed)
}

/// Calls `xxhash_rust::xxh3::xxh3_64(data)`. Its value is named
/// `xxh3_64_of`; nothing else is claimed of it.
#[verifier::external_body]
fn xxh3_call(data: &[u8]) -> (r: u64)
    ensures
        r == xxh3_64_of(data@),
{
    xxhash_rust::xxh3::xxh3_64(data)
}

/// Calls `crc32fast::hash(data)`. Its value is named `crc32_of`; nothing
/// else is claimed of it.
#[verifier::external_body]
fn crc32_call(data: &[u8]) -> (r: u32)
    ensures
        r == crc32_of(data@),
{
    crc32fast::hash(data)
}

/// The block checksum of `data`: XXH64 with seed 0.
pub open spec fn spec_xxh64(data: Seq<u8>) -> u64 {
    xxh64_of(data, 0)
}

/// Compute an XXH64 checksum of the given data with seed 0.
pub fn compute_xxh64(data: &[u8]) -> (r: u64)
    ensures
        r == spec_xxh64(data@),
{
    xxh64_call(data, 0)
}

/// Verify that the XXH64 checksum of `data` matches `expected`.
pub fn verify_xxh64(data: &[u8], expected: u64) -> (r: bool)
    ensures
        r == (spec_xxh64(data@) == expected),
{
    compute_xxh64(data) == expected
}

/// Compute an XXH3-64 checksum of the given data.
pub fn compute_xxh3(data: &[u8]) -> (r: u64)
    ensures
        r == xxh3_64_of(data@),
{
    xxh3_call(data)
}

/// Verify an XXH3-64 checksum.
pub fn verify_xxh3(data: &[u8], expected: u64) -> (r: bool)
    ensures
        r == (xxh3_64_of(data@) == expected),
{
    compute_xxh3(data) == expected
}

/// Compute a CRC32 checksum, zero-extended to u64.
pub fn compute_crc32(data: &[u8]) -> (r: u64)
    ensures
        r == crc32_of(data@) as u64,
        r <= u32::MAX,
{
    crc32_call(data) as u64
}

/// Verify a CRC32 checksum (stored zero-extended in u64).
pub fn verify_crc32(data: &[u8], expected: u64) -> (r: bool)
    ensures
        r == (crc32_of(data@) as u64 == expected),
{
    compute_crc32(data) == expected
}

/// Checksum algorithm identifier stored in block metadata.
#[derive(Debug, Clone, Copy, PartialEq, Eq, Structural)]
pub enum ChecksumAlgo {
    /// XXH64 (default).
    Xxh64,
    /// XXH3-64.
    Xxh3,
    /// CRC32 zero-extended to u64.
    Crc32,
}

/// The checksum that `algo` computes over `data`.
pub open spec fn spec_checksum(algo: ChecksumAlgo, data: Seq<u8>) -> u64 {
    match algo {
        ChecksumAlgo::Xxh64 => spec_xxh64(data),
        ChecksumAlgo::Xxh3 => xxh3_64_of(data),
        ChecksumAlgo::Crc32 => crc32_of(data) as u64,
    }
}

impl ChecksumAlgo {
    /// Compute a checksum using this algorithm.
    pub fn compute(self, data: &[u8]) -> (r: u64)
        ensures
            r == spec_checksum(self, data@),
    {
        match self {
            ChecksumAlgo::Xxh64 => compute_xxh64(data),
            ChecksumAlgo::Xxh3 => compute_xxh3(data),
            ChecksumAlgo::Crc32 => compute_crc32(data),
        }
    }

    /// Verify a checksum using this algorithm.
    pub fn verify(self, data: &[u8], expected: u64) -> (r: bool)
        ensures
            r == (spec_checksum(self, data@) == expected),
    {
        self.compute(data) == expected
    }

    /// The default checksum algorithm: XXH3-64, the fastest one offered.
    pub fn default_algo() -> (r: Self)
        ensures
            r == ChecksumAlgo::Xxh3,
    {
        ChecksumAlgo::Xxh3
    }
}

} // verus!

//! Configurable resource limits for decoding, to bound the work and memory
//! that hostile input can demand.

use vstd::prelude::*;

verus! {

/// Resource limits for encoder and decoder operations.
#[derive(Debug, Clone, Copy)]
pub struct Limits {
    /// Maximum nesting depth for objects/arrays (default: 128).
    pub max_nesting_depth: usize,
    /// Maximum size of a single block in bytes (default: 64 MiB).
    pub max_block_size: usize,
    /// Maximum number of items in a single array or object (default: 1M).
    pub max_items: usize,
    /// Maximum total memory allocation for a single decode session (default: 256 MiB).
    pub max_memory: usize,
    /// Maximum string length in bytes (default: 16 MiB).
    pub max_string_length: usize,
    /// Maximum decompression ratio (uncompressed/compressed, default: 100).
    pub max_decompression_ratio: usize,
}

/// `l` holds the default limits.
pub open spec fn default_limits(l: Limits) -> bool {
    &&& l.max_nesting_depth == 128
    &&& l.max_block_size == 64 * 1024 * 1024
    &&& l.max_items == 1_000_000
    &&& l.max_memory == 256 * 1024 * 1024
    &&& l.max_string_length == 16 * 1024 * 1024
    &&& l.max_decompression_ratio == 100
}

impl Default for Limits {
    fn default() -> (r: Self)
        ensures
            r.max_nesting_depth == 128,
            r.max_block_size == 64 * 1024 * 1024,
            r.max_items == 1_000_000,
            r.max_memory == 256 * 1024 * 1024,
            r.max_string_length == 16 * 1024 * 1024,
            r.max_decompression_ratio == 100,
    {
        Limits {
            max_nesting_depth: 128,
            max_block_size: 64 * 1024 * 1024,
            max_items: 1_000_000,
            max_memory: 256 * 1024 * 1024,
            max_string_length: 16 * 1024 * 1024,
            max_decompression_ratio: 100,
        }
    }
}

impl Limits {
    /// Restrictive limits suitable for untrusted input.
    pub fn strict() -> (r: Self)
        ensures
            r.max_nesting_depth == 32,
            r.max_block_size == 1024 * 1024,
            r.max_items == 10_000,
            r.max_memory == 4 * 1024 * 1024,
            r.max_string_length == 65536,
            r.max_decompression_ratio == 20,
    {
        Limits {
            max_nesting_depth: 32,
            max_block_size: 1024 * 1024,
            max_items: 10_000,
            max_memory: 4 * 1024 * 1024,
            max_string_length: 65536,
            max_decompression_ratio: 20,
        }
    }

    /// No limits — for trusted data only.
    pub fn unlimited() -> (r: Self)
        ensures
            r.max_nesting_depth == usize::MAX,
            r.max_block_size == usize::MAX,
            r.max_items == usize::MAX,
            r.max_memory == usize::MAX,
            r.max_string_length == usize::MAX,
            r.max_decompression_ratio == usize::MAX,
    {
        Limits {
            max_nesting_depth: usize::MAX,
            max_block_size: usize::MAX,
            max_items: usize::MAX,
            max_memory: usize::MAX,
            max_string_length: usize::MAX,
            max_decompression_ratio: usize::MAX,
        }
    }
}

} // verus!

//! Pluggable compression adapters for Surp blocks: a trait for
//! compressors, the built-in ones (none, zstd, Snappy, LZ4) and a registry
//! that finds a compressor by its compression type.

use crate::codec::{
    lz4_compress_prepend_size, lz4_compress_prepend_size_of, lz4_decompress_size_prepended,
    lz4_decompress_size_prepended_of, snappy_compress, snappy_compress_of, snappy_decompress,
    snappy_decompress_len, snappy_decompress_len_of, snappy_decompress_of, zstd_bulk_compress,
    zstd_bulk_compress_of, zstd_bulk_decompress, zstd_bulk_decompress_of,
};
use crate::error::{ErrorModel, SurpError};
use crate::render::push_text;
use crate::wire::CompressionType;
use vstd::bytes::spec_u32_from_le_bytes;
use vstd::prelude::*;

verus! {

/// A compression algorithm for block payloads.
pub trait Compressor {
    /// The compression type this compressor stands for.
    spec fn spec_compression_type(&self) -> CompressionType;

    /// The compression type identifier for block headers.
    fn compression_type(&self) -> (r: CompressionType)
        ensures
            r == self.spec_compression_type(),
    ;

    /// Compress the input data.
    fn compress(&self, input: &[u8]) -> Result<Vec<u8>, SurpError>;

    /// Decompress the input data; `max_output` bounds the size of the
    /// output.
    fn decompress(&self, input: &[u8], max_output: usize) -> Result<Vec<u8>, SurpError>;

    /// The human-readable name of this compressor.
    fn name(&self) -> &'static str;
}

/// A failed library call as an error, its text behind `prefix`.
fn library_failure(prefix: &str, m: String) -> (e: SurpError)
    ensures
        e@ == ErrorModel::DecompressionError(prefix@ + m@),
{
    let mut s = String::new();
    push_text(&mut s, prefix);
    push_text(&mut s, m.as_str());
    proof {
        assert(s@ =~= prefix@ + m@);
    }
    SurpError::DecompressionError(s)
}

/// `r` is the library outcome `m`, with its error text behind `prefix`.
pub open spec fn library_matches(r: Result<Vec<u8>, SurpError>, prefix: Seq<char>, m: Result<Seq<u8>, Seq<char>>) -> bool {
    match m {
        Ok(b) => r matches Ok(v) && v@ == b,
        Err(t) => r matches Err(e) && e@ == ErrorModel::DecompressionError(prefix + t),
    }
}

/// The pass-through compressor: the payload is stored as it is.
pub struct NoCompression;

impl Compressor for NoCompression {
    open spec fn spec_compression_type(&self) -> CompressionType {
        CompressionType::Uncompressed
    }

    fn compression_type(&self) -> (r: CompressionType) {
        CompressionType::Uncompressed
    }

    fn compress(&self, input: &[u8]) -> (r: Result<Vec<u8>, SurpError>)
        ensures
            r matches Ok(v) && v@ == input@,
    {
        Ok(vstd::slice::slice_to_vec(input))
    }

    /// The output is the input, which may not be longer than `max_output`.
    fn decompress(&self, input: &[u8], max_output: usize) -> (r: Result<Vec<u8>, SurpError>)
        ensures
            input@.len() <= max_output ==> (r matches Ok(v) && v@ == input@),
            input@.len() > max_output ==> (r matches Err(e) && e@ == ErrorModel::MemoryLimitExceeded(
                input@.len() as usize,
                max_output,
            )),
    {
        if input.len() > max_output {
            return Err(SurpError::MemoryLimitExceeded(input.len(), max_output));
        }
        Ok(vstd::slice::slice_to_vec(input))
    }

    fn name(&self) -> (r: &'static str)
        ensures
            r@ == "none"@,
    {
        "none"
    }
}

/// The zstd compressor, at a compression level.
pub struct ZstdCompressor {
    /// Compression level (1-22).
    pub level: i32,
}

impl Default for ZstdCompressor {
    fn default() -> (r: Self)
        ensures
            r.level == 3,
    {
        ZstdCompressor { level: 3 }
    }
}

impl Compressor for ZstdCompressor {
    open spec fn spec_compression_type(&self) -> CompressionType {
        CompressionType::Zstd
    }

    fn compression_type(&self) -> (r: CompressionType) {
        CompressionType::Zstd
    }

    fn compress(&self, input: &[u8]) -> (r: Result<Vec<u8>, SurpError>)
        ensures
            library_matches(r, "zstd compress: "@, zstd_bulk_compress_of(input@, self.level)),
    {
        match zstd_bulk_compress(input, self.level) {
            Ok(c) => Ok(c),
            Err(m) => Err(library_failure("zstd compress: ", m)),
        }
    }

    fn decompress(&self, input: &[u8], max_output: usize) -> (r: Result<Vec<u8>, SurpError>)
        ensures
            library_matches(r, "zstd decompress: "@, zstd_bulk_decompress_of(input@, max_output)),
            r matches Ok(v) ==> v@.len() <= max_output,
    {
        match zstd_bulk_decompress(input, max_output) {
            Ok(c) => Ok(c),
            Err(m) => Err(library_failure("zstd decompress: ", m)),
        }
    }

    fn name(&self) -> (r: &'static str)
        ensures
            r@ == "zstd"@,
    {
        "zstd"
    }
}

/// The Snappy compressor.
pub struct SnappyCompressor;

impl Compressor for SnappyCompressor {
    open spec fn spec_compression_type(&self) -> CompressionType {
        CompressionType::Snappy
    }

    fn compression_type(&self) -> (r: CompressionType) {
        CompressionType::Snappy
    }

    fn compress(&self, input: &[u8]) -> (r: Result<Vec<u8>, SurpError>)
        ensures
            library_matches(r, "snappy compress: "@, snappy_compress_of(input@)),
    {
        match snappy_compress(input) {
            Ok(c) => Ok(c),
            Err(m) => Err(library_failure("snappy compress: ", m)),
        }
    }

    /// The decompressed length announced in the header is checked against
    /// `max_output` before anything is decompressed.
    fn decompress(&self, input: &[u8], max_output: usize) -> (r: Result<Vec<u8>, SurpError>)
        ensures
            match snappy_decompress_len_of(input@) {
                Err(t) => r matches Err(e) && e@ == ErrorModel::DecompressionError("snappy len: "@ + t),
                Ok(n) => if n > max_output {
                    r matches Err(e) && e@ == ErrorModel::MemoryLimitExceeded(n, max_output)
                } else {
                    library_matches(r, "snappy decompress: "@, snappy_decompress_of(input@))
                },
            },
    {
        let n = match snappy_decompress_len(input) {
            Ok(n) => n,
            Err(m) => {
                return Err(library_failure("snappy len: ", m));
            },
        };
        if n > max_output {
            return Err(SurpError::MemoryLimitExceeded(n, max_output));
        }
        match snappy_decompress(input) {
            Ok(c) => Ok(c),
            Err(m) => Err(library_failure("snappy decompress: ", m)),
        }
    }

    fn name(&self) -> (r: &'static str)
        ensures
            r@ == "snappy"@,
    {
        "snappy"
    }
}

/// The LZ4 block compressor; the uncompressed size is stored in front of
/// the compressed bytes as four little-endian bytes.
pub struct Lz4Compressor;

/// The error text of an LZ4 input too short to hold its size prefix.
pub open spec fn lz4_short_input_message() -> Seq<char> {
    "lz4: input too short for size prefix"@
}

impl Compressor for Lz4Compressor {
    open spec fn spec_compression_type(&self) -> CompressionType {
        CompressionType::Lz4
    }

    fn compression_type(&self) -> (r: CompressionType) {
        CompressionType::Lz4
    }

    fn compress(&self, input: &[u8]) -> (r: Result<Vec<u8>, SurpError>)
        ensures
            r matches Ok(v) && v@ == lz4_compress_prepend_size_of(input@),
    {
        Ok(lz4_compress_prepend_size(input))
    }

    /// The size prefix is checked against `max_output` before anything is
    /// decompressed.
    fn decompress(&self, input: &[u8], max_output: usize) -> (r: Result<Vec<u8>, SurpError>)
        ensures
            input@.len() < 4 ==> (r matches Err(e) && e@ == ErrorModel::DecompressionError(lz4_short_input_message())),
            input@.len() >= 4 ==> {
                let n = spec_u32_from_le_bytes(input@.subrange(0, 4)) as usize;
                if n > max_output {
                    r matches Err(e) && e@ == ErrorModel::MemoryLimitExceeded(n, max_output)
                } else {
                    library_matches(r, "lz4 decompress: "@, lz4_decompress_size_prepended_of(input@))
                }
            },
    {
        if input.len() < 4 {
            return Err(SurpError::DecompressionError(String::from_str("lz4: input too short for size prefix")));
        }
        let expected_size = vstd::bytes::u32_from_le_bytes(vstd::slice::slice_subrange(input, 0, 4)) as usize;
        if expected_size > max_output {
            return Err(SurpError::MemoryLimitExceeded(expected_size, max_output));
        }
        match lz4_decompress_size_prepended(input) {
            Ok(c) => Ok(c),
            Err(m) => Err(library_failure("lz4 decompress: ", m)),
        }
    }

    fn name(&self) -> (r: &'static str)
        ensures
            r@ == "lz4"@,
    {
        "lz4"
    }
}

/// One of the built-in compressors.
pub enum BuiltinCompressor {
    Passthrough(NoCompression),
    Zstd(ZstdCompressor),
    Lz4(Lz4Compressor),
    Snappy(SnappyCompressor),
}

impl Compressor for BuiltinCompressor {
    open spec fn spec_compression_type(&self) -> CompressionType {
        match self {
            BuiltinCompressor::Passthrough(c) => c.spec_compression_type(),
            BuiltinCompressor::Zstd(c) => c.spec_compression_type(),
            BuiltinCompressor::Lz4(c) => c.spec_compression_type(),
            BuiltinCompressor::Snappy(c) => c.spec_compression_type(),
        }
    }

    fn compression_type(&self) -> (r: CompressionType) {
        match self {
            BuiltinCompressor::Passthrough(c) => c.compression_type(),
            BuiltinCompressor::Zstd(c) => c.compression_type(),
            BuiltinCompressor::Lz4(c) => c.compression_type(),
            BuiltinCompressor::Snappy(c) => c.compression_type(),
        }
    }

    fn compress(&self, input: &[u8]) -> (r: Result<Vec<u8>, SurpError>)
        ensures
            match self {
                BuiltinCompressor::Passthrough(_) => r matches Ok(v) && v@ == input@,
                BuiltinCompressor::Zstd(c) => library_matches(r, "zstd compress: "@, zstd_bulk_compress_of(input@, c.level)),
                BuiltinCompressor::Lz4(_) => r matches Ok(v) && v@ == lz4_compress_prepend_size_of(input@),
                BuiltinCompressor::Snappy(_) => library_matches(r, "snappy compress: "@, snappy_compress_of(input@)),
            },
    {
        match self {
            BuiltinCompressor::Passthrough(c) => c.compress(input),
            BuiltinCompressor::Zstd(c) => c.compress(input),
            BuiltinCompressor::Lz4(c) => c.compress(input),
            BuiltinCompressor::Snappy(c) => c.compress(input),
        }
    }

    fn decompress(&self, input: &[u8], max_output: usize) -> (r: Result<Vec<u8>, SurpError>)
        ensures
            match self {
                BuiltinCompressor::Passthrough(_) => if input@.len() <= max_output {
                    r matches Ok(v) && v@ == input@
                } else {
                    r matches Err(e) && e@ == ErrorModel::MemoryLimitExceeded(input@.len() as usize, max_output)
                },
                BuiltinCompressor::Zstd(_) => library_matches(r, "zstd decompress: "@, zstd_bulk_decompress_of(input@, max_output))
                    && (r matches Ok(v) ==> v@.len() <= max_output),
                BuiltinCompressor::Lz4(_) => {
                    &&& input@.len() < 4 ==> (r matches Err(e) && e@ == ErrorModel::DecompressionError(lz4_short_input_message()))
                    &&& input@.len() >= 4 ==> {
                        let n = spec_u32_from_le_bytes(input@.subrange(0, 4)) as usize;
                        if n > max_output {
                            r matches Err(e) && e@ == ErrorModel::MemoryLimitExceeded(n, max_output)
                        } else {
                            library_matches(r, "lz4 decompress: "@, lz4_decompress_size_prepended_of(input@))
                        }
                    }
                },
                BuiltinCompressor::Snappy(_) => match snappy_decompress_len_of(input@) {
                    Err(t) => r matches Err(e) && e@ == ErrorModel::DecompressionError("snappy len: "@ + t),
                    Ok(n) => if n > max_output {
                        r matches Err(e) && e@ == ErrorModel::MemoryLimitExceeded(n, max_output)
                    } else {
                        library_matches(r, "snappy decompress: "@, snappy_decompress_of(input@))
                    },
                },
            },
    {
        match self {
            BuiltinCompressor::Passthrough(c) => c.decompress(input, max_output),
            BuiltinCompressor::Zstd(c) => c.decompress(input, max_output),
            BuiltinCompressor::Lz4(c) => c.decompress(input, max_output),
            BuiltinCompressor::Snappy(c) => c.decompress(input, max_output),
        }
    }

    fn name(&self) -> (r: &'static str)
        ensures
            r@ == match self {
                BuiltinCompressor::Passthrough(_) => "none"@,
                BuiltinCompressor::Zstd(_) => "zstd"@,
                BuiltinCompressor::Lz4(_) => "lz4"@,
                BuiltinCompressor::Snappy(_) => "snappy"@,
            },
    {
        match self {
            BuiltinCompressor::Passthrough(c) => c.name(),
            BuiltinCompressor::Zstd(c) => c.name(),
            BuiltinCompressor::Lz4(c) => c.name(),
            BuiltinCompressor::Snappy(c) => c.name(),
        }
    }
}

/// Registry of available compressors, searched in registration order.
pub struct CompressorRegistry<C> {
    compressors: Vec<C>,
}

impl<C: Compressor> View for CompressorRegistry<C> {
    type V = Seq<CompressionType>;

    /// The compression types of the registered compressors, in order.
    closed spec fn view(&self) -> Seq<CompressionType> {
        self.compressors@.map_values(|c: C| c.spec_compression_type())
    }
}

/// `i` is the first position of `t` in `types`.
pub open spec fn first_position(types: Seq<CompressionType>, t: CompressionType, i: int) -> bool {
    &&& 0 <= i < types.len()
    &&& types[i] == t
    &&& forall|j: int| 0 <= j < i ==> types[j] != t
}

/// The first position at or after `i` where `types` holds `t` (the
/// length of `types` if there is none).
pub open spec fn first_index(types: Seq<CompressionType>, t: CompressionType, i: nat) -> int
    decreases types.len() - i,
{
    if i >= types.len() {
        types.len() as int
    } else if types[i as int] == t {
        i as int
    } else {
        first_index(types, t, i + 1)
    }
}

impl CompressorRegistry<BuiltinCompressor> {
    /// A registry with the pass-through compressor only.
    pub fn new() -> (r: Self)
        ensures
            r@ == seq![CompressionType::Uncompressed],
            r.compressor_at(0) == BuiltinCompressor::Passthrough(NoCompression),
    {
        let mut compressors: Vec<BuiltinCompressor> = Vec::new();
        compressors.push(BuiltinCompressor::Passthrough(NoCompression));
        let r = CompressorRegistry { compressors };
        proof {
            assert(r@ =~= seq![CompressionType::Uncompressed]);
        }
        r
    }

    /// A registry with every built-in compressor: none, zstd (level 3),
    /// LZ4 and Snappy, in that order.
    pub fn with_defaults() -> (r: Self)
        ensures
            r@ == seq![
                CompressionType::Uncompressed,
                CompressionType::Zstd,
                CompressionType::Lz4,
                CompressionType::Snappy,
            ],
            r.compressor_at(0) == BuiltinCompressor::Passthrough(NoCompression),
            r.compressor_at(1) == BuiltinCompressor::Zstd(ZstdCompressor { level: 3 }),
            r.compressor_at(2) == BuiltinCompressor::Lz4(Lz4Compressor),
            r.compressor_at(3) == BuiltinCompressor::Snappy(SnappyCompressor),
    {
        let mut reg = Self::new();
        reg.register(BuiltinCompressor::Zstd(ZstdCompressor::default()));
        reg.register(BuiltinCompressor::Lz4(Lz4Compressor));
        reg.register(BuiltinCompressor::Snappy(SnappyCompressor));
        proof {
            assert(reg@ =~= seq![
                CompressionType::Uncompressed,
                CompressionType::Zstd,
                CompressionType::Lz4,
                CompressionType::Snappy,
            ]);
        }
        reg
    }
}

impl<C: Compressor> CompressorRegistry<C> {
    /// The compressor registered at position `i`.
    pub closed spec fn compressor_at(&self, i: int) -> C {
        self.compressors@[i]
    }

    /// Register a compressor after those already registered.
    pub fn register(&mut self, compressor: C)
        ensures
            final(self)@ == old(self)@.push(compressor.spec_compression_type()),
            forall|i: int| 0 <= i < old(self)@.len() ==> #[trigger] final(self).compressor_at(i) == old(self).compressor_at(i),
            final(self).compressor_at(old(self)@.len() as int) == compressor,
    {
        self.compressors.push(compressor);
        proof {
            assert(self@ =~= old(self)@.push(compressor.spec_compression_type()));
        }
    }

    /// The first registered compressor of the given type, if any.
    pub fn find(&self, comp_type: CompressionType) -> (r: Option<&C>)
        ensures
            r is None <==> forall|j: int| 0 <= j < self@.len() ==> self@[j] != comp_type,
            r matches Some(c) ==> exists|i: int| first_position(self@, comp_type, i) && *c == self.compressor_at(i),
            r is Some <==> first_index(self@, comp_type, 0) < self@.len(),
            r matches Some(c) ==> *c == self.compressor_at(first_index(self@, comp_type, 0)),
    {
        let mut i: usize = 0;
        while i < self.compressors.len()
            invariant
                i <= self.compressors@.len(),
                forall|j: int| 0 <= j < i ==> self@[j] != comp_type,
                first_index(self@, comp_type, 0) == first_index(self@, comp_type, i as nat),
            decreases self.compressors@.len() - i,
        {
            let c = &self.compressors[i];
            if c.compression_type() == comp_type {
                proof {
                    assert(first_position(self@, comp_type, i as int));
                    assert(*c == self.compressor_at(i as int));
                }
                return Some(c);
            }
            i = i + 1;
        }
        None
    }
}

impl Default for CompressorRegistry<BuiltinCompressor> {
    fn default() -> (r: Self)
        ensures
            r@ == seq![CompressionType::Uncompressed],
            r.compressor_at(0) == BuiltinCompressor::Passthrough(NoCompression),
    {
        Self::new()
    }
}

} // verus!

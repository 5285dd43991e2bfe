//! The compression libraries that block payloads go through: `zstd`,
//! `snap` (Snappy) and `lz4_flex`.
//!
//! Each library call is a pure function of its arguments; its result is
//! given a name here, together with the one fact the libraries document
//! and the roundtrip laws of this crate rely on: decompressing what a
//! compressor produced gives back the compressor's input. An error is
//! carried as the text its `Display` implementation renders.

use vstd::prelude::*;

verus! {

/// What `zstd::encode_all` makes of `data` at compression level `level`.
pub uninterp spec fn zstd_encode_all_of(data: Seq<u8>, level: i32) -> Result<Seq<u8>, Seq<char>>;

/// What `zstd::decode_all` makes of `data`.
pub uninterp spec fn zstd_decode_all_of(data: Seq<u8>) -> Result<Seq<u8>, Seq<char>>;

/// What `zstd::bulk::compress` makes of `data` at level `level`.
pub uninterp spec fn zstd_bulk_compress_of(data: Seq<u8>, level: i32) -> Result<Seq<u8>, Seq<char>>;

/// What `zstd::bulk::decompress` makes of `data` with room for `capacity` bytes.
pub uninterp spec fn zstd_bulk_decompress_of(data: Seq<u8>, capacity: usize) -> Result<Seq<u8>, Seq<char>>;

/// What `snap::raw::Encoder::compress_vec` makes of `data`.
pub uninterp spec fn snappy_compress_of(data: Seq<u8>) -> Result<Seq<u8>, Seq<char>>;

/// What `snap::raw::Decoder::decompress_vec` makes of `data`.
pub uninterp spec fn snappy_decompress_of(data: Seq<u8>) -> Result<Seq<u8>, Seq<char>>;

/// What `snap::raw::decompress_len` reads from the header of `data`.
pub uninterp spec fn snappy_decompress_len_of(data: Seq<u8>) -> Result<usize, Seq<char>>;

/// What `lz4_flex::compress_prepend_size` makes of `data`.
pub uninterp spec fn lz4_compress_prepend_size_of(data: Seq<u8>) -> Seq<u8>;

/// What `lz4_flex::decompress_size_prepended` makes of `data`.
pub uninterp spec fn lz4_decompress_size_prepended_of(data: Seq<u8>) -> Result<Seq<u8>, Seq<char>>;

/// Calls `zstd::encode_all` on an in-memory reader over `data`. The
/// result is named `zstd_encode_all_of`; what it compresses decodes back
/// to `data` with `zstd::decode_all` (zstd is lossless).
#[verifier::external_body]
pub(crate) fn zstd_encode_all(data: &[u8], level: i32) -> (r: Result<Vec<u8>, String>)
    ensures
        match r {
            Ok(c) => zstd_encode_all_of(data@, level) == Ok::<Seq<u8>, Seq<char>>(c@) && zstd_decode_all_of(c@)
                == Ok::<Seq<u8>, Seq<char>>(data@),
            Err(m) => zstd_encode_all_of(data@, level) == Err::<Seq<u8>, Seq<char>>(m@),
        },
{
    match zstd::encode_all(std::io::Cursor::new(data), level) {
        Ok(c) => Ok(c),
        Err(e) => Err(e.to_string()),
    }
}

/// Calls `zstd::decode_all` on an in-memory reader over `data`. The
/// result is named `zstd_decode_all_of`.
#[verifier::external_body]
pub(crate) fn zstd_decode_all(data: &[u8]) -> (r: Result<Vec<u8>, String>)
    ensures
        match r {
            Ok(c) => zstd_decode_all_of(data@) == Ok::<Seq<u8>, Seq<char>>(c@),
            Err(m) => zstd_decode_all_of(data@) == Err::<Seq<u8>, Seq<char>>(m@),
        },
{
    match zstd::decode_all(std::io::Cursor::new(data)) {
        Ok(c) => Ok(c),
        Err(e) => Err(e.to_string()),
    }
}

/// Calls `zstd::bulk::compress`. The result is named
/// `zstd_bulk_compress_of`; what it compresses decompresses back to
/// `data` with `zstd::bulk::decompress` given room for `data.len()` bytes.
#[verifier::external_body]
pub(crate) fn zstd_bulk_compress(data: &[u8], level: i32) -> (r: Result<Vec<u8>, String>)
    ensures
        match r {
            Ok(c) => zstd_bulk_compress_of(data@, level) == Ok::<Seq<u8>, Seq<char>>(c@) && zstd_bulk_decompress_of(
                c@,
                data@.len() as usize,
            ) == Ok::<Seq<u8>, Seq<char>>(data@),
            Err(m) => zstd_bulk_compress_of(data@, level) == Err::<Seq<u8>, Seq<char>>(m@),
        },
{
    match zstd::bulk::compress(data, level) {
        Ok(c) => Ok(c),
        Err(e) => Err(e.to_string()),
    }
}

/// Calls `zstd::bulk::decompress`, which fails rather than produce more
/// than `capacity` bytes. The result is named `zstd_bulk_decompress_of`.
#[verifier::external_body]
pub(crate) fn zstd_bulk_decompress(data: &[u8], capacity: usize) -> (r: Result<Vec<u8>, String>)
    ensures
        match r {
            Ok(c) => zstd_bulk_decompress_of(data@, capacity) == Ok::<Seq<u8>, Seq<char>>(c@),
            Err(m) => zstd_bulk_decompress_of(data@, capacity) == Err::<Seq<u8>, Seq<char>>(m@),
        },
        r matches Ok(c) ==> c@.len() <= capacity,
{
    match zstd::bulk::decompress(data, capacity) {
        Ok(c) => Ok(c),
        Err(e) => Err(e.to_string()),
    }
}

/// Calls `snap::raw::Encoder::compress_vec` on a fresh encoder. The
/// result is named `snappy_compress_of`; what it compresses decompresses
/// back to `data` with `snap::raw::Decoder::decompress_vec`.
#[verifier::external_body]
pub(crate) fn snappy_compress(data: &[u8]) -> (r: Result<Vec<u8>, String>)
    ensures
        match r {
            Ok(c) => snappy_compress_of(data@) == Ok::<Seq<u8>, Seq<char>>(c@) && snappy_decompress_of(c@) == Ok::<
                Seq<u8>,
                Seq<char>,
            >(data@),
            Err(m) => snappy_compress_of(data@) == Err::<Seq<u8>, Seq<char>>(m@),
        },
{
    match snap::raw::Encoder::new().compress_vec(data) {
        Ok(c) => Ok(c),
        Err(e) => Err(e.to_string()),
    }
}

/// Calls `snap::raw::Decoder::decompress_vec` on a fresh decoder. The
/// result is named `snappy_decompress_of`.
#[verifier::external_body]
pub(crate) fn snappy_decompress(data: &[u8]) -> (r: Result<Vec<u8>, String>)
    ensures
        match r {
            Ok(c) => snappy_decompress_of(data@) == Ok::<Seq<u8>, Seq<char>>(c@),
            Err(m) => snappy_decompress_of(data@) == Err::<Seq<u8>, Seq<char>>(m@),
        },
{
    match snap::raw::Decoder::new().decompress_vec(data) {
        Ok(c) => Ok(c),
        Err(e) => Err(e.to_string()),
    }
}

/// Calls `snap::raw::decompress_len`, which reads the decompressed length
/// from the header of a Snappy block. The result is named
/// `snappy_decompress_len_of`.
#[verifier::external_body]
pub(crate) fn snappy_decompress_len(data: &[u8]) -> (r: Result<usize, String>)
    ensures
        match r {
            Ok(n) => snappy_decompress_len_of(data@) == Ok::<usize, Seq<char>>(n),
            Err(m) => snappy_decompress_len_of(data@) == Err::<usize, Seq<char>>(m@),
        },
{
    match snap::raw::decompress_len(data) {
        Ok(n) => Ok(n),
        Err(e) => Err(e.to_string()),
    }
}

/// Calls `lz4_flex::compress_prepend_size`, which never fails. The result
/// is named `lz4_compress_prepend_size_of`. Its first four bytes hold
/// the length of `data` as a `u32`, so for `data` of at most `u32::MAX`
/// bytes it decompresses back to `data` with
/// `lz4_flex::decompress_size_prepended`.
#[verifier::external_body]
pub(crate) fn lz4_compress_prepend_size(data: &[u8]) -> (r: Vec<u8>)
    ensures
        r@ == lz4_compress_prepend_size_of(data@),
{
    lz4_flex::compress_prepend_size(data)
}

/// Calls `lz4_flex::decompress_size_prepended`. The result is named
/// `lz4_decompress_size_prepended_of`; on what `compress_prepend_size`
/// made of at most `u32::MAX` bytes, it gives those bytes back. Longer
/// inputs are left out: their length prefix is truncated.
#[verifier::external_body]
pub(crate) fn lz4_decompress_size_prepended(data: &[u8]) -> (r: Result<Vec<u8>, String>)
    ensures
        match r {
            Ok(c) => lz4_decompress_size_prepended_of(data@) == Ok::<Seq<u8>, Seq<char>>(c@),
            Err(m) => lz4_decompress_size_prepended_of(data@) == Err::<Seq<u8>, Seq<char>>(m@),
        },
        forall|x: Seq<u8>| x.len() <= u32::MAX && data@ == lz4_compress_prepend_size_of(x) ==> r is Ok && r.unwrap()@ == x,
{
    match lz4_flex::decompress_size_prepended(data) {
        Ok(c) => Ok(c),
        Err(e) => Err(e.to_string()),
    }
}

} // verus!

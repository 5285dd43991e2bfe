//! The meaning of a whole Surp stream for the decoder: how block headers
//! are read, how string dictionary and compressed blocks are handled, and
//! what `decode_next`, `decode_next_owned`, `decode_all` and
//! `decode_all_owned` return, as mathematical functions of the decoder's
//! state.

use crate::checksum::spec_xxh64;
use crate::codec::{lz4_decompress_size_prepended_of, snappy_decompress_of, zstd_decode_all_of};
use crate::decode_spec::{dec_value, wrap_usize};
use crate::decoder::{block_data, owned_state, with_owned_state, with_zc_state, zc_state, DecoderView};
use crate::dict::string_dict;
use crate::error::{ErrorModel, SurpError};
use crate::limits::Limits;
use crate::value::ValueModel;
use crate::varint::spec_decode_varint;
use crate::wire::{spec_block_from_byte, spec_compression_from_byte, BlockType, CompressionType};
use vstd::bytes::spec_u64_from_le_bytes;
use vstd::prelude::*;

verus! {

/// A decoder state that the block and value readers can work from: the
/// read position lies within the input, and the current block, if any,
/// lies within the bytes it is read from.
pub open spec fn decoder_wf(v: DecoderView) -> bool {
    &&& 0 <= v.pos <= v.data.len()
    &&& match v.current_block {
        Some((s, e)) => s <= e <= block_data(v).len() && v.block_pos <= block_data(v).len(),
        None => true,
    }
}

/// A library's outcome, with its error text behind `prefix`.
pub open spec fn library_outcome(prefix: Seq<char>, r: Result<Seq<u8>, Seq<char>>) -> Result<Seq<u8>, ErrorModel> {
    match r {
        Ok(b) => Ok(b),
        Err(m) => Err(ErrorModel::DecompressionError(prefix + m)),
    }
}

/// Decompressing the wire payload of a compressed block:
/// `uncompressed_len(varint) | compressed bytes`. The length is checked
/// against the block size limit and the ratio of the two lengths against
/// the decompression ratio limit before the library is called.
pub open spec fn decompress_payload(ct: CompressionType, wire: Seq<u8>, lim: Limits) -> Result<Seq<u8>, ErrorModel> {
    match spec_decode_varint(wire, 0) {
        Err(e) => Err(e@),
        Ok((ulen, c)) => {
            if ulen > usize::MAX {
                Err(ErrorModel::LengthOverflow(ulen))
            } else if ulen > lim.max_block_size {
                Err(ErrorModel::BlockTooLarge(ulen as usize, lim.max_block_size))
            } else {
                let comp = wire.subrange(c as int, wire.len() as int);
                if comp.len() > 0 && (ulen as nat) / comp.len() > lim.max_decompression_ratio {
                    Err(
                        ErrorModel::DecompressionRatioExceeded {
                            max_ratio: lim.max_decompression_ratio,
                            compressed: comp.len() as usize,
                            uncompressed: ulen as usize,
                        },
                    )
                } else {
                    match ct {
                        CompressionType::Uncompressed => Ok(comp),
                        CompressionType::Zstd => library_outcome("zstd: "@, zstd_decode_all_of(comp)),
                        CompressionType::Snappy => library_outcome("snappy: "@, snappy_decompress_of(comp)),
                        CompressionType::Lz4 => library_outcome("lz4: "@, lz4_decompress_size_prepended_of(comp)),
                    }
                }
            }
        },
    }
}

/// Reading the header of the block at `pos` of `d`: its type, compression,
/// checksum and payload bounds, and the position after the payload;
/// `None` at the end of the input or at the trailer, which ends the
/// stream: the position then moves to the end of the input, so that
/// nothing is read after it. On an error, the position reached.
pub open spec fn frame_header(d: Seq<u8>, pos: int, lim: Limits) -> (
    Result<Option<(BlockType, CompressionType, u64, int, int)>, ErrorModel>,
    int,
) {
    if pos < 0 || pos >= d.len() {
        (Ok(None), pos)
    } else {
        let b = d[pos];
        let p1 = pos + 1;
        match spec_block_from_byte(b) {
            None => (Err(ErrorModel::InvalidBlockType(b)), p1),
            Some(BlockType::Trailer) => (Ok(None), d.len() as int),
            Some(bt) => match spec_decode_varint(d, p1) {
                Err(e) => (Err(e@), p1),
                Ok((len64, c)) => {
                    let p2 = p1 + c;
                    if len64 > usize::MAX {
                        (Err(ErrorModel::LengthOverflow(len64)), p2)
                    } else if len64 > lim.max_block_size {
                        (Err(ErrorModel::BlockTooLarge(len64 as usize, lim.max_block_size)), p2)
                    } else if p2 >= d.len() {
                        (Err(ErrorModel::UnexpectedEof(p2 as usize)), p2)
                    } else {
                        let cb = d[p2];
                        let p3 = p2 + 1;
                        match spec_compression_from_byte(cb) {
                            None => (Err(ErrorModel::UnknownCompression(cb)), p3),
                            Some(ct) => {
                                if p3 + 8 > d.len() {
                                    (Err(ErrorModel::UnexpectedEof(p3 as usize)), p3)
                                } else {
                                    let p4 = p3 + 8;
                                    let pend = p4 + len64;
                                    if pend > d.len() {
                                        (Err(ErrorModel::UnexpectedEof(wrap_usize(pend))), p4)
                                    } else {
                                        (
                                            Ok(Some((bt, ct, spec_u64_from_le_bytes(d.subrange(p3, p4)), p4, pend))),
                                            pend,
                                        )
                                    }
                                }
                            },
                        }
                    }
                },
            },
        }
    }
}

/// The checksum error for a payload `b` whose header announced `expected`.
pub open spec fn checksum_error(expected: u64, b: Seq<u8>) -> ErrorModel {
    ErrorModel::ChecksumMismatch { expected, actual: spec_xxh64(b) }
}

/// Reading the next data, index or schema block: its type and the bounds
/// of its payload in the bytes it is read from (the input, or the
/// decompressed payload of a compressed block). String dictionary blocks
/// met on the way are checked and loaded as the reference table, and
/// reading goes on past them. `None` at the end of the input or at the
/// trailer.
pub open spec fn read_block(v: DecoderView) -> (Result<Option<(BlockType, int, int)>, ErrorModel>, DecoderView)
    decreases v.data.len() - v.pos,
{
    let (h, p) = frame_header(v.data, v.pos, v.limits);
    let v1 = DecoderView { pos: p, ..v };
    match h {
        Err(e) => (Err(e), v1),
        Ok(None) => (Ok(None), v1),
        Ok(Some((bt, ct, expected, s, e))) => {
            let payload = v.data.subrange(s, e);
            if bt == BlockType::StringDict {
                if spec_xxh64(payload) != expected {
                    (Err(checksum_error(expected, payload)), v1)
                } else {
                    match string_dict(payload, v.limits) {
                        Err(err) => (Err(err), v1),
                        Ok(t) => read_block(DecoderView { owned_table: t, dict_preloaded: true, ..v1 }),
                    }
                }
            } else if ct != CompressionType::Uncompressed {
                match decompress_payload(ct, payload, v.limits) {
                    Err(err) => (Err(err), v1),
                    Ok(dec) => {
                        if spec_xxh64(dec) != expected {
                            (Err(checksum_error(expected, dec)), v1)
                        } else {
                            (Ok(Some((bt, 0, dec.len() as int))), DecoderView { decompressed: Some(dec), ..v1 })
                        }
                    },
                }
            } else if spec_xxh64(payload) != expected {
                (Err(checksum_error(expected, payload)), v1)
            } else {
                (Ok(Some((bt, s, e))), DecoderView { decompressed: None, ..v1 })
            }
        },
    }
}

/// The error zero-copy decoding reports for a compressed block.
pub open spec fn zero_copy_compressed_message() -> Seq<char> {
    "zero-copy decode_next() cannot borrow from decompressed block; use decode_all_owned() or decode_next_owned() instead"@
}

/// A value outcome with its error as a mathematical value.
pub open spec fn lift_outcome(m: Result<ValueModel, SurpError>) -> Result<ValueModel, ErrorModel> {
    match m {
        Ok(x) => Ok(x),
        Err(e) => Err(e@),
    }
}

/// `v2` has less of the input left to read than `v`.
pub open spec fn advanced(v: DecoderView, v2: DecoderView) -> bool {
    0 <= v2.data.len() - v2.pos < v.data.len() - v.pos
}

/// What one call of `decode_next` returns: the next value, borrowing from
/// the input, reading blocks as needed and skipping index and schema
/// blocks. At the end of the input it reports `UnexpectedEof`; a
/// compressed data block cannot be read this way.
pub open spec fn next_zc(v: DecoderView) -> (Result<ValueModel, ErrorModel>, DecoderView)
    decreases v.data.len() - v.pos, if v.current_block is Some { 1int } else { 0int },
{
    match v.current_block {
        None => {
            let (r, v1) = read_block(v);
            match r {
                Err(e) => (Err(e), v1),
                Ok(None) => (Err(ErrorModel::UnexpectedEof(v1.pos as usize)), v1),
                Ok(Some((bt, s, e))) => {
                    if !advanced(v, v1) {
                        (Err(ErrorModel::UnexpectedEof(v1.pos as usize)), v1)
                    } else if bt == BlockType::Data {
                        if v1.decompressed is Some {
                            (Err(ErrorModel::DecompressionError(zero_copy_compressed_message())), v1)
                        } else {
                            next_zc(
                                DecoderView {
                                    current_block: Some((s as usize, e as usize)),
                                    block_pos: s,
                                    str_table: Seq::empty(),
                                    dict_preloaded: false,
                                    ..v1
                                },
                            )
                        }
                    } else {
                        next_zc(v1)
                    }
                },
            }
        },
        Some((_, e)) => {
            if v.decompressed is Some {
                (Err(ErrorModel::DecompressionError(zero_copy_compressed_message())), v)
            } else if v.block_pos >= e {
                next_zc(DecoderView { current_block: None, ..v })
            } else {
                let out = dec_value(v.data, e as int, v.limits, true, zc_state(v));
                (lift_outcome(out.0), with_zc_state(v, out.1))
            }
        },
    }
}

/// What one call of `decode_next_owned` returns: the next value as an
/// owned value, reading blocks (compressed ones too) as needed and
/// skipping index and schema blocks. A data block starts with the string
/// table a dictionary block loaded just before it, or an empty one.
pub open spec fn next_owned(v: DecoderView) -> (Result<ValueModel, ErrorModel>, DecoderView)
    decreases v.data.len() - v.pos, if v.current_block is Some { 1int } else { 0int },
{
    match v.current_block {
        None => {
            let (r, v1) = read_block(v);
            match r {
                Err(e) => (Err(e), v1),
                Ok(None) => (Err(ErrorModel::UnexpectedEof(v1.pos as usize)), v1),
                Ok(Some((bt, s, e))) => {
                    if !advanced(v, v1) {
                        (Err(ErrorModel::UnexpectedEof(v1.pos as usize)), v1)
                    } else if bt == BlockType::Data {
                        next_owned(
                            DecoderView {
                                current_block: Some((s as usize, e as usize)),
                                block_pos: s,
                                str_table: Seq::empty(),
                                owned_table: if v1.dict_preloaded { v1.owned_table } else { Seq::empty() },
                                dict_preloaded: false,
                                ..v1
                            },
                        )
                    } else {
                        next_owned(v1)
                    }
                },
            }
        },
        Some((_, e)) => {
            if v.block_pos >= e {
                next_owned(DecoderView { current_block: None, ..v })
            } else {
                let out = dec_value(block_data(v), e as int, v.limits, false, owned_state(v));
                (lift_outcome(out.0), with_owned_state(v, out.1))
            }
        },
    }
}

/// `v2` is further into the stream than `v`: past more of the input, or
/// further into the same block.
pub open spec fn progress(v: DecoderView, v2: DecoderView) -> bool {
    &&& v2.data == v.data
    &&& v.pos <= v2.pos
    &&& {
    ||| v.pos < v2.pos <= v.data.len()
    ||| {
        &&& v2.pos == v.pos
        &&& v.current_block is Some
        &&& v2.current_block == v.current_block
        &&& v2.decompressed == v.decompressed
        &&& v.block_pos < v2.block_pos <= block_data(v2).len()
    }
    }
}

/// `x` followed by the values of the outcome `r`.
pub open spec fn cons_outcome(x: ValueModel, r: Result<Seq<ValueModel>, ErrorModel>) -> Result<Seq<ValueModel>, ErrorModel> {
    match r {
        Ok(xs) => Ok(seq![x] + xs),
        Err(e) => Err(e),
    }
}

/// What `decode_all` returns: every value up to the first `UnexpectedEof`,
/// which ends the sequence, or the first other error.
pub open spec fn all_zc(v: DecoderView) -> (Result<Seq<ValueModel>, ErrorModel>, DecoderView)
    decreases v.data.len() - v.pos, if v.current_block is Some { 1int } else { 0int }, block_data(v).len() - v.block_pos,
{
    let (r, v1) = next_zc(v);
    match r {
        Ok(x) => {
            if progress(v, v1) {
                let (rest, v2) = all_zc(v1);
                (cons_outcome(x, rest), v2)
            } else {
                (Ok(seq![x]), v1)
            }
        },
        Err(e) => {
            if e is UnexpectedEof {
                (Ok(Seq::empty()), v1)
            } else {
                (Err(e), v1)
            }
        },
    }
}

/// What `decode_all_owned` returns: every value up to the first
/// `UnexpectedEof`, which ends the sequence, or the first other error.
pub open spec fn all_owned(v: DecoderView) -> (Result<Seq<ValueModel>, ErrorModel>, DecoderView)
    decreases v.data.len() - v.pos, if v.current_block is Some { 1int } else { 0int }, block_data(v).len() - v.block_pos,
{
    let (r, v1) = next_owned(v);
    match r {
        Ok(x) => {
            if progress(v, v1) {
                let (rest, v2) = all_owned(v1);
                (cons_outcome(x, rest), v2)
            } else {
                (Ok(seq![x]), v1)
            }
        },
        Err(e) => {
            if e is UnexpectedEof {
                (Ok(Seq::empty()), v1)
            } else {
                (Err(e), v1)
            }
        },
    }
}

/// A stream that has ended gives nothing more: at the trailer, or at the
/// end of the input, with no block open, `decode_all` and
/// `decode_all_owned` return no values and no error and leave the decoder
/// at the end of the input, where every later call does the same.
pub proof fn law_ended_stream(v: DecoderView)
    requires
        v.current_block is None,
        0 <= v.pos,
        v.pos >= v.data.len() || v.data[v.pos] == 0xFFu8,
    ensures
        all_zc(v).0 == Ok::<Seq<ValueModel>, ErrorModel>(Seq::empty()),
        all_owned(v).0 == Ok::<Seq<ValueModel>, ErrorModel>(Seq::empty()),
        all_zc(v).1 == (DecoderView { pos: if v.pos >= v.data.len() { v.pos } else { v.data.len() as int }, ..v }),
        all_owned(v).1 == (DecoderView { pos: if v.pos >= v.data.len() { v.pos } else { v.data.len() as int }, ..v }),
        all_zc(all_zc(v).1).0 == Ok::<Seq<ValueModel>, ErrorModel>(Seq::empty()),
        all_owned(all_owned(v).1).0 == Ok::<Seq<ValueModel>, ErrorModel>(Seq::empty()),
{
    let p = if v.pos >= v.data.len() { v.pos } else { v.data.len() as int };
    if v.pos < v.data.len() {
        assert(spec_block_from_byte(0xFFu8) == Some(BlockType::Trailer));
    }
    assert(frame_header(v.data, v.pos, v.limits) == (Ok::<Option<(BlockType, CompressionType, u64, int, int)>, ErrorModel>(None), p));
    let v1 = DecoderView { pos: p, ..v };
    assert(read_block(v) == (Ok::<Option<(BlockType, int, int)>, ErrorModel>(None), v1));
    assert(frame_header(v1.data, v1.pos, v1.limits) == (Ok::<Option<(BlockType, CompressionType, u64, int, int)>, ErrorModel>(None), p));
    assert(read_block(v1) == (Ok::<Option<(BlockType, int, int)>, ErrorModel>(None), v1));
    assert(DecoderView { pos: p, ..v1 } == v1);
}

/// `decode_all` is `decode_next` repeated: the first value, then what
/// `decode_all` reads from the state `decode_next` leaves; no value and
/// no error at an `UnexpectedEof`; and any other error as it is. The
/// premise, that a value moves the reader forward, is what `decode_next`
/// ensures of every value it returns.
pub proof fn law_decode_all_repeats_decode_next(v: DecoderView)
    requires
        next_zc(v).0 is Ok ==> progress(v, next_zc(v).1),
    ensures
        all_zc(v).0 == match next_zc(v).0 {
            Ok(x) => cons_outcome(x, all_zc(next_zc(v).1).0),
            Err(e) => if e is UnexpectedEof {
                Ok(Seq::empty())
            } else {
                Err(e)
            },
        },
{
}

/// `decode_all_owned` is `decode_next_owned` repeated, in the same way as
/// `decode_all` is `decode_next` repeated.
pub proof fn law_decode_all_owned_repeats_decode_next_owned(v: DecoderView)
    requires
        next_owned(v).0 is Ok ==> progress(v, next_owned(v).1),
    ensures
        all_owned(v).0 == match next_owned(v).0 {
            Ok(x) => cons_outcome(x, all_owned(next_owned(v).1).0),
            Err(e) => if e is UnexpectedEof {
                Ok(Seq::empty())
            } else {
                Err(e)
            },
        },
{
}

/// The values that `k` successive `decode_next` calls from `v` return,
/// and the state after them, when each of the calls returns a value (and
/// so, as `decode_next` ensures, moves the reader forward).
pub open spec fn next_values(v: DecoderView, k: nat) -> Option<(Seq<ValueModel>, DecoderView)>
    decreases k,
{
    if k == 0 {
        Some((Seq::empty(), v))
    } else {
        match next_zc(v).0 {
            Ok(x) => if progress(v, next_zc(v).1) {
                match next_values(next_zc(v).1, (k - 1) as nat) {
                    Some((xs, w)) => Some((seq![x] + xs, w)),
                    None => None,
                }
            } else {
                None
            },
            Err(_) => None,
        }
    }
}

/// The values that `k` successive `decode_next_owned` calls from `v`
/// return, and the state after them, when each returns a value.
pub open spec fn next_owned_values(v: DecoderView, k: nat) -> Option<(Seq<ValueModel>, DecoderView)>
    decreases k,
{
    if k == 0 {
        Some((Seq::empty(), v))
    } else {
        match next_owned(v).0 {
            Ok(x) => if progress(v, next_owned(v).1) {
                match next_owned_values(next_owned(v).1, (k - 1) as nat) {
                    Some((xs, w)) => Some((seq![x] + xs, w)),
                    None => None,
                }
            } else {
                None
            },
            Err(_) => None,
        }
    }
}

/// `decode_all` collects what successive `decode_next` calls return: if
/// `k` calls return the values `xs` and the next one fails, `decode_all`
/// returns `xs` when that failure is an `UnexpectedEof`, and the failure
/// itself (dropping `xs`) otherwise.
pub proof fn law_decode_all_collects(v: DecoderView, k: nat)
    requires
        next_values(v, k) is Some,
        next_zc(next_values(v, k)->Some_0.1).0 is Err,
    ensures
        ({
            let (xs, w) = next_values(v, k)->Some_0;
            let e = next_zc(w).0->Err_0;
            all_zc(v).0 == if e is UnexpectedEof {
                Ok::<Seq<ValueModel>, ErrorModel>(xs)
            } else {
                Err::<Seq<ValueModel>, ErrorModel>(e)
            }
        }),
    decreases k,
{
    if k > 0 {
        law_decode_all_collects(next_zc(v).1, (k - 1) as nat);
        let xs = next_values(next_zc(v).1, (k - 1) as nat)->Some_0.0;
        assert(seq![next_zc(v).0->Ok_0] + xs == next_values(v, k)->Some_0.0);
    }
}

/// `decode_all_owned` collects what successive `decode_next_owned` calls
/// return, in the same way as `decode_all` collects `decode_next`.
pub proof fn law_decode_all_owned_collects(v: DecoderView, k: nat)
    requires
        next_owned_values(v, k) is Some,
        next_owned(next_owned_values(v, k)->Some_0.1).0 is Err,
    ensures
        ({
            let (xs, w) = next_owned_values(v, k)->Some_0;
            let e = next_owned(w).0->Err_0;
            all_owned(v).0 == if e is UnexpectedEof {
                Ok::<Seq<ValueModel>, ErrorModel>(xs)
            } else {
                Err::<Seq<ValueModel>, ErrorModel>(e)
            }
        }),
    decreases k,
{
    if k > 0 {
        law_decode_all_owned_collects(next_owned(v).1, (k - 1) as nat);
        let xs = next_owned_values(next_owned(v).1, (k - 1) as nat)->Some_0.0;
        assert(seq![next_owned(v).0->Ok_0] + xs == next_owned_values(v, k)->Some_0.0);
    }
}

} // verus!

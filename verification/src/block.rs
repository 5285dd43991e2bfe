//! Block-level framing for the Surp binary format.
//!
//! Every block is laid out as
//! `block_type(1) | block_len(varint) | comp_type(1) | checksum(8, LE) | payload`,
//! where the checksum is the XXH64 of the uncompressed payload.
//! `BlockWriter` builds blocks; `BlockReader` parses them; `inspect` walks
//! a whole file and checks every checksum it can.

use crate::checksum::{compute_xxh64, spec_xxh64};
use crate::error::{spec_message, SurpError};
use crate::render::{decimal, push_decimal, push_text};
use crate::varint::{
    decode_varint, encode_varint_vec, lemma_decode_encode_varint, lemma_varint_bytes_len,
    spec_decode_varint, varint_bytes,
};
use crate::wire::{
    block_code, compression_code, spec_block_from_byte, spec_compression_from_byte, BlockType,
    CompressionType,
};
use vstd::bytes::{spec_u64_from_le_bytes, spec_u64_to_le_bytes, u64_from_le_bytes, u64_to_le_bytes};
use vstd::prelude::*;

verus! {

/// The bytes of a framed block: type byte, varint payload length,
/// compression byte, little-endian checksum, payload.
pub open spec fn block_bytes(
    block_type: BlockType,
    compression: CompressionType,
    checksum: u64,
    payload: Seq<u8>,
) -> Seq<u8> {
    seq![block_code(block_type)] + varint_bytes(payload.len() as u64) + seq![compression_code(compression)]
        + spec_u64_to_le_bytes(checksum) + payload
}

/// What a `BlockWriter` holds: the block's type, its compression type and
/// the payload written so far.
#[verifier::ext_equal]
pub struct BlockWriterView {
    pub block_type: BlockType,
    pub compression: CompressionType,
    pub payload: Seq<u8>,
}

/// Builder for a single block's payload, with framing support.
pub struct BlockWriter {
    block_type: BlockType,
    compression: CompressionType,
    payload: Vec<u8>,
}

impl View for BlockWriter {
    type V = BlockWriterView;

    closed spec fn view(&self) -> BlockWriterView {
        BlockWriterView {
            block_type: self.block_type,
            compression: self.compression,
            payload: self.payload@,
        }
    }
}

impl BlockWriter {
    /// Create a new, empty, uncompressed block writer of the given type.
    pub fn new(block_type: BlockType) -> (w: Self)
        ensures
            w@.block_type == block_type,
            w@.compression == CompressionType::Uncompressed,
            w@.payload == Seq::<u8>::empty(),
    {
        BlockWriter {
            block_type,
            compression: CompressionType::Uncompressed,
            payload: Vec::with_capacity(4096),
        }
    }

    /// Set the compression type recorded in this block's header.
    pub fn set_compression(&mut self, comp: CompressionType)
        ensures
            final(self)@ == (BlockWriterView { compression: comp, ..old(self)@ }),
    {
        self.compression = comp;
    }

    /// Append raw bytes to the block payload.
    pub fn write(&mut self, data: &[u8])
        ensures
            final(self)@ == (BlockWriterView { payload: old(self)@.payload + data@, ..old(self)@ }),
    {
        self.payload.extend_from_slice(data);
    }

    /// Get a mutable reference to the payload buffer.
    pub fn payload_mut(&mut self) -> (r: &mut Vec<u8>)
        ensures
            r@ == old(self)@.payload,
            final(self)@ == (BlockWriterView { payload: final(r)@, ..old(self)@ }),
    {
        &mut self.payload
    }

    /// Get the current payload size.
    pub fn payload_len(&self) -> (n: usize)
        ensures
            n == self@.payload.len(),
    {
        self.payload.len()
    }

    /// Finalize and serialize this block:
    /// `block_type(1) | block_len(varint) | comp_type(1) | checksum(8) | payload`.
    pub fn finish(self) -> (out: Vec<u8>)
        ensures
            out@ == block_bytes(self@.block_type, self@.compression, spec_xxh64(self@.payload), self@.payload),
    {
        let checksum = compute_xxh64(self.payload.as_slice());
        let mut out: Vec<u8> = Vec::with_capacity(20);
        out.push(self.block_type.to_byte());
        encode_varint_vec(self.payload.len() as u64, &mut out);
        out.push(self.compression.to_byte());
        let ck = u64_to_le_bytes(checksum);
        out.extend_from_slice(ck.as_slice());
        out.extend_from_slice(self.payload.as_slice());
        proof {
            assert(out@ =~= block_bytes(self@.block_type, self@.compression, checksum, self@.payload));
        }
        out
    }
}

/// The header fields of the block at `off` and where its payload lies, or
/// the error parsing stops with. A declared payload length above `limit`
/// (when one is given) is refused before it is used.
pub open spec fn spec_parse_block(d: Seq<u8>, off: int, limit: Option<usize>) -> Result<
    (BlockType, CompressionType, u64, int, int),
    SurpError,
> {
    if off >= d.len() {
        Err(SurpError::UnexpectedEof(off as usize))
    } else {
        let tb = d[off];
        match spec_block_from_byte(tb) {
            None => Err(SurpError::InvalidBlockType(tb)),
            Some(bt) => match spec_decode_varint(d, off + 1) {
                Err(e) => Err(e),
                Ok((len64, vn)) => {
                    let pos = off + 1 + vn;
                    let blen = len64 as usize;
                    if limit is Some && blen > limit->0 {
                        Err(SurpError::BlockTooLarge(blen, limit->0))
                    } else if pos >= d.len() {
                        Err(SurpError::UnexpectedEof(pos as usize))
                    } else {
                        let cb = d[pos];
                        match spec_compression_from_byte(cb) {
                            None => Err(SurpError::UnknownCompression(cb)),
                            Some(comp) => {
                                if pos + 9 > d.len() {
                                    Err(SurpError::UnexpectedEof((pos + 1) as usize))
                                } else {
                                    let ck = spec_u64_from_le_bytes(d.subrange(pos + 1, pos + 9));
                                    let p = pos + 9;
                                    if p + blen > d.len() {
                                        Err(SurpError::UnexpectedEof(p as usize))
                                    } else {
                                        Ok((bt, comp, ck, p, p + blen))
                                    }
                                }
                            },
                        }
                    }
                },
            },
        }
    }
}

/// A parsed block read from binary data.
#[derive(Debug)]
pub struct BlockReader<'a> {
    /// The block type.
    pub block_type: BlockType,
    /// The compression type.
    pub compression: CompressionType,
    /// The expected checksum.
    pub checksum: u64,
    /// The payload bytes (borrowed from input).
    pub payload: &'a [u8],
}

/// `r` is the outcome that `spec_parse_block` gives for `data` at `offset`.
pub open spec fn parse_matches(
    data: Seq<u8>,
    offset: int,
    limit: Option<usize>,
    r: Result<(BlockReader, usize), SurpError>,
) -> bool {
    match spec_parse_block(data, offset, limit) {
        Ok((bt, comp, ck, ps, pe)) => {
            &&& r is Ok
            &&& r->Ok_0.0.block_type == bt
            &&& r->Ok_0.0.compression == comp
            &&& r->Ok_0.0.checksum == ck
            &&& r->Ok_0.0.payload@ == data.subrange(ps, pe)
            &&& r->Ok_0.1 == pe - offset
        },
        Err(e) => r == Err::<(BlockReader, usize), SurpError>(e),
    }
}

impl<'a> BlockReader<'a> {
    /// Parse a block from `data` starting at `offset`.
    /// Returns `(BlockReader, bytes_consumed)`. No bound is put on the
    /// declared payload length beyond what `data` holds.
    pub fn parse(data: &'a [u8], offset: usize) -> (r: Result<(Self, usize), SurpError>)
        ensures
            parse_matches(data@, offset as int, None, r),
    {
        Self::parse_inner(data, offset, None)
    }

    /// Parse a block from `data` starting at `offset`, rejecting a declared
    /// payload length that exceeds `max_block_size` before it is used.
    pub fn parse_with_limit(data: &'a [u8], offset: usize, max_block_size: usize) -> (r: Result<
        (Self, usize),
        SurpError,
    >)
        ensures
            parse_matches(data@, offset as int, Some(max_block_size), r),
    {
        Self::parse_inner(data, offset, Some(max_block_size))
    }

    fn parse_inner(data: &'a [u8], offset: usize, max_block_size: Option<usize>) -> (r: Result<
        (Self, usize),
        SurpError,
    >)
        ensures
            parse_matches(data@, offset as int, max_block_size, r),
    {
        let mut pos = offset;
        if pos >= data.len() {
            return Err(SurpError::UnexpectedEof(pos));
        }
        let block_type_byte = data[pos];
        pos = pos + 1;
        let block_type = match BlockType::from_byte(block_type_byte) {
            Some(bt) => bt,
            None => {
                return Err(SurpError::InvalidBlockType(block_type_byte));
            },
        };
        let (block_len, varint_bytes_used) = match decode_varint(data, pos) {
            Ok(x) => x,
            Err(e) => {
                return Err(e);
            },
        };
        pos = pos + varint_bytes_used;
        let block_len = block_len as usize;

        if let Some(max_block_size) = max_block_size {
            if block_len > max_block_size {
                return Err(SurpError::BlockTooLarge(block_len, max_block_size));
            }
        }
        if pos >= data.len() {
            return Err(SurpError::UnexpectedEof(pos));
        }
        let comp_byte = data[pos];
        pos = pos + 1;
        let compression = match CompressionType::from_byte(comp_byte) {
            Some(c) => c,
            None => {
                return Err(SurpError::UnknownCompression(comp_byte));
            },
        };
        if data.len() - pos < 8 {
            return Err(SurpError::UnexpectedEof(pos));
        }
        let checksum = u64_from_le_bytes(vstd::slice::slice_subrange(data, pos, pos + 8));
        pos = pos + 8;
        if block_len > data.len() - pos {
            return Err(SurpError::UnexpectedEof(pos));
        }
        let payload = vstd::slice::slice_subrange(data, pos, pos + block_len);
        pos = pos + block_len;
        Ok((BlockReader { block_type, compression, checksum, payload }, pos - offset))
    }

    /// Verify the block's checksum matches its payload.
    pub fn verify_checksum(&self) -> (r: bool)
        ensures
            r == (spec_xxh64(self.payload@) == self.checksum),
    {
        compute_xxh64(self.payload) == self.checksum
    }
}

/// A block written by `BlockWriter::finish` parses back into the same
/// block type, compression type, checksum and payload, whatever precedes
/// and follows it, and consumes exactly its own bytes.
pub proof fn lemma_parse_finished_block(
    block_type: BlockType,
    compression: CompressionType,
    checksum: u64,
    payload: Seq<u8>,
    before: Seq<u8>,
    after: Seq<u8>,
)
    requires
        payload.len() <= usize::MAX,
    ensures
        ({
            let d = before + block_bytes(block_type, compression, checksum, payload) + after;
            let off = before.len() as int;
            let p = off + 1 + varint_bytes(payload.len() as u64).len() + 9;
            spec_parse_block(d, off, None) == Ok::<(BlockType, CompressionType, u64, int, int), SurpError>(
                (block_type, compression, checksum, p, p + payload.len()),
            ) && d.subrange(p, p + payload.len()) == payload
        }),
{
    let head = seq![block_code(block_type)];
    let vb = varint_bytes(payload.len() as u64);
    let ck = spec_u64_to_le_bytes(checksum);
    let tail = seq![compression_code(compression)] + ck + payload + after;
    let d = before + block_bytes(block_type, compression, checksum, payload) + after;
    let off = before.len() as int;
    vstd::bytes::lemma_auto_spec_u64_to_from_le_bytes();
    lemma_varint_bytes_len(payload.len() as u64);
    assert(d =~= (before + head) + vb + tail);
    lemma_decode_encode_varint(payload.len() as u64, before + head, tail);
    assert(spec_decode_varint(d, off + 1) == Ok::<(u64, usize), SurpError>(
        (payload.len() as u64, vb.len() as usize),
    ));
    let pos = off + 1 + vb.len();
    assert(d[off] == block_code(block_type));
    assert(d[pos] == compression_code(compression));
    assert(d.subrange(pos + 1, pos + 9) =~= ck);
    assert(d.subrange(pos + 9, pos + 9 + payload.len()) =~= payload);
    assert(spec_block_from_byte(block_code(block_type)) == Some(block_type));
    assert(spec_compression_from_byte(compression_code(compression)) == Some(compression));
}

// ---------------------------------------------------------------------------
// Walking and checking a whole file
// ---------------------------------------------------------------------------

/// Per-block summary computed by [`inspect`].
#[derive(Debug, Clone, Copy, PartialEq, Eq, Structural)]
pub struct BlockRecord {
    /// Zero-based position of this block within the file.
    pub index: usize,
    /// Byte offset of this block's header within the file.
    pub offset: usize,
    /// The block's declared type.
    pub block_type: BlockType,
    /// The block's declared compression type.
    pub compression: CompressionType,
    /// Length of the (possibly-compressed) on-wire payload, in bytes.
    pub payload_len: usize,
    /// Whether the block's checksum matched; `None` for a compressed block,
    /// whose checksum covers the payload before compression.
    pub payload_checksum_valid: Option<bool>,
}

/// Trailer-block summary computed by [`inspect`].
#[derive(Debug, Clone, Copy, PartialEq, Eq, Structural)]
pub struct TrailerRecord {
    /// Whether the trailer block's own payload checksum matches.
    pub payload_checksum_valid: bool,
    /// Whether the trailer's embedded whole-file checksum matches the
    /// checksum of every byte preceding the trailer block.
    pub file_checksum_valid: bool,
}

/// Result of walking every block in a Surp binary file via [`inspect`].
#[derive(Debug, Clone)]
pub struct BlockReport {
    /// Total size of the inspected data, in bytes.
    pub file_size: usize,
    /// Per-block summaries, in file order.
    pub blocks: Vec<BlockRecord>,
    /// Trailer summary, if a trailer block was found.
    pub trailer: Option<TrailerRecord>,
}

/// The summary of the block found at `off` with the given parse outcome.
pub open spec fn block_record(
    d: Seq<u8>,
    off: int,
    idx: int,
    bt: BlockType,
    comp: CompressionType,
    ck: u64,
    ps: int,
    pe: int,
) -> BlockRecord {
    let valid = spec_xxh64(d.subrange(ps, pe)) == ck;
    BlockRecord {
        index: idx as usize,
        offset: off as usize,
        block_type: bt,
        compression: comp,
        payload_len: (pe - ps) as usize,
        payload_checksum_valid: if comp == CompressionType::Uncompressed || bt == BlockType::Trailer {
            Some(valid)
        } else {
            None
        },
    }
}

/// The trailer summary of a trailer block at `off` whose payload lies in
/// `ps..pe`: its own checksum, and whether its eight-byte payload equals
/// the XXH64 of everything before the block.
pub open spec fn trailer_record(d: Seq<u8>, off: int, ck: u64, ps: int, pe: int) -> TrailerRecord {
    TrailerRecord {
        payload_checksum_valid: spec_xxh64(d.subrange(ps, pe)) == ck,
        file_checksum_valid: pe - ps == 8 && spec_u64_from_le_bytes(d.subrange(ps, pe)) == spec_xxh64(
            d.subrange(0, off),
        ),
    }
}

/// Walking the blocks from `off` on, block number `idx` next, with the
/// records `acc` and trailer `trailer` gathered so far: the final records
/// and trailer, or the number, offset and parse error of the first block
/// that does not parse.
pub open spec fn spec_inspect_from(
    d: Seq<u8>,
    off: int,
    idx: int,
    acc: Seq<BlockRecord>,
    trailer: Option<TrailerRecord>,
) -> Result<(Seq<BlockRecord>, Option<TrailerRecord>), (int, int, SurpError)>
    decreases d.len() - off,
{
    if off < 0 || off >= d.len() {
        Ok((acc, trailer))
    } else {
        match spec_parse_block(d, off, None) {
            Err(e) => Err((idx, off, e)),
            Ok((bt, comp, ck, ps, pe)) => {
                if pe <= off {
                    Err((idx, off, SurpError::UnexpectedEof(off as usize)))
                } else {
                    let rec = block_record(d, off, idx, bt, comp, ck, ps, pe);
                    let t2 = if bt == BlockType::Trailer {
                        Some(trailer_record(d, off, ck, ps, pe))
                    } else {
                        trailer
                    };
                    spec_inspect_from(d, pe, idx + 1, acc.push(rec), t2)
                }
            },
        }
    }
}

/// The message of the error `inspect` reports for block number `idx` at
/// `off` failing with `e`.
pub open spec fn inspect_failure_message(idx: int, off: int, e: SurpError) -> Seq<char> {
    "failed to parse block #"@ + decimal(idx as nat) + " at offset "@ + decimal(off as nat) + ": "@
        + spec_message(e)
}

proof fn lemma_parse_block_advances(d: Seq<u8>, off: int, limit: Option<usize>)
    requires
        0 <= off,
    ensures
        spec_parse_block(d, off, limit) matches Ok((bt, comp, ck, ps, pe)) ==> off + 11 <= ps <= pe <= d.len(),
{
    if spec_parse_block(d, off, limit) is Ok {
        let r = spec_decode_varint(d, off + 1);
        assert(r is Ok);
        lemma_decode_step_consumes(d, off + 1, 0, 0);
    }
}

proof fn lemma_decode_step_consumes(d: Seq<u8>, off: int, i: int, acc: u64)
    requires
        0 <= i <= 9,
        0 <= off,
    ensures
        crate::varint::decode_step(d, off, i, acc) matches Ok((v, n)) ==> i < n <= 10 && off + n <= d.len(),
    decreases 10 - i,
{
    if 0 <= off + i < d.len() {
        let b = d[off + i];
        assert(b <= 1 ==> b & 0x80 == 0) by (bit_vector);
    }
    if i < 9 && 0 <= off + i < d.len() {
        lemma_decode_step_consumes(d, off, i + 1, acc | (((d[off + i] & 0x7f) as u64) << ((7 * i) as u64)));
    }
}

/// Walk every block in `data`, verifying per-block checksums where
/// possible (uncompressed blocks, and the trailer block) and validating
/// the file trailer's whole-file checksum.
pub fn inspect(data: &[u8]) -> (r: Result<BlockReport, SurpError>)
    ensures
        match spec_inspect_from(data@, 0, 0, Seq::empty(), None) {
            Ok((blocks, trailer)) => r is Ok && r->Ok_0.file_size == data@.len() && r->Ok_0.blocks@
                == blocks && r->Ok_0.trailer == trailer,
            Err((idx, off, e)) => r is Err && r->Err_0 is InvalidData && r->Err_0->InvalidData_0@
                == inspect_failure_message(idx, off, e),
        },
{
    let mut blocks: Vec<BlockRecord> = Vec::new();
    let mut trailer: Option<TrailerRecord> = None;
    let mut offset: usize = 0;
    let mut index: usize = 0;
    while offset < data.len()
        invariant
            offset <= data@.len(),
            index <= offset,
            spec_inspect_from(data@, 0, 0, Seq::empty(), None) == spec_inspect_from(
                data@,
                offset as int,
                index as int,
                blocks@,
                trailer,
            ),
        decreases data@.len() - offset,
    {
        let block_offset = offset;
        proof {
            lemma_parse_block_advances(data@, offset as int, None);
        }
        let (block, consumed) = match BlockReader::parse(data, offset) {
            Ok(x) => x,
            Err(err) => {
                let mut msg = String::new();
                push_text(&mut msg, "failed to parse block #");
                push_decimal(&mut msg, index as u64);
                push_text(&mut msg, " at offset ");
                push_decimal(&mut msg, offset as u64);
                push_text(&mut msg, ": ");
                let inner = err.message();
                push_text(&mut msg, inner.as_str());
                return Err(SurpError::InvalidData(msg));
            },
        };
        offset = offset + consumed;

        let valid = block.verify_checksum();
        let payload_checksum_valid = if block.compression == CompressionType::Uncompressed
            || block.block_type == BlockType::Trailer {
            Some(valid)
        } else {
            None
        };

        if block.block_type == BlockType::Trailer {
            let file_checksum_valid = if block.payload.len() == 8 {
                let expected = u64_from_le_bytes(block.payload);
                let actual = compute_xxh64(vstd::slice::slice_subrange(data, 0, block_offset));
                expected == actual
            } else {
                false
            };
            trailer = Some(TrailerRecord { payload_checksum_valid: valid, file_checksum_valid });
        }
        blocks.push(
            BlockRecord {
                index,
                offset: block_offset,
                block_type: block.block_type,
                compression: block.compression,
                payload_len: block.payload.len(),
                payload_checksum_valid,
            },
        );
        index = index + 1;
    }
    Ok(BlockReport { file_size: data.len(), blocks, trailer })
}


/// What every record that `inspect` reports says of its checksum: a
/// compressed block other than the trailer gets no verdict (its checksum
/// covers the payload before compression, which `inspect` does not
/// restore); an uncompressed block, and the trailer, get whether the
/// XXH64 of its on-wire payload equals its declared checksum.
pub open spec fn checksum_verdict_right(d: Seq<u8>, r: BlockRecord) -> bool {
    &&& (r.compression != CompressionType::Uncompressed && r.block_type != BlockType::Trailer)
        ==> r.payload_checksum_valid is None
    &&& (r.compression == CompressionType::Uncompressed || r.block_type == BlockType::Trailer)
        ==> r.payload_checksum_valid is Some
}

proof fn lemma_inspect_records(d: Seq<u8>, off: int, idx: int, acc: Seq<BlockRecord>, trailer: Option<TrailerRecord>)
    requires
        forall|i: int| 0 <= i < acc.len() ==> checksum_verdict_right(d, #[trigger] acc[i]),
    ensures
        spec_inspect_from(d, off, idx, acc, trailer) matches Ok((bs, t)) ==> forall|i: int|
            0 <= i < bs.len() ==> checksum_verdict_right(d, #[trigger] bs[i]),
    decreases d.len() - off,
{
    if 0 <= off < d.len() {
        match spec_parse_block(d, off, None) {
            Err(_) => {},
            Ok((bt, comp, ck, ps, pe)) => {
                if pe > off {
                    let rec = block_record(d, off, idx, bt, comp, ck, ps, pe);
                    let acc2 = acc.push(rec);
                    assert forall|i: int| 0 <= i < acc2.len() implies checksum_verdict_right(d, #[trigger] acc2[i]) by {
                        if i < acc.len() {
                            assert(acc2[i] == acc[i]);
                        }
                    }
                    let t2 = if bt == BlockType::Trailer {
                        Some(trailer_record(d, off, ck, ps, pe))
                    } else {
                        trailer
                    };
                    lemma_inspect_records(d, pe, idx + 1, acc2, t2);
                }
            },
        }
    }
}

/// Of every block that `inspect` reports, a compressed one other than
/// the trailer has no checksum verdict (`None`), and an uncompressed one
/// or the trailer has one (`Some`).
pub proof fn law_inspect_checksum_verdicts(d: Seq<u8>)
    ensures
        spec_inspect_from(d, 0, 0, Seq::empty(), None) matches Ok((bs, t)) ==> forall|i: int|
            0 <= i < bs.len() ==> {
                &&& (bs[i].compression != CompressionType::Uncompressed && bs[i].block_type != BlockType::Trailer)
                    ==> bs[i].payload_checksum_valid is None
                &&& (bs[i].compression == CompressionType::Uncompressed || bs[i].block_type == BlockType::Trailer)
                    ==> bs[i].payload_checksum_valid is Some
            },
{
    lemma_inspect_records(d, 0, 0, Seq::empty(), None);
    if spec_inspect_from(d, 0, 0, Seq::empty(), None) is Ok {
        let bs = spec_inspect_from(d, 0, 0, Seq::empty(), None)->Ok_0.0;
        assert forall|i: int| 0 <= i < bs.len() implies {
            &&& (bs[i].compression != CompressionType::Uncompressed && bs[i].block_type != BlockType::Trailer)
                ==> bs[i].payload_checksum_valid is None
            &&& (bs[i].compression == CompressionType::Uncompressed || bs[i].block_type == BlockType::Trailer)
                ==> bs[i].payload_checksum_valid is Some
        } by {
            assert(checksum_verdict_right(d, bs[i]));
        }
    }
}

} // verus!

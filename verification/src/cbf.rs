//! Building blocks of the CBF binary format: the 32-byte file header,
//! segment headers, the symbol table and the CRC-64/ECMA checksum.

use crate::dict::{safe_usize, utf8_str};
use crate::error::{ErrorModel, SurpError};
use crate::roundtrip::{holds_at, lemma_holds_split, lemma_varint_held};
use crate::varint::{decode_varint, encode_varint_vec, spec_decode_varint, varint_bytes};
use vstd::bytes::{
    spec_u32_from_le_bytes, spec_u32_to_le_bytes, spec_u64_from_le_bytes, spec_u64_to_le_bytes, u32_from_le_bytes,
    u32_to_le_bytes, u64_from_le_bytes, u64_to_le_bytes,
};
use vstd::prelude::*;
use vstd::string::StringExecFns;
use vstd::utf8::{decode_utf8, encode_utf8, valid_utf8};

verus! {

/// The four bytes a CBF file starts with: `SURP`.
pub const CBF_MAGIC: [u8; 4] = [0x53, 0x55, 0x52, 0x50];

/// The size of the CBF file header.
pub const CBF_HEADER_SIZE: usize = 32;

/// Header flag: the file describes its own types.
pub const FLAG_SELF_DESCRIBING: u8 = 1;

/// Header flag: the file carries a symbol table.
pub const FLAG_HAS_SYMTAB: u8 = 2;

/// Header flag: the file carries an index.
pub const FLAG_HAS_INDEX: u8 = 4;

/// CBF file header (32 bytes).
#[derive(Debug, Clone, PartialEq, Eq)]
pub struct CbfHeader {
    pub cbf_version: u8,
    pub ctn_version: u8,
    pub flags: u8,
    pub alignment: u8,
    pub schema_hash_prefix: [u8; 8],
    pub root_offset: u64,
    pub symtab_offset: u32,
    pub index_offset: u32,
}

/// The bytes of the magic number.
pub open spec fn magic_bytes() -> Seq<u8> {
    seq![0x53u8, 0x55u8, 0x52u8, 0x50u8]
}

/// The 32 bytes a header is written as: magic, versions, flags,
/// alignment, schema hash prefix, then the root, symbol table and index
/// offsets in little-endian order.
pub open spec fn header_bytes(h: CbfHeader) -> Seq<u8> {
    magic_bytes() + seq![h.cbf_version, h.ctn_version, h.flags, h.alignment] + h.schema_hash_prefix@
        + spec_u64_to_le_bytes(h.root_offset) + spec_u32_to_le_bytes(h.symtab_offset) + spec_u32_to_le_bytes(
        h.index_offset,
    )
}

/// `h` is the header the 32 bytes at the start of `data` stand for.
pub open spec fn header_read_from(h: CbfHeader, data: Seq<u8>) -> bool {
    &&& data.len() >= 32
    &&& h.cbf_version == data[4]
    &&& h.ctn_version == data[5]
    &&& h.flags == data[6]
    &&& h.alignment == data[7]
    &&& h.schema_hash_prefix@ == data.subrange(8, 16)
    &&& h.root_offset == spec_u64_from_le_bytes(data.subrange(16, 24))
    &&& h.symtab_offset == spec_u32_from_le_bytes(data.subrange(24, 28))
    &&& h.index_offset == spec_u32_from_le_bytes(data.subrange(28, 32))
}

/// The error decoding a header from `data` fails with, if any.
pub open spec fn header_error(data: Seq<u8>) -> Option<SurpError> {
    if data.len() < 32 {
        Some(SurpError::UnexpectedEof(data.len() as usize))
    } else if data.subrange(0, 4) != magic_bytes() {
        Some(SurpError::InvalidMagic)
    } else if data[4] != 0x01 {
        Some(SurpError::UnsupportedVersion(data[4]))
    } else {
        None
    }
}

impl CbfHeader {
    /// A version 1 header for a self-describing file, with every offset 0.
    pub fn new() -> (h: Self)
        ensures
            h.cbf_version == 1,
            h.ctn_version == 1,
            h.flags == FLAG_SELF_DESCRIBING,
            h.alignment == 0,
            h.schema_hash_prefix@ == seq![0u8, 0u8, 0u8, 0u8, 0u8, 0u8, 0u8, 0u8],
            h.root_offset == 0,
            h.symtab_offset == 0,
            h.index_offset == 0,
    {
        let h = CbfHeader {
            cbf_version: 0x01,
            ctn_version: 0x01,
            flags: FLAG_SELF_DESCRIBING,
            alignment: 0,
            schema_hash_prefix: [0u8; 8],
            root_offset: 0,
            symtab_offset: 0,
            index_offset: 0,
        };
        proof {
            assert(h.schema_hash_prefix@ =~= seq![0u8, 0u8, 0u8, 0u8, 0u8, 0u8, 0u8, 0u8]);
        }
        h
    }

    /// Whether the symbol table flag is set.
    pub fn has_symtab(&self) -> (r: bool)
        ensures
            r == (self.flags & FLAG_HAS_SYMTAB != 0),
    {
        self.flags & FLAG_HAS_SYMTAB != 0
    }

    /// Whether the index flag is set.
    pub fn has_index(&self) -> (r: bool)
        ensures
            r == (self.flags & FLAG_HAS_INDEX != 0),
    {
        self.flags & FLAG_HAS_INDEX != 0
    }

    /// Whether the self-describing flag is set.
    pub fn self_describing(&self) -> (r: bool)
        ensures
            r == (self.flags & FLAG_SELF_DESCRIBING != 0),
    {
        self.flags & FLAG_SELF_DESCRIBING != 0
    }

    /// The 32 bytes this header is written as.
    pub fn encode(&self) -> (out: [u8; 32])
        ensures
            out@ == header_bytes(*self),
    {
        let mut out = [0u8; 32];
        out[0] = 0x53;
        out[1] = 0x55;
        out[2] = 0x52;
        out[3] = 0x50;
        out[4] = self.cbf_version;
        out[5] = self.ctn_version;
        out[6] = self.flags;
        out[7] = self.alignment;
        let mut i: usize = 0;
        while i < 8
            invariant
                i <= 8,
                forall|j: int| 0 <= j < 8 ==> out@[j] == header_bytes(*self)[j],
                forall|j: int| 8 <= j < 8 + i ==> out@[j] == header_bytes(*self)[j],
            decreases 8 - i,
        {
            out[8 + i] = self.schema_hash_prefix[i];
            i = i + 1;
        }
        let root = u64_to_le_bytes(self.root_offset);
        let symtab = u32_to_le_bytes(self.symtab_offset);
        let index = u32_to_le_bytes(self.index_offset);
        let mut k: usize = 0;
        while k < 8
            invariant
                k <= 8,
                root@ == spec_u64_to_le_bytes(self.root_offset),
                root@.len() == 8,
                forall|j: int| 0 <= j < 16 ==> out@[j] == header_bytes(*self)[j],
                forall|j: int| 16 <= j < 16 + k ==> out@[j] == header_bytes(*self)[j],
            decreases 8 - k,
        {
            out[16 + k] = root[k];
            k = k + 1;
        }
        let mut k: usize = 0;
        while k < 4
            invariant
                k <= 4,
                symtab@ == spec_u32_to_le_bytes(self.symtab_offset),
                index@ == spec_u32_to_le_bytes(self.index_offset),
                symtab@.len() == 4,
                index@.len() == 4,
                forall|j: int| 0 <= j < 24 ==> out@[j] == header_bytes(*self)[j],
                forall|j: int| 24 <= j < 24 + k ==> out@[j] == header_bytes(*self)[j],
                forall|j: int| 28 <= j < 28 + k ==> out@[j] == header_bytes(*self)[j],
            decreases 4 - k,
        {
            proof {
                vstd::bytes::lemma_auto_spec_u64_to_from_le_bytes();
                vstd::bytes::lemma_auto_spec_u32_to_from_le_bytes();
                let hb = header_bytes(*self);
                assert(hb.len() == 32);
                assert(hb[24 + k] == symtab@[k as int]);
                assert(hb[28 + k] == index@[k as int]);
            }
            out[24 + k] = symtab[k];
            out[28 + k] = index[k];
            k = k + 1;
        }
        proof {
            assert(out@ =~= header_bytes(*self));
        }
        out
    }

    /// Read a header from the first 32 bytes of `data`.
    pub fn decode(data: &[u8]) -> (r: Result<Self, SurpError>)
        ensures
            match header_error(data@) {
                Some(e) => r == Err::<CbfHeader, SurpError>(e),
                None => r matches Ok(h) && header_read_from(h, data@),
            },
    {
        if data.len() < CBF_HEADER_SIZE {
            return Err(SurpError::UnexpectedEof(data.len()));
        }
        if data[0] != 0x53 || data[1] != 0x55 || data[2] != 0x52 || data[3] != 0x50 {
            proof {
                assert(data@.subrange(0, 4) != magic_bytes()) by {
                    if data@.subrange(0, 4) == magic_bytes() {
                        assert(data@[0] == data@.subrange(0, 4)[0]);
                        assert(data@[1] == data@.subrange(0, 4)[1]);
                        assert(data@[2] == data@.subrange(0, 4)[2]);
                        assert(data@[3] == data@.subrange(0, 4)[3]);
                    }
                }
            }
            return Err(SurpError::InvalidMagic);
        }
        proof {
            assert(data@.subrange(0, 4) =~= magic_bytes());
        }
        let cbf_version = data[4];
        if cbf_version != 0x01 {
            return Err(SurpError::UnsupportedVersion(cbf_version));
        }
        let mut schema_hash_prefix = [0u8; 8];
        let mut i: usize = 0;
        while i < 8
            invariant
                i <= 8,
                data@.len() >= 32,
                forall|j: int| 0 <= j < i ==> schema_hash_prefix@[j] == data@[8 + j],
            decreases 8 - i,
        {
            schema_hash_prefix[i] = data[8 + i];
            i = i + 1;
        }
        proof {
            assert(schema_hash_prefix@ =~= data@.subrange(8, 16));
        }
        let root_offset = u64_from_le_bytes(vstd::slice::slice_subrange(data, 16, 24));
        let symtab_offset = u32_from_le_bytes(vstd::slice::slice_subrange(data, 24, 28));
        let index_offset = u32_from_le_bytes(vstd::slice::slice_subrange(data, 28, 32));
        Ok(CbfHeader {
            cbf_version,
            ctn_version: data[5],
            flags: data[6],
            alignment: data[7],
            schema_hash_prefix,
            root_offset,
            symtab_offset,
            index_offset,
        })
    }
}

/// A version 1 header is read back, field by field, from the bytes it is
/// written as; a header of any other version is refused.
pub proof fn law_header_roundtrip(h: CbfHeader)
    ensures
        h.cbf_version == 1 ==> header_error(header_bytes(h)) is None && header_read_from(h, header_bytes(h)),
        h.cbf_version != 1 ==> header_error(header_bytes(h)) == Some(SurpError::UnsupportedVersion(h.cbf_version)),
{
    let b = header_bytes(h);
    vstd::bytes::lemma_auto_spec_u64_to_from_le_bytes();
    vstd::bytes::lemma_auto_spec_u32_to_from_le_bytes();
    assert(b.subrange(0, 4) =~= magic_bytes());
    assert(b.subrange(8, 16) =~= h.schema_hash_prefix@);
    assert(b.subrange(16, 24) =~= spec_u64_to_le_bytes(h.root_offset));
    assert(b.subrange(24, 28) =~= spec_u32_to_le_bytes(h.symtab_offset));
    assert(b.subrange(28, 32) =~= spec_u32_to_le_bytes(h.index_offset));
}

/// Options for encoding a CBF document.
#[derive(Debug, Clone, Copy)]
pub struct EncodeOptions {
    /// Build and emit a symbol table for symbol literals and field names.
    pub with_symtab: bool,
    /// Alignment hint encoded into the file header.
    pub alignment: u8,
}

impl Default for EncodeOptions {
    fn default() -> (r: Self)
        ensures
            r.with_symtab,
            r.alignment == 0,
    {
        EncodeOptions { with_symtab: true, alignment: 0 }
    }
}


/// The header of a CBF segment: a type nibble and a configuration nibble
/// in one byte, then the payload length in three little-endian bytes, or
/// `FF FF FF` followed by the length in eight little-endian bytes.
#[derive(Debug, Clone, Copy, PartialEq, Eq)]
pub struct SegmentHeader {
    pub type_nibble: u8,
    pub config_nibble: u8,
    pub payload_len: usize,
    pub header_len: usize,
}

/// The bytes `write_segment_header` appends.
pub open spec fn segment_header_bytes(type_nibble: u8, config_nibble: u8, payload_len: usize) -> Seq<u8> {
    seq![(type_nibble * 16 + config_nibble) as u8] + if payload_len <= 0xFF_FFFF {
        seq![(payload_len % 256) as u8, ((payload_len / 256) % 256) as u8, (payload_len / 65536) as u8]
    } else {
        seq![0xFFu8, 0xFFu8, 0xFFu8] + spec_u64_to_le_bytes(payload_len as u64)
    }
}

/// The text of the error for a nibble above 15.
pub open spec fn bad_nibble_message() -> Seq<char> {
    "invalid segment header nibble"@
}

/// Append the header of a segment with the given nibbles and payload length.
pub fn write_segment_header(out: &mut Vec<u8>, type_nibble: u8, config_nibble: u8, payload_len: usize) -> (r: Result<
    (),
    SurpError,
>)
    ensures
        type_nibble > 0x0F || config_nibble > 0x0F ==> final(out)@ == old(out)@ && (r matches Err(e) && e@
            == ErrorModel::InvalidData(bad_nibble_message())),
        type_nibble <= 0x0F && config_nibble <= 0x0F ==> r is Ok && final(out)@ == old(out)@ + segment_header_bytes(
            type_nibble,
            config_nibble,
            payload_len,
        ),
{
    if type_nibble > 0x0F || config_nibble > 0x0F {
        return Err(SurpError::InvalidData(String::from_str("invalid segment header nibble")));
    }
    let first = (type_nibble << 4) | (config_nibble & 0x0F);
    assert(type_nibble <= 0x0F && config_nibble <= 0x0F ==> (type_nibble << 4) | (config_nibble & 0x0F) == type_nibble
        * 16 + config_nibble) by (bit_vector);
    let ghost before = out@;
    out.push(first);
    if payload_len <= 0xFF_FFFF {
        let b0 = (payload_len & 0xFF) as u8;
        let b1 = ((payload_len >> 8) & 0xFF) as u8;
        let b2 = ((payload_len >> 16) & 0xFF) as u8;
        assert((payload_len & 0xFF) == payload_len % 256) by (bit_vector);
        assert(((payload_len >> 8) & 0xFF) == (payload_len / 256) % 256) by (bit_vector);
        assert(payload_len <= 0xFF_FFFF ==> ((payload_len >> 16) & 0xFF) == payload_len / 65536) by (bit_vector);
        out.push(b0);
        out.push(b1);
        out.push(b2);
        proof {
            assert(out@ =~= before + segment_header_bytes(type_nibble, config_nibble, payload_len));
        }
    } else {
        out.push(0xFF);
        out.push(0xFF);
        out.push(0xFF);
        let le = u64_to_le_bytes(payload_len as u64);
        out.extend_from_slice(le.as_slice());
        proof {
            assert(out@ =~= before + segment_header_bytes(type_nibble, config_nibble, payload_len));
        }
    }
    Ok(())
}

/// The three-byte little-endian length at `off` of `d`.
pub open spec fn len24(d: Seq<u8>, off: int) -> int {
    d[off] + d[off + 1] * 256 + d[off + 2] * 65536
}

/// Reading the segment header at `off` of `d`: its nibbles, payload length
/// and header length.
pub open spec fn parse_segment(d: Seq<u8>, off: int) -> Result<(u8, u8, usize, usize), SurpError> {
    if off + 4 > d.len() {
        Err(SurpError::UnexpectedEof(off as usize))
    } else {
        let first = d[off];
        if len24(d, off + 1) == 0xFF_FFFF {
            if off + 12 > d.len() {
                Err(SurpError::UnexpectedEof((off + 4) as usize))
            } else {
                let big = spec_u64_from_le_bytes(d.subrange(off + 4, off + 12));
                if big > usize::MAX {
                    Err(SurpError::LengthOverflow(big))
                } else {
                    Ok((first / 16, first % 16, big as usize, 12))
                }
            }
        } else {
            Ok((first / 16, first % 16, len24(d, off + 1) as usize, 4))
        }
    }
}

/// Read the segment header at `offset` of `data`.
pub fn parse_segment_header(data: &[u8], offset: usize) -> (r: Result<SegmentHeader, SurpError>)
    ensures
        match parse_segment(data@, offset as int) {
            Ok((t, c, len, hl)) => r == Ok::<SegmentHeader, SurpError>(
                SegmentHeader { type_nibble: t, config_nibble: c, payload_len: len, header_len: hl },
            ),
            Err(e) => r == Err::<SegmentHeader, SurpError>(e),
        },
{
    if data.len() < 4 || offset > data.len() - 4 {
        return Err(SurpError::UnexpectedEof(offset));
    }
    let first = data[offset];
    let type_nibble = first >> 4;
    let config_nibble = first & 0x0F;
    assert(first >> 4 == first / 16 && first & 0x0F == first % 16) by (bit_vector);
    let b0 = data[offset + 1] as usize;
    let b1 = data[offset + 2] as usize;
    let b2 = data[offset + 3] as usize;
    let mut len = b0 | (b1 << 8) | (b2 << 16);
    assert(b0 < 256 && b1 < 256 && b2 < 256 ==> b0 | (b1 << 8) | (b2 << 16) == b0 + b1 * 256 + b2 * 65536)
        by (bit_vector);
    let mut header_len: usize = 4;
    if len == 0xFF_FFFF {
        if data.len() < 12 || offset > data.len() - 12 {
            return Err(SurpError::UnexpectedEof(offset + 4));
        }
        let big_len = u64_from_le_bytes(vstd::slice::slice_subrange(data, offset + 4, offset + 12));
        len = match safe_usize(big_len) {
            Ok(x) => x,
            Err(e) => {
                return Err(e);
            },
        };
        header_len = 12;
    }
    Ok(SegmentHeader { type_nibble, config_nibble, payload_len: len, header_len })
}

/// A segment header is read back from the bytes it is written as, unless
/// its payload length is exactly `0xFF_FFFF`, whose three-byte form reads
/// as the mark of an extended length.
pub proof fn law_segment_header_roundtrip(type_nibble: u8, config_nibble: u8, payload_len: usize, rest: Seq<u8>)
    requires
        type_nibble <= 0x0F,
        config_nibble <= 0x0F,
        payload_len != 0xFF_FFFF,
    ensures
        parse_segment(segment_header_bytes(type_nibble, config_nibble, payload_len) + rest, 0) == Ok::<
            (u8, u8, usize, usize),
            SurpError,
        >((type_nibble, config_nibble, payload_len, if payload_len <= 0xFF_FFFF { 4usize } else { 12usize })),
{
    let d = segment_header_bytes(type_nibble, config_nibble, payload_len) + rest;
    let first = (type_nibble * 16 + config_nibble) as u8;
    assert(d[0] == first);
    assert(first / 16 == type_nibble && first % 16 == config_nibble);
    if payload_len <= 0xFF_FFFF {
        assert(len24(d, 1) == payload_len);
    } else {
        vstd::bytes::lemma_auto_spec_u64_to_from_le_bytes();
        assert(d[1] == 0xFFu8 && d[2] == 0xFFu8 && d[3] == 0xFFu8);
        assert(d.subrange(4, 12) =~= spec_u64_to_le_bytes(payload_len as u64));
    }
}

/// The entries of a symbol table: each symbol's UTF-8 length as a varint,
/// then its bytes.
pub open spec fn symbol_entries(symbols: Seq<Seq<char>>) -> Seq<u8>
    decreases symbols.len(),
{
    if symbols.len() == 0 {
        Seq::empty()
    } else {
        varint_bytes(encode_utf8(symbols[0]).len() as u64) + encode_utf8(symbols[0]) + symbol_entries(
            symbols.drop_first(),
        )
    }
}

/// A symbol table: the symbol count as four little-endian bytes, then the entries.
pub open spec fn symbol_table_bytes(symbols: Seq<Seq<char>>) -> Seq<u8> {
    spec_u32_to_le_bytes(symbols.len() as u32) + symbol_entries(symbols)
}

/// Encode a symbol table.
pub fn encode_symbol_table(symbols: &[String]) -> (out: Vec<u8>)
    ensures
        out@ == symbol_table_bytes(symbols@.map_values(|s: String| s@)),
{
    let ghost syms = symbols@.map_values(|s: String| s@);
    let count = u32_to_le_bytes(symbols.len() as u32);
    let mut out: Vec<u8> = Vec::new();
    out.extend_from_slice(count.as_slice());
    let mut i: usize = 0;
    proof {
        assert(syms.skip(0) =~= syms);
    }
    while i < symbols.len()
        invariant
            i <= symbols@.len(),
            syms == symbols@.map_values(|s: String| s@),
            symbol_table_bytes(syms) == out@ + symbol_entries(syms.skip(i as int)),
        decreases symbols@.len() - i,
    {
        let bytes = symbols[i].as_str().as_bytes();
        let ghost before = out@;
        encode_varint_vec(bytes.len() as u64, &mut out);
        out.extend_from_slice(bytes);
        proof {
            assert(syms.skip(i as int).drop_first() =~= syms.skip(i + 1));
            assert(syms.skip(i as int)[0] == syms[i as int]);
            assert(out@ =~= before + (varint_bytes(encode_utf8(syms[i as int]).len() as u64) + encode_utf8(syms[i as int])));
        }
        i = i + 1;
    }
    proof {
        assert(out@ + Seq::<u8>::empty() =~= out@);
    }
    out
}

/// Reading `k` symbols from `pos` of `d`.
pub open spec fn parse_symbols(d: Seq<u8>, pos: int, k: nat) -> Result<Seq<Seq<char>>, SurpError>
    decreases k,
{
    if k == 0 {
        Ok(Seq::empty())
    } else {
        match spec_decode_varint(d, pos) {
            Err(e) => Err(e),
            Ok((len64, c)) => {
                let p = pos + c;
                if len64 > usize::MAX || p + len64 > usize::MAX {
                    Err(SurpError::LengthOverflow(len64))
                } else if p + len64 > d.len() {
                    Err(SurpError::UnexpectedEof((p + len64) as usize))
                } else if !valid_utf8(d.subrange(p, p + len64)) {
                    Err(SurpError::InvalidUtf8(p as usize))
                } else {
                    match parse_symbols(d, p + len64, (k - 1) as nat) {
                        Err(e) => Err(e),
                        Ok(rest) => Ok(seq![decode_utf8(d.subrange(p, p + len64))] + rest),
                    }
                }
            },
        }
    }
}

/// Reading a symbol table at `off` of `d`.
pub open spec fn parse_symbol_table(d: Seq<u8>, off: int) -> Result<Seq<Seq<char>>, SurpError> {
    if off + 4 > d.len() {
        Err(SurpError::UnexpectedEof(off as usize))
    } else {
        parse_symbols(d, off + 4, spec_u32_from_le_bytes(d.subrange(off, off + 4)) as nat)
    }
}

/// The symbols `pre` already read, followed by the outcome `r` of reading the rest.
pub open spec fn glue_symbols(pre: Seq<Seq<char>>, r: Result<Seq<Seq<char>>, SurpError>) -> Result<
    Seq<Seq<char>>,
    SurpError,
> {
    match r {
        Ok(rest) => Ok(pre + rest),
        Err(e) => Err(e),
    }
}

/// Decode the symbol table at `offset` of `payload`.
pub fn decode_symbol_table(payload: &[u8], offset: usize) -> (r: Result<Vec<String>, SurpError>)
    ensures
        match parse_symbol_table(payload@, offset as int) {
            Ok(syms) => r matches Ok(v) && v@.map_values(|s: String| s@) == syms,
            Err(e) => r == Err::<Vec<String>, SurpError>(e),
        },
{
    if payload.len() < 4 || offset > payload.len() - 4 {
        return Err(SurpError::UnexpectedEof(offset));
    }
    let count = u32_from_le_bytes(vstd::slice::slice_subrange(payload, offset, offset + 4)) as usize;
    let ghost whole = parse_symbol_table(payload@, offset as int);
    let mut pos = offset + 4;
    let mut symbols: Vec<String> = Vec::new();
    let mut i: usize = 0;
    proof {
        assert(symbols@.map_values(|s: String| s@) =~= Seq::<Seq<char>>::empty());
        match whole {
            Ok(ss) => {
                assert(Seq::<Seq<char>>::empty() + ss =~= ss);
            },
            Err(_) => {},
        }
    }
    while i < count
        invariant
            i <= count,
            pos <= payload@.len(),
            whole == parse_symbol_table(payload@, offset as int),
            whole == glue_symbols(symbols@.map_values(|s: String| s@), parse_symbols(payload@, pos as int, (count - i) as nat)),
        decreases count - i,
    {
        let ghost pre = symbols@.map_values(|s: String| s@);
        let ghost k = (count - i) as nat;
        let (len64, consumed) = match decode_varint(payload, pos) {
            Ok(x) => x,
            Err(e) => {
                return Err(e);
            },
        };
        pos = pos + consumed;
        let len = match safe_usize(len64) {
            Ok(x) => x,
            Err(e) => {
                return Err(e);
            },
        };
        let end = match pos.checked_add(len) {
            Some(x) => x,
            None => {
                return Err(SurpError::LengthOverflow(len as u64));
            },
        };
        if end > payload.len() {
            return Err(SurpError::UnexpectedEof(end));
        }
        let sym = match utf8_str(vstd::slice::slice_subrange(payload, pos, end)) {
            Some(s) => s.to_owned(),
            None => {
                return Err(SurpError::InvalidUtf8(pos));
            },
        };
        symbols.push(sym);
        proof {
            assert((k - 1) as nat == (count - (i + 1)) as nat);
            let s_now = symbols@.map_values(|s: String| s@);
            assert(s_now =~= pre.push(decode_utf8(payload@.subrange(pos as int, end as int))));
            match parse_symbols(payload@, end as int, (k - 1) as nat) {
                Ok(rest) => {
                    assert(pre + (seq![decode_utf8(payload@.subrange(pos as int, end as int))] + rest) =~= s_now + rest);
                },
                Err(_) => {},
            }
        }
        pos = end;
        i = i + 1;
    }
    proof {
        assert(symbols@.map_values(|s: String| s@) + Seq::<Seq<char>>::empty() =~= symbols@.map_values(|s: String| s@));
    }
    Ok(symbols)
}

/// The CRC-64/ECMA polynomial.
pub open spec fn crc64_poly() -> u64 {
    0x42F0_E1EB_A9EA_3693
}

/// One bit step of the CRC: shift left, folding in the polynomial when the
/// top bit falls out.
pub open spec fn crc_bit(crc: u64) -> u64 {
    if crc & 0x8000_0000_0000_0000 != 0 {
        ((crc << 1u64) ^ crc64_poly()) as u64
    } else {
        (crc << 1u64) as u64
    }
}

/// `n` bit steps of the CRC.
pub open spec fn crc_bits(crc: u64, n: nat) -> u64
    decreases n,
{
    if n == 0 {
        crc
    } else {
        crc_bits(crc_bit(crc), (n - 1) as nat)
    }
}

/// The CRC-64/ECMA of `data` (initial value 0, no reflection, no final
/// XOR), one byte at a time.
pub open spec fn crc64_of(data: Seq<u8>) -> u64
    decreases data.len(),
{
    if data.len() == 0 {
        0
    } else {
        crc_bits(crc64_of(data.drop_last()) ^ ((data.last() as u64) << 56u64), 8)
    }
}

/// The CRC-64/ECMA checksum of `data`.
pub fn crc64_ecma(data: &[u8]) -> (r: u64)
    ensures
        r == crc64_of(data@),
{
    let mut crc: u64 = 0;
    let mut i: usize = 0;
    while i < data.len()
        invariant
            i <= data@.len(),
            crc == crc64_of(data@.take(i as int)),
        decreases data@.len() - i,
    {
        proof {
            assert(data@.take(i + 1).drop_last() =~= data@.take(i as int));
        }
        crc = crc ^ ((data[i] as u64) << 56);
        let ghost start = crc;
        let mut b: u32 = 0;
        while b < 8
            invariant
                b <= 8,
                crc_bits(crc, (8 - b) as nat) == crc_bits(start, 8),
            decreases 8 - b,
        {
            if (crc & 0x8000_0000_0000_0000) != 0 {
                crc = (crc << 1) ^ 0x42F0_E1EB_A9EA_3693;
            } else {
                crc = crc << 1;
            }
            b = b + 1;
        }
        i = i + 1;
    }
    proof {
        assert(data@.take(data@.len() as int) =~= data@);
    }
    crc
}


pub(crate) proof fn lemma_parse_symbol_entries(d: Seq<u8>, pos: int, syms: Seq<Seq<char>>)
    requires
        holds_at(d, pos, symbol_entries(syms)),
        d.len() <= usize::MAX,
    ensures
        parse_symbols(d, pos, syms.len()) == Ok::<Seq<Seq<char>>, SurpError>(syms),
    decreases syms.len(),
{
    if syms.len() == 0 {
        assert(syms =~= Seq::<Seq<char>>::empty());
    } else {
        let b = encode_utf8(syms[0]);
        let vl = varint_bytes(b.len() as u64);
        let rest = syms.drop_first();
        assert(symbol_entries(syms) == vl + b + symbol_entries(rest));
        lemma_holds_split(d, pos, vl + b, symbol_entries(rest));
        lemma_holds_split(d, pos, vl, b);
        lemma_varint_held(d, pos, b.len() as u64);
        vstd::utf8::encode_utf8_valid_utf8(syms[0]);
        vstd::utf8::encode_utf8_decode_utf8(syms[0]);
        let p = pos + vl.len();
        assert(d.subrange(p, p + b.len()) == b);
        lemma_parse_symbol_entries(d, p + b.len(), rest);
        assert(((syms.len() as nat) - 1) as nat == rest.len());
        assert(seq![syms[0]] + rest =~= syms);
    }
}

/// A symbol table is read back from the bytes it is written as, when it
/// has at most `u32::MAX` symbols (the count field's range).
pub proof fn law_symbol_table_roundtrip(syms: Seq<Seq<char>>)
    requires
        syms.len() <= u32::MAX,
        symbol_table_bytes(syms).len() <= usize::MAX,
    ensures
        parse_symbol_table(symbol_table_bytes(syms), 0) == Ok::<Seq<Seq<char>>, SurpError>(syms),
{
    let d = symbol_table_bytes(syms);
    vstd::bytes::lemma_auto_spec_u32_to_from_le_bytes();
    let c = spec_u32_to_le_bytes(syms.len() as u32);
    assert(d.subrange(0, 4) =~= c);
    assert(d.subrange(0, d.len() as int) =~= d);
    lemma_holds_split(d, 0, c, symbol_entries(syms));
    lemma_parse_symbol_entries(d, 4, syms);
}

} // verus!

//! The meaning of a data block's bytes: how the decoder reads a value,
//! and what state it leaves behind, as mathematical functions.
//!
//! Decoding reads from the block data `d`, never past `end` for anything
//! but varints, and threads a state: the read position, the nesting depth,
//! the memory charged so far and the table of strings seen in the block
//! (which `Reference` items index). The zero-copy decoder (`zc`) also
//! charges the element storage of arrays and objects to the memory limit.

use crate::error::SurpError;
use crate::limits::Limits;
use crate::value::{SurpValue, ValueModel};
use crate::varint::{spec_decode_signed_varint, spec_decode_varint};
use crate::wire::{spec_from_tag, WireType};
use vstd::bytes::spec_u64_from_le_bytes;
use vstd::prelude::*;
use vstd::utf8::{decode_utf8, valid_utf8};

verus! {

/// The decoding state threaded through a block.
pub struct DecState {
    pub pos: int,
    pub depth: int,
    pub mem: int,
    pub table: Seq<Seq<char>>,
}

/// `x` capped at `usize::MAX`, as saturating arithmetic computes it.
pub open spec fn sat(x: int) -> int {
    if x > usize::MAX {
        usize::MAX as int
    } else {
        x
    }
}

/// `x` reduced modulo `usize::MAX + 1`, for `0 <= x <= 2 * usize::MAX + 1`:
/// what wrapping `usize` addition computes.
pub open spec fn wrap_usize(x: int) -> usize {
    if x > usize::MAX {
        (x - usize::MAX - 1) as usize
    } else {
        x as usize
    }
}

/// The memory charged for the element storage of an array of `count` items.
pub open spec fn array_charge(count: int) -> int {
    sat((if count < 1024 { count } else { 1024 }) * vstd::layout::size_of::<SurpValue>())
}

/// The memory charged for the entry storage of an object of `count` entries.
pub open spec fn object_charge(count: int) -> int {
    sat(
        (if count < 1024 { count } else { 1024 }) * sat(
            (vstd::layout::size_of::<&str>() + vstd::layout::size_of::<SurpValue>()) as int,
        ),
    )
}

/// Charging `bytes` to the memory budget: the new total (saturating) and
/// whether it stays within `max_memory`.
pub open spec fn charge(st: DecState, bytes: int, lim: Limits) -> (DecState, Option<SurpError>) {
    let m = sat(st.mem + bytes);
    let st2 = DecState { mem: m, ..st };
    if m > lim.max_memory {
        (st2, Some(SurpError::MemoryLimitExceeded(m as usize, lim.max_memory)))
    } else {
        (st2, None)
    }
}

/// `st` moved to position `p`.
pub open spec fn at(st: DecState, p: int) -> DecState {
    DecState { pos: p, ..st }
}

/// Decoding one value at `st.pos`.
pub open spec fn dec_value(d: Seq<u8>, end: int, lim: Limits, zc: bool, st: DecState) -> (
    Result<ValueModel, SurpError>,
    DecState,
)
    decreases d.len() - st.pos, 0int,
{
    let pos = st.pos;
    if pos < 0 || pos >= end || pos >= d.len() {
        (Err(SurpError::UnexpectedEof(pos as usize)), st)
    } else {
        let tag = d[pos];
        let p1 = pos + 1;
        match spec_from_tag(tag) {
            None => (Err(SurpError::InvalidWireType(tag)), at(st, p1)),
            Some(WireType::Null) => (Ok(ValueModel::Null), at(st, p1)),
            Some(WireType::Bool) => {
                if p1 >= end {
                    (Err(SurpError::UnexpectedEof(p1 as usize)), at(st, p1))
                } else {
                    (Ok(ValueModel::Bool(d[p1] != 0)), at(st, p1 + 1))
                }
            },
            Some(WireType::VarUInt) => match spec_decode_varint(d, p1) {
                Err(e) => (Err(e), at(st, p1)),
                Ok((v, c)) => (Ok(ValueModel::UInt(v)), at(st, p1 + c)),
            },
            Some(WireType::VarInt) => match spec_decode_signed_varint(d, p1) {
                Err(e) => (Err(e), at(st, p1)),
                Ok((v, c)) => (Ok(ValueModel::Int(v)), at(st, p1 + c)),
            },
            Some(WireType::Fixed64) => {
                if p1 + 8 > end {
                    (Err(SurpError::UnexpectedEof(p1 as usize)), at(st, p1))
                } else {
                    (Ok(ValueModel::Float(spec_u64_from_le_bytes(d.subrange(p1, p1 + 8)))), at(st, p1 + 8))
                }
            },
            Some(WireType::LenDelimited) => dec_len_delimited(d, end, lim, zc, at(st, p1)),
            Some(WireType::StartArray) => dec_array(d, end, lim, zc, at(st, p1)),
            Some(WireType::StartObject) => dec_object(d, end, lim, zc, at(st, p1)),
            Some(WireType::EndObject) => (Err(SurpError::InvalidWireType(tag)), at(st, p1)),
            Some(WireType::EndArray) => (Err(SurpError::InvalidWireType(tag)), at(st, p1)),
            Some(WireType::Reference) => match spec_decode_varint(d, p1) {
                Err(e) => (Err(e), at(st, p1)),
                Ok((id64, c)) => {
                    let p2 = p1 + c;
                    if id64 > usize::MAX {
                        (Err(SurpError::LengthOverflow(id64)), at(st, p2))
                    } else if id64 < st.table.len() {
                        (Ok(ValueModel::Str(st.table[id64 as int])), at(st, p2))
                    } else {
                        (Err(SurpError::InvalidReference(id64 as usize, st.table.len() as usize)), at(st, p2))
                    }
                },
            },
        }
    }
}

/// The end of an array: after its items, the depth drops back and an end
/// tag, if present, is consumed.
pub open spec fn array_tail(d: Seq<u8>, end: int, inner: (Result<Seq<ValueModel>, SurpError>, DecState)) -> (
    Result<ValueModel, SurpError>,
    DecState,
) {
    match inner.0 {
        Err(e) => (Err(e), inner.1),
        Ok(items) => {
            let s3 = DecState { depth: inner.1.depth - 1, ..inner.1 };
            let s4 = if s3.pos < end && 0 <= s3.pos < d.len() && d[s3.pos] == 0x09 {
                at(s3, s3.pos + 1)
            } else {
                s3
            };
            (Ok(ValueModel::Array(items)), s4)
        },
    }
}

/// The end of an object: after its entries, the depth drops back and an
/// end tag, if present, is consumed.
pub open spec fn object_tail(
    d: Seq<u8>,
    end: int,
    inner: (Result<Seq<(Seq<char>, ValueModel)>, SurpError>, DecState),
) -> (Result<ValueModel, SurpError>, DecState) {
    match inner.0 {
        Err(e) => (Err(e), inner.1),
        Ok(entries) => {
            let s3 = DecState { depth: inner.1.depth - 1, ..inner.1 };
            let s4 = if s3.pos < end && 0 <= s3.pos < d.len() && d[s3.pos] == 0x07 {
                at(s3, s3.pos + 1)
            } else {
                s3
            };
            (Ok(ValueModel::Object(entries)), s4)
        },
    }
}

/// Decoding an array whose tag has been read: varint item count, items,
/// and the end tag if it follows.
pub open spec fn dec_array(d: Seq<u8>, end: int, lim: Limits, zc: bool, st: DecState) -> (
    Result<ValueModel, SurpError>,
    DecState,
)
    decreases d.len() - st.pos, 2int,
{
    if st.depth >= lim.max_nesting_depth {
        (Err(SurpError::NestingTooDeep(st.depth as usize, lim.max_nesting_depth)), st)
    } else {
        match spec_decode_varint(d, st.pos) {
            Err(e) => (Err(e), st),
            Ok((count64, c)) => {
                let p2 = st.pos + c;
                if count64 > usize::MAX {
                    (Err(SurpError::LengthOverflow(count64)), at(st, p2))
                } else if count64 > lim.max_items {
                    (Err(SurpError::TooManyItems(count64 as usize, lim.max_items)), at(st, p2))
                } else {
                    let (st_c, ce) = if zc {
                        charge(at(st, p2), array_charge(count64 as int), lim)
                    } else {
                        (at(st, p2), None)
                    };
                    if ce is Some {
                        (Err(ce->0), st_c)
                    } else if p2 <= st.pos || p2 > d.len() {
                        (Err(SurpError::UnexpectedEof(st.pos as usize)), st)
                    } else {
                        array_tail(d, end, dec_items(d, end, lim, zc, DecState { depth: st.depth + 1, ..st_c }, count64 as nat))
                    }
                }
            },
        }
    }
}

/// Decoding an object whose tag has been read: varint entry count,
/// entries, and the end tag if it follows.
pub open spec fn dec_object(d: Seq<u8>, end: int, lim: Limits, zc: bool, st: DecState) -> (
    Result<ValueModel, SurpError>,
    DecState,
)
    decreases d.len() - st.pos, 2int,
{
    if st.depth >= lim.max_nesting_depth {
        (Err(SurpError::NestingTooDeep(st.depth as usize, lim.max_nesting_depth)), st)
    } else {
        match spec_decode_varint(d, st.pos) {
            Err(e) => (Err(e), st),
            Ok((count64, c)) => {
                let p2 = st.pos + c;
                if count64 > usize::MAX {
                    (Err(SurpError::LengthOverflow(count64)), at(st, p2))
                } else if count64 > lim.max_items {
                    (Err(SurpError::TooManyItems(count64 as usize, lim.max_items)), at(st, p2))
                } else {
                    let (st_c, ce) = if zc {
                        charge(at(st, p2), object_charge(count64 as int), lim)
                    } else {
                        (at(st, p2), None)
                    };
                    if ce is Some {
                        (Err(ce->0), st_c)
                    } else if p2 <= st.pos || p2 > d.len() {
                        (Err(SurpError::UnexpectedEof(st.pos as usize)), st)
                    } else {
                        object_tail(d, end, dec_entries(d, end, lim, zc, DecState { depth: st.depth + 1, ..st_c }, count64 as nat))
                    }
                }
            },
        }
    }
}

/// Decoding the payload of a length-delimited item whose tag has been
/// read: sub-type byte, varint length, bytes. Sub-type 0 is a UTF-8
/// string, which joins the block's string table; any other sub-type is a
/// byte string.
pub open spec fn dec_len_delimited(d: Seq<u8>, end: int, lim: Limits, zc: bool, st: DecState) -> (
    Result<ValueModel, SurpError>,
    DecState,
) {
    let p1 = st.pos;
    if p1 >= end {
        (Err(SurpError::UnexpectedEof(p1 as usize)), st)
    } else {
        let sub = d[p1];
        let p2 = p1 + 1;
        match spec_decode_varint(d, p2) {
            Err(e) => (Err(e), at(st, p2)),
            Ok((len64, c)) => {
                let p3 = p2 + c;
                if len64 > usize::MAX {
                    (Err(SurpError::LengthOverflow(len64)), at(st, p3))
                } else if len64 > lim.max_string_length {
                    (Err(SurpError::StringTooLong(len64 as usize, lim.max_string_length)), at(st, p3))
                } else {
                    let len = len64 as int;
                    let (st_c, ce) = charge(at(st, p3), len, lim);
                    if ce is Some {
                        (Err(ce->0), st_c)
                    } else if p3 + len > end {
                        (Err(SurpError::UnexpectedEof(wrap_usize(p3 + len))), st_c)
                    } else {
                        let payload = d.subrange(p3, p3 + len);
                        let st4 = at(st_c, p3 + len);
                        if sub == 0 {
                            if !valid_utf8(payload) {
                                (Err(SurpError::InvalidUtf8(p3 as usize)), st4)
                            } else {
                                let s = decode_utf8(payload);
                                (Ok(ValueModel::Str(s)), DecState { table: st4.table.push(s), ..st4 })
                            }
                        } else {
                            (Ok(ValueModel::Bytes(payload)), st4)
                        }
                    }
                }
            },
        }
    }
}

/// Decoding `count` values in a row.
pub open spec fn dec_items(d: Seq<u8>, end: int, lim: Limits, zc: bool, st: DecState, count: nat) -> (
    Result<Seq<ValueModel>, SurpError>,
    DecState,
)
    decreases d.len() - st.pos, 1int,
{
    if count == 0 {
        (Ok(Seq::empty()), st)
    } else {
        let first = dec_value(d, end, lim, zc, st);
        match first.0 {
            Err(e) => (Err(e), first.1),
            Ok(v) => {
                if first.1.pos <= st.pos || first.1.pos > d.len() {
                    (Err(SurpError::UnexpectedEof(st.pos as usize)), first.1)
                } else {
                    let rest = dec_items(d, end, lim, zc, first.1, (count - 1) as nat);
                    match rest.0 {
                        Err(e) => (Err(e), rest.1),
                        Ok(vs) => (Ok(seq![v] + vs), rest.1),
                    }
                }
            },
        }
    }
}

/// Decoding the key of an object entry: varint byte length, UTF-8 bytes.
pub open spec fn dec_key(d: Seq<u8>, end: int, st: DecState) -> (Result<Seq<char>, SurpError>, DecState) {
    match spec_decode_varint(d, st.pos) {
        Err(e) => (Err(e), st),
        Ok((len64, c)) => {
            let p = st.pos + c;
            if len64 > usize::MAX {
                (Err(SurpError::LengthOverflow(len64)), at(st, p))
            } else if p + len64 > end {
                (Err(SurpError::UnexpectedEof(wrap_usize(p + len64))), at(st, p))
            } else {
                let kb = d.subrange(p, p + len64);
                if !valid_utf8(kb) {
                    (Err(SurpError::InvalidUtf8(p as usize)), at(st, p))
                } else {
                    (Ok(decode_utf8(kb)), at(st, p + len64))
                }
            }
        },
    }
}

/// Decoding `count` object entries in a row.
pub open spec fn dec_entries(
    d: Seq<u8>,
    end: int,
    lim: Limits,
    zc: bool,
    st: DecState,
    count: nat,
) -> (Result<Seq<(Seq<char>, ValueModel)>, SurpError>, DecState)
    decreases d.len() - st.pos, 1int,
{
    if count == 0 {
        (Ok(Seq::empty()), st)
    } else {
        let k = dec_key(d, end, st);
        match k.0 {
            Err(e) => (Err(e), k.1),
            Ok(key) => {
                if k.1.pos < st.pos || k.1.pos > d.len() {
                    (Err(SurpError::UnexpectedEof(k.1.pos as usize)), k.1)
                } else {
                    let first = dec_value(d, end, lim, zc, k.1);
                    match first.0 {
                        Err(e) => (Err(e), first.1),
                        Ok(v) => {
                            if first.1.pos <= st.pos || first.1.pos > d.len() {
                                (Err(SurpError::UnexpectedEof(st.pos as usize)), first.1)
                            } else {
                                let rest = dec_entries(d, end, lim, zc, first.1, (count - 1) as nat);
                                match rest.0 {
                                    Err(e) => (Err(e), rest.1),
                                    Ok(es) => (Ok(seq![(key, v)] + es), rest.1),
                                }
                            }
                        },
                    }
                }
            },
        }
    }
}

/// The outcome of skipping: the error that stopped it, if any, and the
/// position and nesting depth reached.
pub type SkipOutcome = (Result<(), SurpError>, int, int);

/// Skipping one value at `pos` in `d` without building it. Every length
/// is checked against `end`, and item counts and nesting against `lim`.
pub open spec fn skip_value(d: Seq<u8>, end: int, lim: Limits, pos: int, depth: int) -> SkipOutcome
    decreases d.len() - pos, 0int,
{
    if pos < 0 || pos >= end || pos >= d.len() {
        (Err(SurpError::UnexpectedEof(pos as usize)), pos, depth)
    } else {
        let tag = d[pos];
        let p1 = pos + 1;
        match spec_from_tag(tag) {
            None => (Err(SurpError::InvalidWireType(tag)), p1, depth),
            Some(WireType::Null) => (Ok(()), p1, depth),
            Some(WireType::EndObject) => (Ok(()), p1, depth),
            Some(WireType::EndArray) => (Ok(()), p1, depth),
            Some(WireType::Bool) => {
                if p1 >= end {
                    (Err(SurpError::UnexpectedEof(p1 as usize)), p1, depth)
                } else {
                    (Ok(()), p1 + 1, depth)
                }
            },
            Some(WireType::VarUInt) => skip_varint(d, end, p1, depth),
            Some(WireType::VarInt) => skip_varint(d, end, p1, depth),
            Some(WireType::Reference) => skip_varint(d, end, p1, depth),
            Some(WireType::Fixed64) => {
                if p1 + 8 > end {
                    (Err(SurpError::UnexpectedEof(p1 as usize)), p1, depth)
                } else {
                    (Ok(()), p1 + 8, depth)
                }
            },
            Some(WireType::LenDelimited) => {
                if p1 >= end {
                    (Err(SurpError::UnexpectedEof(p1 as usize)), p1, depth)
                } else {
                    let p2 = p1 + 1;
                    match spec_decode_varint(d, p2) {
                        Err(e) => (Err(e), p2, depth),
                        Ok((len64, c)) => {
                            let p3 = p2 + c;
                            if len64 > usize::MAX {
                                (Err(SurpError::LengthOverflow(len64)), p3, depth)
                            } else if p3 + len64 > end {
                                (Err(SurpError::UnexpectedEof(wrap_usize(p3 + len64))), p3, depth)
                            } else {
                                (Ok(()), p3 + len64, depth)
                            }
                        },
                    }
                }
            },
            Some(WireType::StartArray) => skip_container(d, end, lim, p1, depth, false),
            Some(WireType::StartObject) => skip_container(d, end, lim, p1, depth, true),
        }
    }
}

/// Skipping a varint payload at `p1`, which must start before `end` and
/// end by it.
pub open spec fn skip_varint(d: Seq<u8>, end: int, p1: int, depth: int) -> SkipOutcome {
    if p1 >= end {
        (Err(SurpError::UnexpectedEof(p1 as usize)), p1, depth)
    } else {
        match spec_decode_varint(d, p1) {
            Err(e) => (Err(e), p1, depth),
            Ok((_, c)) => {
                if p1 + c > end {
                    (Err(SurpError::UnexpectedEof((p1 + c) as usize)), p1, depth)
                } else {
                    (Ok(()), p1 + c, depth)
                }
            },
        }
    }
}

/// Skipping an array or object whose tag has been read: varint count
/// (which must lie before `end`), the items (or key/value entries), and
/// the end tag if it follows.
pub open spec fn skip_container(d: Seq<u8>, end: int, lim: Limits, p1: int, depth: int, object: bool) -> SkipOutcome
    decreases d.len() - p1, 2int,
{
    if p1 >= end {
        (Err(SurpError::UnexpectedEof(p1 as usize)), p1, depth)
    } else {
    match spec_decode_varint(d, p1) {
        Err(e) => (Err(e), p1, depth),
        Ok((count64, c)) => {
            let p2 = p1 + c;
            if p2 > end {
                (Err(SurpError::UnexpectedEof(p2 as usize)), p1, depth)
            } else if count64 > usize::MAX {
                (Err(SurpError::LengthOverflow(count64)), p2, depth)
            } else if count64 > lim.max_items {
                (Err(SurpError::TooManyItems(count64 as usize, lim.max_items)), p2, depth)
            } else if depth >= lim.max_nesting_depth {
                (Err(SurpError::NestingTooDeep(depth as usize, lim.max_nesting_depth)), p2, depth)
            } else if p2 <= p1 || p2 > d.len() {
                (Err(SurpError::UnexpectedEof(p1 as usize)), p1, depth)
            } else {
                container_tail(d, end, object, skip_items(d, end, lim, p2, depth + 1, count64 as nat, object))
            }
        },
    }
    }
}

/// The end of a skipped container: the depth drops back and an end tag,
/// if present, is consumed.
pub open spec fn container_tail(d: Seq<u8>, end: int, object: bool, inner: SkipOutcome) -> SkipOutcome {
    match inner.0 {
        Err(e) => inner,
        Ok(()) => {
            let close: u8 = if object { 0x07 } else { 0x09 };
            let q = inner.1;
            if q < end && 0 <= q < d.len() && d[q] == close {
                (Ok(()), q + 1, inner.2 - 1)
            } else {
                (Ok(()), q, inner.2 - 1)
            }
        },
    }
}

/// Skipping `count` items, or `count` key/value entries when `object`.
pub open spec fn skip_items(
    d: Seq<u8>,
    end: int,
    lim: Limits,
    pos: int,
    depth: int,
    count: nat,
    object: bool,
) -> SkipOutcome
    decreases d.len() - pos, 1int,
{
    if count == 0 {
        (Ok(()), pos, depth)
    } else {
        let k = if object {
            skip_key(d, end, pos, depth)
        } else {
            (Ok(()), pos, depth)
        };
        if k.0 is Err {
            k
        } else if k.1 < pos || k.1 > d.len() {
            (Err(SurpError::UnexpectedEof(k.1 as usize)), k.1, k.2)
        } else {
            let first = skip_value(d, end, lim, k.1, k.2);
            if first.0 is Err {
                first
            } else if first.1 <= pos || first.1 > d.len() {
                (Err(SurpError::UnexpectedEof(pos as usize)), first.1, first.2)
            } else {
                skip_items(d, end, lim, first.1, first.2, (count - 1) as nat, object)
            }
        }
    }
}

/// Skipping an object key: varint length and that many bytes.
pub open spec fn skip_key(d: Seq<u8>, end: int, pos: int, depth: int) -> SkipOutcome {
    match spec_decode_varint(d, pos) {
        Err(e) => (Err(e), pos, depth),
        Ok((len64, c)) => {
            let p = pos + c;
            if len64 > usize::MAX {
                (Err(SurpError::LengthOverflow(len64)), p, depth)
            } else if p + len64 > end {
                (Err(SurpError::UnexpectedEof(wrap_usize(p + len64))), p, depth)
            } else {
                (Ok(()), p + len64, depth)
            }
        },
    }
}

} // verus!

//! The segment tree of the CBF binary format: how values are written as
//! segments and read back.
//!
//! A segment is a header (a type nibble, a configuration nibble and the
//! payload length; see `cbf::write_segment_header`) followed by its
//! payload. Composite values hold their parts as nested segments.

use crate::ast::{
    Document,
    annotations_view, fields_model, lemma_association_view, lemma_product_view, lemma_sequence_view, lemma_sum_view,
    opt_text, pairs_model, values_model, Annotation, AnnotationM, Field, Opaque, Product, Reference, Scalar, ScalarM,
    Sequence, Stream, Sum, SumPayload, Tensor, TensorData, TensorDataM, Value, ValueM,
};
use crate::cbf::{
    segment_header_bytes, write_segment_header,
    crc64_ecma, crc64_of, decode_symbol_table, header_error, header_read_from, parse_segment, parse_segment_header,
    parse_symbol_table, CbfHeader,
};
use crate::dict::{safe_usize, utf8_str};
use crate::render::{push_decimal, push_hex, push_text};
use crate::error::{ErrorModel, SurpError};
use crate::render::{decimal, hex_padded};
use crate::varint::{
    decode_signed_varint, decode_varint, encode_signed_varint_vec, encode_varint_vec, spec_zigzag_encode, varint_bytes,
};
use vstd::bytes::{u32_from_le_bytes, u64_from_le_bytes};
use vstd::slice::{slice_subrange, slice_to_vec};
use vstd::string::StringExecFns;
use crate::varint::{spec_decode_signed_varint, spec_decode_varint};
use vstd::bytes::{
    spec_u32_from_le_bytes, spec_u32_to_le_bytes, spec_u64_from_le_bytes, spec_u64_to_le_bytes, u32_to_le_bytes,
    u64_to_le_bytes,
};
use vstd::prelude::*;
use vstd::utf8::{decode_utf8, encode_utf8, valid_utf8};

verus! {

/// Segment type: a fixed-size primitive.
pub const TYPE_PRIMITIVE: u8 = 0x0;
/// Segment type: a UTF-8 string.
pub const TYPE_STRING: u8 = 0x1;
/// Segment type: raw bytes.
pub const TYPE_BYTES: u8 = 0x2;
/// Segment type: an index into the symbol table.
pub const TYPE_SYMBOL: u8 = 0x3;
/// Segment type: a product (struct).
pub const TYPE_STRUCT: u8 = 0x4;
/// Segment type: a sum (enum).
pub const TYPE_ENUM: u8 = 0x5;
/// Segment type: a sequence.
pub const TYPE_SEQUENCE: u8 = 0x6;
/// Segment type: an association (map).
pub const TYPE_MAP: u8 = 0x7;
/// Segment type: a tensor.
pub const TYPE_TENSOR: u8 = 0x8;
/// Segment type: a reference.
pub const TYPE_REFERENCE: u8 = 0x9;
/// Segment type: a stream.
pub const TYPE_STREAM: u8 = 0xA;
/// Segment type: an annotation.
pub const TYPE_ANNOTATION: u8 = 0xB;
/// Segment type: an opaque or tagged value.
pub const TYPE_OPAQUE: u8 = 0xD;
/// Segment type: a special constant, chosen by the configuration nibble.
pub const TYPE_SPECIAL: u8 = 0xF;

/// Special constant: null.
pub const SPECIAL_NULL: u8 = 0x0;
/// Special constant: unit.
pub const SPECIAL_UNIT: u8 = 0x1;
/// Special constant: true.
pub const SPECIAL_TRUE: u8 = 0x2;
/// Special constant: false.
pub const SPECIAL_FALSE: u8 = 0x3;
/// Special constant: the empty sequence.
pub const SPECIAL_EMPTY_SEQUENCE: u8 = 0x4;
/// Special constant: the empty association.
pub const SPECIAL_EMPTY_MAP: u8 = 0x5;
/// Special constant: the empty string.
pub const SPECIAL_EMPTY_STRING: u8 = 0x6;
/// Special constant: the empty byte string.
pub const SPECIAL_EMPTY_BYTES: u8 = 0x7;

/// Primitive: an eight-byte little-endian `i64`.
pub const PRIM_I64: u8 = 0x3;
/// Primitive: an eight-byte little-endian `u64`.
pub const PRIM_U64: u8 = 0x8;
/// Primitive: a zigzag varint `i64`.
pub const PRIM_VI64: u8 = 0xA;
/// Primitive: a varint `u64`.
pub const PRIM_VU64: u8 = 0xB;
/// Primitive: a four-byte `f32` bit pattern.
pub const PRIM_F32: u8 = 0xC;
/// Primitive: an eight-byte `f64` bit pattern.
pub const PRIM_F64: u8 = 0xD;

/// Configuration bit of sequences and maps: an offset table precedes the items.
pub const HAS_OFFSET_TABLE: u8 = 0x8;

/// The deepest nesting of segments that is read.
pub const MAX_SEGMENT_DEPTH: usize = 64;

/// An `InvalidData` error with the message `m`.
pub open spec fn invalid(m: Seq<char>) -> ErrorModel {
    ErrorModel::InvalidData(m)
}

/// The text of a value that must be a string: a string or a symbol scalar.
pub open spec fn string_scalar(v: ValueM) -> Option<Seq<char>> {
    match v {
        ValueM::Scalar(ScalarM::Str(s)) => Some(s),
        ValueM::Scalar(ScalarM::Sym(s)) => Some(s),
        _ => None,
    }
}

/// The name of the element type with the given tensor code.
pub open spec fn tensor_type_name(code: u8) -> Seq<char> {
    if code == 0x01 {
        "f32"@
    } else if code == 0x02 {
        "f64"@
    } else if code == 0x10 {
        "i64"@
    } else if code == 0x11 {
        "u64"@
    } else {
        "bytes"@
    }
}

/// The error for a segment of an unknown type and configuration.
pub open spec fn unsupported(t: u8, c: u8) -> ErrorModel {
    invalid("unsupported segment type/config: 0x"@ + hex_padded(t as nat, 1) + "/0x"@ + hex_padded(c as nat, 1))
}

/// What `String::from_utf8` reports for bytes that are not valid UTF-8:
/// the text its error's `Display` implementation renders.
pub uninterp spec fn utf8_error_text(b: Seq<u8>) -> Seq<char>;

/// Calls `String::from_utf8`, which, as its documentation says, gives the
/// string when the bytes are valid UTF-8 (its characters are their
/// decoding) and an error otherwise. The text the error's `Display`
/// implementation renders is named `utf8_error_text`.
#[verifier::external_body]
fn string_from_utf8(b: Vec<u8>) -> (r: Result<String, String>)
    ensures
        match r {
            Ok(s) => valid_utf8(b@) && s@ == decode_utf8(b@),
            Err(m) => !valid_utf8(b@) && m@ == utf8_error_text(b@),
        },
{
    match String::from_utf8(b) {
        Ok(s) => Ok(s),
        Err(e) => Err(e.to_string()),
    }
}

/// Reading the segment at `off` of `d`: the value and the number of bytes
/// the segment takes. Segments nest at most `MAX_SEGMENT_DEPTH` deep.
pub open spec fn dec_segment(d: Seq<u8>, off: int, syms: Seq<Seq<char>>, depth: int) -> Result<(ValueM, int), ErrorModel>
    decreases d.len(), 0int, 0int,
    when 0 <= off
{
    if depth > 64 {
        Err(ErrorModel::NestingTooDeep(depth as usize, 64))
    } else {
        match parse_segment(d, off) {
            Err(e) => Err(e@),
            Ok((t, c, plen, hlen)) => {
                let ps = off + hlen;
                let pe = ps + plen;
                if pe > usize::MAX {
                    Err(ErrorModel::LengthOverflow(plen as u64))
                } else if pe > d.len() {
                    Err(ErrorModel::UnexpectedEof(pe as usize))
                } else {
                    match dec_body(d.subrange(ps, pe), ps, t, c, syms, depth) {
                        Ok(v) => Ok((v, hlen + plen)),
                        Err(e) => Err(e),
                    }
                }
            },
        }
    }
}

/// Reading the payload `p` of a segment of type `t` and configuration `c`;
/// `ps` is where the payload starts in the enclosing bytes.
pub open spec fn dec_body(p: Seq<u8>, ps: int, t: u8, c: u8, syms: Seq<Seq<char>>, depth: int) -> Result<ValueM, ErrorModel>
    decreases p.len(), 3int, 0int,
{
    if t == TYPE_SPECIAL {
        if c == SPECIAL_NULL {
            Ok(ValueM::Scalar(ScalarM::Null))
        } else if c == SPECIAL_UNIT {
            Ok(ValueM::Scalar(ScalarM::Unit))
        } else if c == SPECIAL_TRUE {
            Ok(ValueM::Scalar(ScalarM::Bool(true)))
        } else if c == SPECIAL_FALSE {
            Ok(ValueM::Scalar(ScalarM::Bool(false)))
        } else if c == SPECIAL_EMPTY_STRING {
            Ok(ValueM::Scalar(ScalarM::Str(Seq::empty())))
        } else if c == SPECIAL_EMPTY_BYTES {
            Ok(ValueM::Scalar(ScalarM::Bytes(Seq::empty())))
        } else if c == SPECIAL_EMPTY_SEQUENCE {
            Ok(ValueM::Sequence(None, Seq::empty()))
        } else if c == SPECIAL_EMPTY_MAP {
            Ok(ValueM::Association(Seq::empty()))
        } else {
            Err(unsupported(t, c))
        }
    } else if t == TYPE_STRING {
        if valid_utf8(p) {
            Ok(ValueM::Scalar(ScalarM::Str(decode_utf8(p))))
        } else {
            Err(ErrorModel::InvalidUtf8(ps as usize))
        }
    } else if t == TYPE_BYTES {
        Ok(ValueM::Scalar(ScalarM::Bytes(p)))
    } else if t == TYPE_SYMBOL {
        match spec_decode_varint(p, 0) {
            Err(e) => Err(e@),
            Ok((idx, used)) => if used != p.len() {
                Err(invalid("symbol segment has trailing payload"@))
            } else if idx > usize::MAX {
                Err(ErrorModel::LengthOverflow(idx))
            } else if idx >= syms.len() {
                Err(ErrorModel::InvalidReference(idx as usize, syms.len() as usize))
            } else {
                Ok(ValueM::Scalar(ScalarM::Sym(syms[idx as int])))
            },
        }
    } else if t == TYPE_PRIMITIVE {
        if c == PRIM_I64 {
            if p.len() != 8 {
                Err(invalid("invalid i64 primitive payload size"@))
            } else {
                Ok(ValueM::Scalar(ScalarM::I64(spec_u64_from_le_bytes(p) as i64)))
            }
        } else if c == PRIM_U64 {
            if p.len() != 8 {
                Err(invalid("invalid u64 primitive payload size"@))
            } else {
                Ok(ValueM::Scalar(ScalarM::U64(spec_u64_from_le_bytes(p))))
            }
        } else if c == PRIM_VI64 {
            match spec_decode_signed_varint(p, 0) {
                Err(e) => Err(e@),
                Ok((v, used)) => if used != p.len() {
                    Err(invalid("varint primitive trailing bytes"@))
                } else {
                    Ok(ValueM::Scalar(ScalarM::Vi64(v)))
                },
            }
        } else if c == PRIM_VU64 {
            match spec_decode_varint(p, 0) {
                Err(e) => Err(e@),
                Ok((v, used)) => if used != p.len() {
                    Err(invalid("varint primitive trailing bytes"@))
                } else {
                    Ok(ValueM::Scalar(ScalarM::Vu64(v)))
                },
            }
        } else if c == PRIM_F32 {
            if p.len() != 4 {
                Err(invalid("invalid f32 primitive payload size"@))
            } else {
                Ok(ValueM::Scalar(ScalarM::F32(spec_u32_from_le_bytes(p))))
            }
        } else if c == PRIM_F64 {
            if p.len() != 8 {
                Err(invalid("invalid f64 primitive payload size"@))
            } else {
                Ok(ValueM::Scalar(ScalarM::F64(spec_u64_from_le_bytes(p))))
            }
        } else {
            Err(unsupported(t, c))
        }
    } else if t == TYPE_STRUCT {
        dec_product(p, syms, depth + 1)
    } else if t == TYPE_ENUM {
        dec_sum(p, syms, depth + 1)
    } else if t == TYPE_SEQUENCE {
        dec_sequence(p, syms, depth + 1, c)
    } else if t == TYPE_MAP {
        dec_map(p, syms, depth + 1, c)
    } else if t == TYPE_REFERENCE {
        dec_reference(p, syms, depth + 1)
    } else if t == TYPE_TENSOR {
        dec_tensor(p)
    } else if t == TYPE_STREAM {
        dec_stream(p, syms, depth + 1)
    } else if t == TYPE_OPAQUE {
        dec_opaque(p, c)
    } else if t == TYPE_ANNOTATION {
        match dec_annotation(p, syms, depth + 1) {
            Ok(a) => Ok(
                ValueM::Opaque(
                    "annotation"@,
                    encode_utf8(
                        a.name + "="@ + if a.value is Some {
                            "true"@
                        } else {
                            "false"@
                        },
                    ),
                ),
            ),
            Err(e) => Err(e),
        }
    } else {
        Err(unsupported(t, c))
    }
}

/// Reading the optional type name at the start of a payload: a byte that
/// is `1` when a string segment follows. `context` names the type name in
/// the error for a segment that is not a string.
pub open spec fn dec_label(p: Seq<u8>, syms: Seq<Seq<char>>, depth: int, context: Seq<char>) -> Result<(Option<Seq<char>>, int), ErrorModel>
    decreases p.len(), 1int, 0int,
{
    if p.len() == 0 {
        Err(ErrorModel::UnexpectedEof(0))
    } else if p[0] == 1 {
        match dec_segment(p, 1, syms, depth) {
            Err(e) => Err(e),
            Ok((v, used)) => match string_scalar(v) {
                Some(s) => Ok((Some(s), 1 + used)),
                None => Err(invalid("expected string scalar for "@ + context)),
            },
        }
    } else {
        Ok((None, 1))
    }
}

/// Reading `n` fields (a name segment, then a value segment) from `pos` of `p`.
pub open spec fn dec_fields(p: Seq<u8>, pos: int, n: nat, syms: Seq<Seq<char>>, depth: int) -> Result<(Seq<(Seq<char>, ValueM)>, int), ErrorModel>
    decreases p.len(), 1int, n,
{
    if n == 0 {
        Ok((Seq::empty(), pos))
    } else {
        match dec_segment(p, pos, syms, depth) {
            Err(e) => Err(e),
            Ok((nv, c1)) => match string_scalar(nv) {
                None => Err(invalid("field name segment must be str or sym"@)),
                Some(name) => match dec_segment(p, pos + c1, syms, depth) {
                    Err(e) => Err(e),
                    Ok((v, c2)) => match dec_fields(p, pos + c1 + c2, (n - 1) as nat, syms, depth) {
                        Ok((rest, q)) => Ok((seq![(name, v)] + rest, q)),
                        Err(e) => Err(e),
                    },
                },
            },
        }
    }
}

/// Reading `n` consecutive item segments from `pos` of `p`.
pub open spec fn dec_items(p: Seq<u8>, pos: int, n: nat, syms: Seq<Seq<char>>, depth: int) -> Result<(Seq<ValueM>, int), ErrorModel>
    decreases p.len(), 1int, n,
{
    if n == 0 {
        Ok((Seq::empty(), pos))
    } else {
        match dec_segment(p, pos, syms, depth) {
            Err(e) => Err(e),
            Ok((v, c)) => match dec_items(p, pos + c, (n - 1) as nat, syms, depth) {
                Ok((rest, q)) => Ok((seq![v] + rest, q)),
                Err(e) => Err(e),
            },
        }
    }
}

/// Reading `n` consecutive key and value segments from `pos` of `p`.
pub open spec fn dec_pairs(p: Seq<u8>, pos: int, n: nat, syms: Seq<Seq<char>>, depth: int) -> Result<(Seq<(ValueM, ValueM)>, int), ErrorModel>
    decreases p.len(), 1int, n,
{
    if n == 0 {
        Ok((Seq::empty(), pos))
    } else {
        match dec_segment(p, pos, syms, depth) {
            Err(e) => Err(e),
            Ok((k, c1)) => match dec_segment(p, pos + c1, syms, depth) {
                Err(e) => Err(e),
                Ok((v, c2)) => match dec_pairs(p, pos + c1 + c2, (n - 1) as nat, syms, depth) {
                    Ok((rest, q)) => Ok((seq![(k, v)] + rest, q)),
                    Err(e) => Err(e),
                },
            },
        }
    }
}

/// Where the entry `idx` of an offset table at `table_start` points: the
/// end of the table plus the entry.
pub open spec fn table_entry(p: Seq<u8>, table_start: int, idx: int) -> int {
    spec_u32_from_le_bytes(p.subrange(table_start + idx * 4, table_start + idx * 4 + 4)) as int
}

/// Reading items `idx..n` through an offset table (which lies within `p`).
pub open spec fn dec_items_at(p: Seq<u8>, table_start: int, table_end: int, idx: nat, n: nat, syms: Seq<Seq<char>>, depth: int) -> Result<Seq<ValueM>, ErrorModel>
    decreases p.len(), 1int, n - idx,
{
    if idx >= n {
        Ok(Seq::empty())
    } else {
        let off = table_entry(p, table_start, idx as int);
        let start = table_end + off;
        if start > usize::MAX {
            Err(ErrorModel::LengthOverflow(off as u64))
        } else if start >= p.len() {
            Err(ErrorModel::UnexpectedEof(start as usize))
        } else {
            match dec_segment(p, start, syms, depth) {
                Err(e) => Err(e),
                Ok((v, _)) => match dec_items_at(p, table_start, table_end, idx + 1, n, syms, depth) {
                    Ok(rest) => Ok(seq![v] + rest),
                    Err(e) => Err(e),
                },
            }
        }
    }
}

/// Reading pairs `idx..n` through an offset table (which lies within `p`).
pub open spec fn dec_pairs_at(p: Seq<u8>, table_start: int, table_end: int, idx: nat, n: nat, syms: Seq<Seq<char>>, depth: int) -> Result<Seq<(ValueM, ValueM)>, ErrorModel>
    decreases p.len(), 1int, n - idx,
{
    if idx >= n {
        Ok(Seq::empty())
    } else {
        let off = table_entry(p, table_start, idx as int);
        let start = table_end + off;
        if start > usize::MAX {
            Err(ErrorModel::LengthOverflow(off as u64))
        } else if start >= p.len() {
            Err(ErrorModel::UnexpectedEof(start as usize))
        } else {
            match dec_segment(p, start, syms, depth) {
                Err(e) => Err(e),
                Ok((k, c1)) => match dec_segment(p, start + c1, syms, depth) {
                    Err(e) => Err(e),
                    Ok((v, _)) => match dec_pairs_at(p, table_start, table_end, idx + 1, n, syms, depth) {
                        Ok(rest) => Ok(seq![(k, v)] + rest),
                        Err(e) => Err(e),
                    },
                },
            }
        }
    }
}

/// Reading a product payload: the optional type name, the field count,
/// the fields, and nothing after them.
pub open spec fn dec_product(p: Seq<u8>, syms: Seq<Seq<char>>, depth: int) -> Result<ValueM, ErrorModel>
    decreases p.len(), 2int, 0int,
{
    match dec_label(p, syms, depth, "struct type name"@) {
        Err(e) => Err(e),
        Ok((tn, pos)) => match spec_decode_varint(p, pos) {
            Err(e) => Err(e@),
            Ok((n, used)) => if n > usize::MAX {
                Err(ErrorModel::LengthOverflow(n))
            } else {
                match dec_fields(p, pos + used, n as nat, syms, depth) {
                    Err(e) => Err(e),
                    Ok((fs, q)) => if q != p.len() {
                        Err(invalid("struct payload has trailing bytes"@))
                    } else {
                        Ok(ValueM::Product(tn, fs))
                    },
                }
            },
        },
    }
}

/// Reading a sum payload: the optional type name, the variant name, the
/// payload kind (0 unit, 1 tuple, 2 struct) and its items or fields.
pub open spec fn dec_sum(p: Seq<u8>, syms: Seq<Seq<char>>, depth: int) -> Result<ValueM, ErrorModel>
    decreases p.len(), 2int, 0int,
{
    match dec_label(p, syms, depth, "enum type name"@) {
        Err(e) => Err(e),
        Ok((tn, pos)) => match dec_segment(p, pos, syms, depth) {
            Err(e) => Err(e),
            Ok((vv, c)) => match string_scalar(vv) {
                None => Err(invalid("expected string scalar for enum variant"@)),
                Some(variant) => {
                    let pos2 = pos + c;
                    if pos2 >= p.len() {
                        Err(ErrorModel::UnexpectedEof(pos2 as usize))
                    } else {
                        let kind = p[pos2];
                        let pos3 = pos2 + 1;
                        if kind == 0 {
                            if pos3 != p.len() {
                                Err(invalid("enum payload trailing bytes"@))
                            } else {
                                Ok(ValueM::SumUnit(tn, variant))
                            }
                        } else if kind == 1 || kind == 2 {
                            match spec_decode_varint(p, pos3) {
                                Err(e) => Err(e@),
                                Ok((n, used)) => if n > usize::MAX {
                                    Err(ErrorModel::LengthOverflow(n))
                                } else if kind == 1 {
                                    match dec_items(p, pos3 + used, n as nat, syms, depth) {
                                        Err(e) => Err(e),
                                        Ok((items, q)) => if q != p.len() {
                                            Err(invalid("enum payload trailing bytes"@))
                                        } else {
                                            Ok(ValueM::SumTuple(tn, variant, items))
                                        },
                                    }
                                } else {
                                    match dec_fields(p, pos3 + used, n as nat, syms, depth) {
                                        Err(e) => Err(e),
                                        Ok((fs, q)) => if q != p.len() {
                                            Err(invalid("enum payload trailing bytes"@))
                                        } else {
                                            Ok(ValueM::SumStruct(tn, variant, fs))
                                        },
                                    }
                                },
                            }
                        } else {
                            Err(invalid("unknown enum payload kind "@ + decimal(kind as nat)))
                        }
                    }
                },
            },
        },
    }
}

/// Reading a sequence payload: the optional element type, the item count
/// and the items, through an offset table when `cfg` says so.
pub open spec fn dec_sequence(p: Seq<u8>, syms: Seq<Seq<char>>, depth: int, cfg: u8) -> Result<ValueM, ErrorModel>
    decreases p.len(), 2int, 0int,
{
    match dec_label(p, syms, depth, "sequence element type"@) {
        Err(e) => Err(e),
        Ok((et, pos)) => match spec_decode_varint(p, pos) {
            Err(e) => Err(e@),
            Ok((n, used)) => {
                let pos2 = pos + used;
                if n > usize::MAX {
                    Err(ErrorModel::LengthOverflow(n))
                } else if cfg & HAS_OFFSET_TABLE != 0 {
                    if n * 4 > usize::MAX {
                        Err(ErrorModel::LengthOverflow(n))
                    } else if pos2 + n * 4 > usize::MAX {
                        Err(ErrorModel::LengthOverflow((n * 4) as u64))
                    } else if pos2 + n * 4 > p.len() {
                        Err(ErrorModel::UnexpectedEof((pos2 + n * 4) as usize))
                    } else {
                        match dec_items_at(p, pos2, pos2 + n * 4, 0, n as nat, syms, depth) {
                            Err(e) => Err(e),
                            Ok(items) => Ok(ValueM::Sequence(et, items)),
                        }
                    }
                } else {
                    match dec_items(p, pos2, n as nat, syms, depth) {
                        Err(e) => Err(e),
                        Ok((items, q)) => if q != p.len() {
                            Err(invalid("sequence payload has trailing bytes"@))
                        } else {
                            Ok(ValueM::Sequence(et, items))
                        },
                    }
                }
            },
        },
    }
}

/// Reading an association payload: the pair count and the pairs, through
/// an offset table when `cfg` says so.
pub open spec fn dec_map(p: Seq<u8>, syms: Seq<Seq<char>>, depth: int, cfg: u8) -> Result<ValueM, ErrorModel>
    decreases p.len(), 2int, 0int,
{
    match spec_decode_varint(p, 0) {
        Err(e) => Err(e@),
        Ok((n, pos)) => if n > usize::MAX {
            Err(ErrorModel::LengthOverflow(n))
        } else if cfg & HAS_OFFSET_TABLE != 0 {
            if n * 4 > usize::MAX {
                Err(ErrorModel::LengthOverflow(n))
            } else if pos + n * 4 > usize::MAX {
                Err(ErrorModel::LengthOverflow((n * 4) as u64))
            } else if pos + n * 4 > p.len() {
                Err(ErrorModel::UnexpectedEof((pos + n * 4) as usize))
            } else {
                match dec_pairs_at(p, pos as int, pos + n * 4, 0, n as nat, syms, depth) {
                    Err(e) => Err(e),
                    Ok(pairs) => Ok(ValueM::Association(pairs)),
                }
            }
        } else {
            match dec_pairs(p, pos as int, n as nat, syms, depth) {
                Err(e) => Err(e),
                Ok((pairs, q)) => if q != p.len() {
                    Err(invalid("map payload has trailing bytes"@))
                } else {
                    Ok(ValueM::Association(pairs))
                },
            }
        },
    }
}

/// Reading a reference payload: kind 0 and a length-prefixed UTF-8
/// binding name, or kind 1 and a value segment.
pub open spec fn dec_reference(p: Seq<u8>, syms: Seq<Seq<char>>, depth: int) -> Result<ValueM, ErrorModel>
    decreases p.len(), 2int, 0int,
{
    if p.len() == 0 {
        Err(ErrorModel::UnexpectedEof(0))
    } else if p[0] == 0 {
        match dec_span(p, 1) {
            Err(e) => Err(e),
            Ok((start, end)) => if !valid_utf8(p.subrange(start, end)) {
                Err(ErrorModel::InvalidUtf8(start as usize))
            } else {
                Ok(ValueM::RefBinding(decode_utf8(p.subrange(start, end))))
            },
        }
    } else if p[0] == 1 {
        match dec_segment(p, 1, syms, depth) {
            Err(e) => Err(e),
            Ok((v, used)) => if 1 + used != p.len() {
                Err(invalid("reference-by-id payload trailing bytes"@))
            } else {
                Ok(ValueM::RefById(seq![v]))
            },
        }
    } else {
        Err(invalid("unknown reference kind "@ + decimal(p[0] as nat)))
    }
}

/// Reading `n` tensor dimensions (varints; 0 is an unknown dimension) from `pos`.
pub open spec fn dec_shape(p: Seq<u8>, pos: int, n: nat) -> Result<(Seq<Option<u64>>, int), ErrorModel>
    decreases n,
{
    if n == 0 {
        Ok((Seq::empty(), pos))
    } else {
        match spec_decode_varint(p, pos) {
            Err(e) => Err(e@),
            Ok((dim, used)) => match dec_shape(p, pos + used, (n - 1) as nat) {
                Ok((rest, q)) => Ok((seq![if dim == 0 { None } else { Some(dim) }] + rest, q)),
                Err(e) => Err(e),
            },
        }
    }
}

/// The `n` eight-byte little-endian words of `p` from `pos`.
pub open spec fn words(p: Seq<u8>, pos: int, n: nat) -> Seq<u64> {
    Seq::new(n, |i: int| spec_u64_from_le_bytes(p.subrange(pos + i * 8, pos + i * 8 + 8)))
}

/// Reading a tensor payload: element code, dimension count, two flag
/// bytes, the shape, the element count and the elements. (Where the bytes
/// the elements need would not even fit in a `usize`, the count is
/// reported as a length overflow.)
pub open spec fn dec_tensor(p: Seq<u8>) -> Result<ValueM, ErrorModel> {
    if p.len() < 4 {
        Err(ErrorModel::UnexpectedEof(p.len() as usize))
    } else {
        match dec_shape(p, 4, p[1] as nat) {
            Err(e) => Err(e),
            Ok((shape, pos)) => if pos + 8 > p.len() {
                Err(ErrorModel::UnexpectedEof(pos as usize))
            } else {
                let n = spec_u64_from_le_bytes(p.subrange(pos, pos + 8)) as usize;
                let pos2 = pos + 8;
                let code = p[0];
                let data = if code == 0x01 || code == 0x02 || code == 0x10 || code == 0x11 {
                    if n * 8 > usize::MAX || pos2 + n * 8 > usize::MAX {
                        Err(ErrorModel::LengthOverflow(n as u64))
                    } else if pos2 + n * 8 > p.len() {
                        Err(ErrorModel::UnexpectedEof((pos2 + n * 8) as usize))
                    } else if code == 0x10 {
                        Ok(TensorDataM::DenseI64(words(p, pos2, n as nat).map_values(|w: u64| w as i64)))
                    } else if code == 0x11 {
                        Ok(TensorDataM::DenseU64(words(p, pos2, n as nat)))
                    } else {
                        Ok(TensorDataM::DenseF64(words(p, pos2, n as nat)))
                    }
                } else {
                    Ok(TensorDataM::BinaryBlob(p.subrange(pos2, p.len() as int)))
                };
                match data {
                    Ok(td) => Ok(ValueM::Tensor(tensor_type_name(code), shape, td, Seq::empty())),
                    Err(e) => Err(e),
                }
            },
        }
    }
}

/// Reading `n` stream annotations (a name segment, a flag byte, and a
/// scalar segment when the flag is 1) from `pos` of `p`. (The flag byte
/// must be there: where the name ends the payload, that is an unexpected
/// end.)
pub open spec fn dec_annotations(p: Seq<u8>, pos: int, n: nat, syms: Seq<Seq<char>>, depth: int) -> Result<(Seq<AnnotationM>, int), ErrorModel>
    decreases p.len(), 1int, n,
{
    if n == 0 {
        Ok((Seq::empty(), pos))
    } else if pos >= p.len() {
        Err(ErrorModel::UnexpectedEof(pos as usize))
    } else {
        match dec_segment(p, pos, syms, depth) {
            Err(e) => Err(e),
            Ok((nv, c1)) => match string_scalar(nv) {
                None => Err(invalid("expected string scalar for annotation name"@)),
                Some(name) => {
                    let pos1 = pos + c1;
                    if pos1 >= p.len() {
                        Err(ErrorModel::UnexpectedEof(pos1 as usize))
                    } else if p[pos1] == 1 {
                        match dec_segment(p, pos1 + 1, syms, depth) {
                            Err(e) => Err(e),
                            Ok((sv, c2)) => match sv {
                                ValueM::Scalar(s) => match dec_annotations(p, pos1 + 1 + c2, (n - 1) as nat, syms, depth) {
                                    Ok((rest, q)) => Ok((seq![AnnotationM { name, value: Some(s) }] + rest, q)),
                                    Err(e) => Err(e),
                                },
                                _ => Err(invalid("stream annotation value must be scalar"@)),
                            },
                        }
                    } else {
                        match dec_annotations(p, pos1 + 1, (n - 1) as nat, syms, depth) {
                            Ok((rest, q)) => Ok((seq![AnnotationM { name, value: None }] + rest, q)),
                            Err(e) => Err(e),
                        }
                    }
                },
            },
        }
    }
}

/// Reading a stream payload: the item type, the annotation count and the
/// annotations, and nothing after them.
pub open spec fn dec_stream(p: Seq<u8>, syms: Seq<Seq<char>>, depth: int) -> Result<ValueM, ErrorModel>
    decreases p.len(), 2int, 0int,
{
    match dec_segment(p, 0, syms, depth) {
        Err(e) => Err(e),
        Ok((tv, c)) => match string_scalar(tv) {
            None => Err(invalid("expected string scalar for stream item type"@)),
            Some(item_type) => match spec_decode_varint(p, c) {
                Err(e) => Err(e@),
                Ok((n, used)) => if n > usize::MAX {
                    Err(ErrorModel::LengthOverflow(n))
                } else {
                    match dec_annotations(p, c + used, n as nat, syms, depth) {
                        Err(e) => Err(e),
                        Ok((anns, q)) => if q != p.len() {
                            Err(invalid("stream payload trailing bytes"@))
                        } else {
                            Ok(ValueM::Stream(item_type, anns))
                        },
                    }
                },
            },
        },
    }
}

/// Reading a length-prefixed byte string at `pos` of `p`: its bounds.
pub open spec fn dec_span(p: Seq<u8>, pos: int) -> Result<(int, int), ErrorModel> {
    match spec_decode_varint(p, pos) {
        Err(e) => Err(e@),
        Ok((n, used)) => {
            let start = pos + used;
            if n > usize::MAX || start + n > usize::MAX {
                Err(ErrorModel::LengthOverflow(n))
            } else if start + n > p.len() {
                Err(ErrorModel::UnexpectedEof((start + n) as usize))
            } else {
                Ok((start, start + n))
            }
        },
    }
}

/// Reading an opaque payload: a length-prefixed UTF-8 tag and
/// length-prefixed bytes, and nothing after them. Configuration 0 makes a
/// tagged scalar whose value is the bytes as UTF-8 text.
pub open spec fn dec_opaque(p: Seq<u8>, cfg: u8) -> Result<ValueM, ErrorModel> {
    match dec_span(p, 0) {
        Err(e) => Err(e),
        Ok((ts, te)) => if !valid_utf8(p.subrange(ts, te)) {
            Err(ErrorModel::InvalidUtf8(ts as usize))
        } else {
            match dec_span(p, te) {
                Err(e) => Err(e),
                Ok((vs, ve)) => if ve != p.len() {
                    Err(invalid("opaque payload trailing bytes"@))
                } else {
                    let tag = decode_utf8(p.subrange(ts, te));
                    let bytes = p.subrange(vs, ve);
                    if cfg == 0 {
                        if valid_utf8(bytes) {
                            Ok(ValueM::Scalar(ScalarM::Tagged(tag, decode_utf8(bytes))))
                        } else {
                            Err(invalid("invalid opaque tagged utf8: "@ + utf8_error_text(bytes)))
                        }
                    } else {
                        Ok(ValueM::Opaque(tag, bytes))
                    }
                },
            }
        },
    }
}

/// Reading an annotation payload: a name segment, a flag byte, a scalar
/// segment when the flag is 1, and nothing after them.
pub open spec fn dec_annotation(p: Seq<u8>, syms: Seq<Seq<char>>, depth: int) -> Result<AnnotationM, ErrorModel>
    decreases p.len(), 2int, 0int,
{
    match dec_segment(p, 0, syms, depth) {
        Err(e) => Err(e),
        Ok((nv, c)) => match string_scalar(nv) {
            None => Err(invalid("expected string scalar for annotation name"@)),
            Some(name) => if c >= p.len() {
                Err(ErrorModel::UnexpectedEof(c as usize))
            } else if p[c] == 1 {
                match dec_segment(p, c + 1, syms, depth) {
                    Err(e) => Err(e),
                    Ok((sv, c2)) => match sv {
                        ValueM::Scalar(s) => if c + 1 + c2 != p.len() {
                            Err(invalid("annotation payload trailing bytes"@))
                        } else {
                            Ok(AnnotationM { name, value: Some(s) })
                        },
                        _ => Err(invalid("annotation value must be scalar"@)),
                    },
                }
            } else if c + 1 != p.len() {
                Err(invalid("annotation payload trailing bytes"@))
            } else {
                Ok(AnnotationM { name, value: None })
            },
        },
    }
}

/// The models of the symbols of a symbol table.
pub open spec fn syms_of(symbols: Seq<String>) -> Seq<Seq<char>> {
    symbols.map_values(|s: String| s@)
}

/// An outcome of reading a value agrees with the outcome its model gives.
pub open spec fn value_matches(r: Result<Value, SurpError>, s: Result<ValueM, ErrorModel>) -> bool {
    match s {
        Ok(v) => r matches Ok(x) && x@ == v,
        Err(e) => r matches Err(x) && x@ == e,
    }
}

/// An outcome of reading a segment agrees with the outcome its model gives.
pub open spec fn segment_matches(r: Result<(Value, usize), SurpError>, s: Result<(ValueM, int), ErrorModel>) -> bool {
    match s {
        Ok((v, n)) => r matches Ok((x, m)) && x@ == v && m == n,
        Err(e) => r matches Err(x) && x@ == e,
    }
}

/// The text of a string or symbol scalar.
fn string_of(v: Value) -> (r: Option<String>)
    ensures
        opt_text(r) == string_scalar(v@),
{
    match v {
        Value::Scalar(Scalar::Str(s)) => Some(s),
        Value::Scalar(Scalar::Sym(s)) => Some(s),
        _ => None,
    }
}

/// The scalar a value holds, if it is one.
fn scalar_of(v: Value) -> (r: Option<Scalar>)
    ensures
        match v@ {
            ValueM::Scalar(s) => r matches Some(x) && x@ == s,
            _ => r is None,
        },
{
    match v {
        Value::Scalar(s) => Some(s),
        _ => None,
    }
}

/// The name of the element type with the given tensor code.
pub fn tensor_element_type_name(code: u8) -> (r: &'static str)
    ensures
        r@ == tensor_type_name(code),
{
    if code == 0x01 {
        "f32"
    } else if code == 0x02 {
        "f64"
    } else if code == 0x10 {
        "i64"
    } else if code == 0x11 {
        "u64"
    } else {
        "bytes"
    }
}

/// An `InvalidData` error with the message `m`.
fn invalid_data(m: &str) -> (e: SurpError)
    ensures
        e@ == invalid(m@),
{
    SurpError::InvalidData(String::from_str(m))
}

/// Read the bounds of a length-prefixed byte string at `pos` of `p`.
fn decode_span(p: &[u8], pos: usize) -> (r: Result<(usize, usize), SurpError>)
    ensures
        match dec_span(p@, pos as int) {
            Ok((s, e)) => r == Ok::<(usize, usize), SurpError>((s as usize, e as usize)) && s <= e <= p@.len(),
            Err(e) => r matches Err(x) && x@ == e,
        },
{
    let (n64, used) = match decode_varint(p, pos) {
        Ok(x) => x,
        Err(e) => {
            return Err(e);
        },
    };
    let n = match safe_usize(n64) {
        Ok(n) => n,
        Err(e) => {
            return Err(e);
        },
    };
    let start = pos + used;
    let end = match start.checked_add(n) {
        Some(e) => e,
        None => {
            return Err(SurpError::LengthOverflow(n64));
        },
    };
    if end > p.len() {
        return Err(SurpError::UnexpectedEof(end));
    }
    Ok((start, end))
}

/// Read the segment at `offset` of `data`: the value and the number of
/// bytes the segment takes.
pub fn decode_segment(data: &[u8], offset: usize, symbols: &[String], depth: usize) -> (r: Result<(Value, usize), SurpError>)
    ensures
        segment_matches(r, dec_segment(data@, offset as int, syms_of(symbols@), depth as int)),
        r matches Ok((_, n)) ==> offset + n <= data@.len(),
    decreases data@.len(), 0int, 0int,
{
    if depth > 64 {
        return Err(SurpError::NestingTooDeep(depth, 64));
    }
    let h = match parse_segment_header(data, offset) {
        Ok(h) => h,
        Err(e) => {
            return Err(e);
        },
    };
    proof {
        assert(offset + h.header_len <= data@.len());
        assert(data@.len() == data.len());
    }
    let ps = offset + h.header_len;
    let pe = match ps.checked_add(h.payload_len) {
        Some(x) => x,
        None => {
            return Err(SurpError::LengthOverflow(h.payload_len as u64));
        },
    };
    if pe > data.len() {
        return Err(SurpError::UnexpectedEof(pe));
    }
    let payload = slice_subrange(data, ps, pe);
    let v = match decode_body(payload, ps, h.type_nibble, h.config_nibble, symbols, depth) {
        Ok(v) => v,
        Err(e) => {
            return Err(e);
        },
    };
    Ok((v, h.header_len + h.payload_len))
}

/// Read the payload `p` of a segment of type `t` and configuration `c`.
fn decode_body(p: &[u8], ps: usize, t: u8, c: u8, symbols: &[String], depth: usize) -> (r: Result<Value, SurpError>)
    requires
        depth <= 64,
    ensures
        value_matches(r, dec_body(p@, ps as int, t, c, syms_of(symbols@), depth as int)),
    decreases p@.len(), 3int, 0int,
{
    if t == TYPE_SPECIAL {
        if c == SPECIAL_NULL {
            Ok(Value::Scalar(Scalar::Null))
        } else if c == SPECIAL_UNIT {
            Ok(Value::Scalar(Scalar::Unit))
        } else if c == SPECIAL_TRUE {
            Ok(Value::Scalar(Scalar::Bool(true)))
        } else if c == SPECIAL_FALSE {
            Ok(Value::Scalar(Scalar::Bool(false)))
        } else if c == SPECIAL_EMPTY_STRING {
            Ok(Value::Scalar(Scalar::Str(String::new())))
        } else if c == SPECIAL_EMPTY_BYTES {
            Ok(Value::Scalar(Scalar::Bytes(Vec::new())))
        } else if c == SPECIAL_EMPTY_SEQUENCE {
            let items: Vec<Value> = Vec::new();
            proof {
                lemma_sequence_view(None, items);
                assert(values_model(items@) =~= Seq::<ValueM>::empty());
            }
            Ok(Value::Sequence(Sequence { elem_type: None, items }))
        } else if c == SPECIAL_EMPTY_MAP {
            let pairs: Vec<(Value, Value)> = Vec::new();
            proof {
                lemma_association_view(pairs);
                assert(pairs_model(pairs@) =~= Seq::<(ValueM, ValueM)>::empty());
            }
            Ok(Value::Association(pairs))
        } else {
            Err(unsupported_error(t, c))
        }
    } else if t == TYPE_STRING {
        match utf8_str(p) {
            Some(s) => Ok(Value::Scalar(Scalar::Str(String::from_str(s)))),
            None => Err(SurpError::InvalidUtf8(ps)),
        }
    } else if t == TYPE_BYTES {
        Ok(Value::Scalar(Scalar::Bytes(slice_to_vec(p))))
    } else if t == TYPE_SYMBOL {
        let (idx, used) = match decode_varint(p, 0) {
            Ok(x) => x,
            Err(e) => {
                return Err(e);
            },
        };
        if used != p.len() {
            return Err(invalid_data("symbol segment has trailing payload"));
        }
        let i = match safe_usize(idx) {
            Ok(i) => i,
            Err(e) => {
                return Err(e);
            },
        };
        if i >= symbols.len() {
            return Err(SurpError::InvalidReference(i, symbols.len()));
        }
        Ok(Value::Scalar(Scalar::Sym(symbols[i].clone())))
    } else if t == TYPE_PRIMITIVE {
        if c == PRIM_I64 {
            if p.len() != 8 {
                return Err(invalid_data("invalid i64 primitive payload size"));
            }
            Ok(Value::Scalar(Scalar::I64(u64_from_le_bytes(p) as i64)))
        } else if c == PRIM_U64 {
            if p.len() != 8 {
                return Err(invalid_data("invalid u64 primitive payload size"));
            }
            Ok(Value::Scalar(Scalar::U64(u64_from_le_bytes(p))))
        } else if c == PRIM_VI64 {
            let (v, used) = match decode_signed_varint(p, 0) {
                Ok(x) => x,
                Err(e) => {
                    return Err(e);
                },
            };
            if used != p.len() {
                return Err(invalid_data("varint primitive trailing bytes"));
            }
            Ok(Value::Scalar(Scalar::Vi64(v)))
        } else if c == PRIM_VU64 {
            let (v, used) = match decode_varint(p, 0) {
                Ok(x) => x,
                Err(e) => {
                    return Err(e);
                },
            };
            if used != p.len() {
                return Err(invalid_data("varint primitive trailing bytes"));
            }
            Ok(Value::Scalar(Scalar::Vu64(v)))
        } else if c == PRIM_F32 {
            if p.len() != 4 {
                return Err(invalid_data("invalid f32 primitive payload size"));
            }
            Ok(Value::Scalar(Scalar::F32(u32_from_le_bytes(p))))
        } else if c == PRIM_F64 {
            if p.len() != 8 {
                return Err(invalid_data("invalid f64 primitive payload size"));
            }
            Ok(Value::Scalar(Scalar::F64(u64_from_le_bytes(p))))
        } else {
            Err(unsupported_error(t, c))
        }
    } else if t == TYPE_STRUCT {
        decode_product(p, symbols, depth + 1)
    } else if t == TYPE_ENUM {
        decode_sum(p, symbols, depth + 1)
    } else if t == TYPE_SEQUENCE {
        decode_sequence(p, symbols, depth + 1, c)
    } else if t == TYPE_MAP {
        decode_map(p, symbols, depth + 1, c)
    } else if t == TYPE_REFERENCE {
        decode_reference(p, symbols, depth + 1)
    } else if t == TYPE_TENSOR {
        decode_tensor(p)
    } else if t == TYPE_STREAM {
        decode_stream(p, symbols, depth + 1)
    } else if t == TYPE_OPAQUE {
        decode_opaque(p, c)
    } else if t == TYPE_ANNOTATION {
        let ann = match decode_annotation(p, symbols, depth + 1) {
            Ok(a) => a,
            Err(e) => {
                return Err(e);
            },
        };
        let mut text = String::new();
        push_text(&mut text, ann.name.as_str());
        push_text(&mut text, "=");
        if ann.value.is_some() {
            push_text(&mut text, "true");
        } else {
            push_text(&mut text, "false");
        }
        let bytes = slice_to_vec(text.as_str().as_bytes());
        Ok(Value::Opaque(Opaque { type_tag: String::from_str("annotation"), bytes }))
    } else {
        Err(unsupported_error(t, c))
    }
}

/// The error for a segment of an unknown type and configuration.
fn unsupported_error(t: u8, c: u8) -> (e: SurpError)
    ensures
        e@ == unsupported(t, c),
{
    let mut m = String::new();
    push_text(&mut m, "unsupported segment type/config: 0x");
    push_hex(&mut m, t as u64, 1);
    push_text(&mut m, "/0x");
    push_hex(&mut m, c as u64, 1);
    SurpError::InvalidData(m)
}

/// Read the optional type name at the start of a payload.
fn decode_label(p: &[u8], symbols: &[String], depth: usize, context: &str) -> (r: Result<(Option<String>, usize), SurpError>)
    ensures
        match dec_label(p@, syms_of(symbols@), depth as int, context@) {
            Ok((tn, pos)) => r matches Ok((x, q)) && opt_text(x) == tn && q == pos && q <= p@.len(),
            Err(e) => r matches Err(x) && x@ == e,
        },
    decreases p@.len(), 1int, 0int,
{
    if p.len() == 0 {
        return Err(SurpError::UnexpectedEof(0));
    }
    if p[0] == 1 {
        let (v, used) = match decode_segment(p, 1, symbols, depth) {
            Ok(x) => x,
            Err(e) => {
                return Err(e);
            },
        };
        match string_of(v) {
            Some(s) => Ok((Some(s), 1 + used)),
            None => {
                let mut m = String::new();
                push_text(&mut m, "expected string scalar for ");
                push_text(&mut m, context);
                Err(SurpError::InvalidData(m))
            },
        }
    } else {
        Ok((None, 1))
    }
}

/// The fields `pre` already read, followed by the outcome `r` of reading the rest.
pub open spec fn cons_fields(pre: Seq<(Seq<char>, ValueM)>, r: Result<(Seq<(Seq<char>, ValueM)>, int), ErrorModel>) -> Result<(Seq<(Seq<char>, ValueM)>, int), ErrorModel> {
    match r {
        Ok((fs, q)) => Ok((pre + fs, q)),
        Err(e) => Err(e),
    }
}

/// The values `pre` already read, followed by the outcome `r` of reading the rest.
pub open spec fn cons_values(pre: Seq<ValueM>, r: Result<(Seq<ValueM>, int), ErrorModel>) -> Result<(Seq<ValueM>, int), ErrorModel> {
    match r {
        Ok((vs, q)) => Ok((pre + vs, q)),
        Err(e) => Err(e),
    }
}

/// The pairs `pre` already read, followed by the outcome `r` of reading the rest.
pub open spec fn cons_pairs(pre: Seq<(ValueM, ValueM)>, r: Result<(Seq<(ValueM, ValueM)>, int), ErrorModel>) -> Result<(Seq<(ValueM, ValueM)>, int), ErrorModel> {
    match r {
        Ok((ps, q)) => Ok((pre + ps, q)),
        Err(e) => Err(e),
    }
}

/// Read `n` fields from `pos` of `p`.
fn decode_fields(p: &[u8], pos: usize, n: usize, symbols: &[String], depth: usize) -> (r: Result<(Vec<Field>, usize), SurpError>)
    requires
        pos <= p@.len(),
    ensures
        match dec_fields(p@, pos as int, n as nat, syms_of(symbols@), depth as int) {
            Ok((fs, q)) => r matches Ok((v, q2)) && fields_model(v@) == fs && q2 == q && q <= p@.len(),
            Err(e) => r matches Err(x) && x@ == e,
        },
    decreases p@.len(), 1int, n,
{
    let ghost syms = syms_of(symbols@);
    let ghost whole = dec_fields(p@, pos as int, n as nat, syms, depth as int);
    let mut fields: Vec<Field> = Vec::new();
    let mut at = pos;
    let mut i: usize = 0;
    proof {
        assert(cons_fields(fields_model(fields@), whole) == whole) by {
            if let Ok((fs, q)) = whole {
                assert(fields_model(fields@) + fs =~= fs);
            }
        }
    }
    while i < n
        invariant
            i <= n,
            at <= p@.len(),
            syms == syms_of(symbols@),
            whole == dec_fields(p@, pos as int, n as nat, syms, depth as int),
            whole == cons_fields(fields_model(fields@), dec_fields(p@, at as int, (n - i) as nat, syms, depth as int)),
        decreases n - i,
    {
        let (nv, c1) = match decode_segment(p, at, symbols, depth) {
            Ok(x) => x,
            Err(e) => {
                return Err(e);
            },
        };
        let name = match string_of(nv) {
            Some(s) => s,
            None => {
                return Err(invalid_data("field name segment must be str or sym"));
            },
        };
        let (v, c2) = match decode_segment(p, at + c1, symbols, depth) {
            Ok(x) => x,
            Err(e) => {
                return Err(e);
            },
        };
        proof {
            let rest = dec_fields(p@, (at + c1 + c2) as int, (n - i - 1) as nat, syms, depth as int);
            assert(dec_fields(p@, at as int, (n - i) as nat, syms, depth as int) == cons_fields(seq![(name@, v@)], rest));
            let fld = Field { name, value: v };
            assert(fields_model(fields@.push(fld)) =~= fields_model(fields@).push((name@, v@)));
            if let Ok((fs, q)) = rest {
                assert(fields_model(fields@) + (seq![(name@, v@)] + fs) =~= fields_model(fields@).push((name@, v@)) + fs);
            }
        }
        at = at + c1 + c2;
        fields.push(Field { name, value: v });
        i = i + 1;
    }
    proof {
        assert(fields_model(fields@) + Seq::<(Seq<char>, ValueM)>::empty() =~= fields_model(fields@));
    }
    Ok((fields, at))
}

/// Read `n` consecutive item segments from `pos` of `p`.
fn decode_items(p: &[u8], pos: usize, n: usize, symbols: &[String], depth: usize) -> (r: Result<(Vec<Value>, usize), SurpError>)
    requires
        pos <= p@.len(),
    ensures
        match dec_items(p@, pos as int, n as nat, syms_of(symbols@), depth as int) {
            Ok((vs, q)) => r matches Ok((v, q2)) && values_model(v@) == vs && q2 == q && q <= p@.len(),
            Err(e) => r matches Err(x) && x@ == e,
        },
    decreases p@.len(), 1int, n,
{
    let ghost syms = syms_of(symbols@);
    let ghost whole = dec_items(p@, pos as int, n as nat, syms, depth as int);
    let mut items: Vec<Value> = Vec::new();
    let mut at = pos;
    let mut i: usize = 0;
    proof {
        assert(cons_values(values_model(items@), whole) == whole) by {
            if let Ok((vs, q)) = whole {
                assert(values_model(items@) + vs =~= vs);
            }
        }
    }
    while i < n
        invariant
            i <= n,
            at <= p@.len(),
            syms == syms_of(symbols@),
            whole == dec_items(p@, pos as int, n as nat, syms, depth as int),
            whole == cons_values(values_model(items@), dec_items(p@, at as int, (n - i) as nat, syms, depth as int)),
        decreases n - i,
    {
        let (v, c) = match decode_segment(p, at, symbols, depth) {
            Ok(x) => x,
            Err(e) => {
                return Err(e);
            },
        };
        proof {
            let rest = dec_items(p@, (at + c) as int, (n - i - 1) as nat, syms, depth as int);
            assert(dec_items(p@, at as int, (n - i) as nat, syms, depth as int) == cons_values(seq![v@], rest));
            assert(values_model(items@.push(v)) =~= values_model(items@).push(v@));
            if let Ok((vs, q)) = rest {
                assert(values_model(items@) + (seq![v@] + vs) =~= values_model(items@).push(v@) + vs);
            }
        }
        at = at + c;
        items.push(v);
        i = i + 1;
    }
    proof {
        assert(values_model(items@) + Seq::<ValueM>::empty() =~= values_model(items@));
    }
    Ok((items, at))
}

/// Read `n` consecutive key and value segments from `pos` of `p`.
fn decode_pairs(p: &[u8], pos: usize, n: usize, symbols: &[String], depth: usize) -> (r: Result<(Vec<(Value, Value)>, usize), SurpError>)
    requires
        pos <= p@.len(),
    ensures
        match dec_pairs(p@, pos as int, n as nat, syms_of(symbols@), depth as int) {
            Ok((ps, q)) => r matches Ok((v, q2)) && pairs_model(v@) == ps && q2 == q && q <= p@.len(),
            Err(e) => r matches Err(x) && x@ == e,
        },
    decreases p@.len(), 1int, n,
{
    let ghost syms = syms_of(symbols@);
    let ghost whole = dec_pairs(p@, pos as int, n as nat, syms, depth as int);
    let mut pairs: Vec<(Value, Value)> = Vec::new();
    let mut at = pos;
    let mut i: usize = 0;
    proof {
        assert(cons_pairs(pairs_model(pairs@), whole) == whole) by {
            if let Ok((ps, q)) = whole {
                assert(pairs_model(pairs@) + ps =~= ps);
            }
        }
    }
    while i < n
        invariant
            i <= n,
            at <= p@.len(),
            syms == syms_of(symbols@),
            whole == dec_pairs(p@, pos as int, n as nat, syms, depth as int),
            whole == cons_pairs(pairs_model(pairs@), dec_pairs(p@, at as int, (n - i) as nat, syms, depth as int)),
        decreases n - i,
    {
        let (k, c1) = match decode_segment(p, at, symbols, depth) {
            Ok(x) => x,
            Err(e) => {
                return Err(e);
            },
        };
        let (v, c2) = match decode_segment(p, at + c1, symbols, depth) {
            Ok(x) => x,
            Err(e) => {
                return Err(e);
            },
        };
        proof {
            let rest = dec_pairs(p@, (at + c1 + c2) as int, (n - i - 1) as nat, syms, depth as int);
            assert(dec_pairs(p@, at as int, (n - i) as nat, syms, depth as int) == cons_pairs(seq![(k@, v@)], rest));
            assert(pairs_model(pairs@.push((k, v))) =~= pairs_model(pairs@).push((k@, v@)));
            if let Ok((ps, q)) = rest {
                assert(pairs_model(pairs@) + (seq![(k@, v@)] + ps) =~= pairs_model(pairs@).push((k@, v@)) + ps);
            }
        }
        at = at + c1 + c2;
        pairs.push((k, v));
        i = i + 1;
    }
    proof {
        assert(pairs_model(pairs@) + Seq::<(ValueM, ValueM)>::empty() =~= pairs_model(pairs@));
    }
    Ok((pairs, at))
}

/// Read `n` items through the offset table at `table_start..table_end` of `p`.
fn decode_items_table(p: &[u8], table_start: usize, table_end: usize, n: usize, symbols: &[String], depth: usize) -> (r: Result<Vec<Value>, SurpError>)
    requires
        table_end == table_start + n * 4,
        table_end <= p@.len(),
    ensures
        match dec_items_at(p@, table_start as int, table_end as int, 0, n as nat, syms_of(symbols@), depth as int) {
            Ok(vs) => r matches Ok(v) && values_model(v@) == vs,
            Err(e) => r matches Err(x) && x@ == e,
        },
    decreases p@.len(), 1int, n,
{
    let ghost syms = syms_of(symbols@);
    let ghost whole = dec_items_at(p@, table_start as int, table_end as int, 0, n as nat, syms, depth as int);
    let mut items: Vec<Value> = Vec::new();
    let mut idx: usize = 0;
    while idx < n
        invariant
            idx <= n,
            table_end == table_start + n * 4,
            table_end <= p@.len(),
            syms == syms_of(symbols@),
            items@.len() == idx,
            whole == dec_items_at(p@, table_start as int, table_end as int, 0, n as nat, syms, depth as int),
            whole == (match dec_items_at(p@, table_start as int, table_end as int, idx as nat, n as nat, syms, depth as int) {
                Ok(rest) => Ok(values_model(items@) + rest),
                Err(e) => Err(e),
            }),
        decreases n - idx,
    {
        assert(idx * 4 + 4 <= n * 4) by (nonlinear_arith)
            requires
                idx < n,
        ;
        let off_pos = table_start + idx * 4;
        let off = u32_from_le_bytes(slice_subrange(p, off_pos, off_pos + 4)) as usize;
        let start = match table_end.checked_add(off) {
            Some(s) => s,
            None => {
                return Err(SurpError::LengthOverflow(off as u64));
            },
        };
        if start >= p.len() {
            return Err(SurpError::UnexpectedEof(start));
        }
        let (v, _used) = match decode_segment(p, start, symbols, depth) {
            Ok(x) => x,
            Err(e) => {
                return Err(e);
            },
        };
        proof {
            assert(values_model(items@.push(v)) =~= values_model(items@).push(v@));
            if let Ok(rest) = dec_items_at(p@, table_start as int, table_end as int, (idx + 1) as nat, n as nat, syms, depth as int) {
                assert(values_model(items@) + (seq![v@] + rest) =~= values_model(items@).push(v@) + rest);
            }
        }
        items.push(v);
        idx = idx + 1;
    }
    proof {
        assert(values_model(items@) + Seq::<ValueM>::empty() =~= values_model(items@));
    }
    Ok(items)
}

/// Read `n` pairs through the offset table at `table_start..table_end` of `p`.
fn decode_pairs_table(p: &[u8], table_start: usize, table_end: usize, n: usize, symbols: &[String], depth: usize) -> (r: Result<Vec<(Value, Value)>, SurpError>)
    requires
        table_end == table_start + n * 4,
        table_end <= p@.len(),
    ensures
        match dec_pairs_at(p@, table_start as int, table_end as int, 0, n as nat, syms_of(symbols@), depth as int) {
            Ok(ps) => r matches Ok(v) && pairs_model(v@) == ps,
            Err(e) => r matches Err(x) && x@ == e,
        },
    decreases p@.len(), 1int, n,
{
    let ghost syms = syms_of(symbols@);
    let ghost whole = dec_pairs_at(p@, table_start as int, table_end as int, 0, n as nat, syms, depth as int);
    let mut pairs: Vec<(Value, Value)> = Vec::new();
    let mut idx: usize = 0;
    while idx < n
        invariant
            idx <= n,
            table_end == table_start + n * 4,
            table_end <= p@.len(),
            syms == syms_of(symbols@),
            whole == dec_pairs_at(p@, table_start as int, table_end as int, 0, n as nat, syms, depth as int),
            whole == (match dec_pairs_at(p@, table_start as int, table_end as int, idx as nat, n as nat, syms, depth as int) {
                Ok(rest) => Ok(pairs_model(pairs@) + rest),
                Err(e) => Err(e),
            }),
        decreases n - idx,
    {
        assert(idx * 4 + 4 <= n * 4) by (nonlinear_arith)
            requires
                idx < n,
        ;
        let off_pos = table_start + idx * 4;
        let off = u32_from_le_bytes(slice_subrange(p, off_pos, off_pos + 4)) as usize;
        let start = match table_end.checked_add(off) {
            Some(s) => s,
            None => {
                return Err(SurpError::LengthOverflow(off as u64));
            },
        };
        if start >= p.len() {
            return Err(SurpError::UnexpectedEof(start));
        }
        let (k, c1) = match decode_segment(p, start, symbols, depth) {
            Ok(x) => x,
            Err(e) => {
                return Err(e);
            },
        };
        let (v, _used) = match decode_segment(p, start + c1, symbols, depth) {
            Ok(x) => x,
            Err(e) => {
                return Err(e);
            },
        };
        proof {
            assert(pairs_model(pairs@.push((k, v))) =~= pairs_model(pairs@).push((k@, v@)));
            if let Ok(rest) = dec_pairs_at(p@, table_start as int, table_end as int, (idx + 1) as nat, n as nat, syms, depth as int) {
                assert(pairs_model(pairs@) + (seq![(k@, v@)] + rest) =~= pairs_model(pairs@).push((k@, v@)) + rest);
            }
        }
        pairs.push((k, v));
        idx = idx + 1;
    }
    proof {
        assert(pairs_model(pairs@) + Seq::<(ValueM, ValueM)>::empty() =~= pairs_model(pairs@));
    }
    Ok(pairs)
}

/// Read a product payload.
fn decode_product(p: &[u8], symbols: &[String], depth: usize) -> (r: Result<Value, SurpError>)
    requires
        depth <= 65,
    ensures
        value_matches(r, dec_product(p@, syms_of(symbols@), depth as int)),
    decreases p@.len(), 2int, 0int,
{
    let (tn, pos) = match decode_label(p, symbols, depth, "struct type name") {
        Ok(x) => x,
        Err(e) => {
            return Err(e);
        },
    };
    let (n64, used) = match decode_varint(p, pos) {
        Ok(x) => x,
        Err(e) => {
            return Err(e);
        },
    };
    let n = match safe_usize(n64) {
        Ok(n) => n,
        Err(e) => {
            return Err(e);
        },
    };
    let (fields, q) = match decode_fields(p, pos + used, n, symbols, depth) {
        Ok(x) => x,
        Err(e) => {
            return Err(e);
        },
    };
    if q != p.len() {
        return Err(invalid_data("struct payload has trailing bytes"));
    }
    proof {
        lemma_product_view(tn, fields);
    }
    Ok(Value::Product(Product { type_label: tn, fields }))
}

/// Read a sum payload.
fn decode_sum(p: &[u8], symbols: &[String], depth: usize) -> (r: Result<Value, SurpError>)
    requires
        depth <= 65,
    ensures
        value_matches(r, dec_sum(p@, syms_of(symbols@), depth as int)),
    decreases p@.len(), 2int, 0int,
{
    let (tn, pos) = match decode_label(p, symbols, depth, "enum type name") {
        Ok(x) => x,
        Err(e) => {
            return Err(e);
        },
    };
    let (vv, c) = match decode_segment(p, pos, symbols, depth) {
        Ok(x) => x,
        Err(e) => {
            return Err(e);
        },
    };
    let variant = match string_of(vv) {
        Some(s) => s,
        None => {
            return Err(invalid_data("expected string scalar for enum variant"));
        },
    };
    let pos2 = pos + c;
    if pos2 >= p.len() {
        return Err(SurpError::UnexpectedEof(pos2));
    }
    let kind = p[pos2];
    let pos3 = pos2 + 1;
    if kind == 0 {
        if pos3 != p.len() {
            return Err(invalid_data("enum payload trailing bytes"));
        }
        proof {
            lemma_sum_view(tn, variant, SumPayload::Unit);
        }
        Ok(Value::Sum(Sum { type_label: tn, variant, payload: SumPayload::Unit }))
    } else if kind == 1 || kind == 2 {
        let (n64, used) = match decode_varint(p, pos3) {
            Ok(x) => x,
            Err(e) => {
                return Err(e);
            },
        };
        let n = match safe_usize(n64) {
            Ok(n) => n,
            Err(e) => {
                return Err(e);
            },
        };
        if kind == 1 {
            let (items, q) = match decode_items(p, pos3 + used, n, symbols, depth) {
                Ok(x) => x,
                Err(e) => {
                    return Err(e);
                },
            };
            if q != p.len() {
                return Err(invalid_data("enum payload trailing bytes"));
            }
            let payload = SumPayload::Tuple(items);
            proof {
                lemma_sum_view(tn, variant, payload);
            }
            Ok(Value::Sum(Sum { type_label: tn, variant, payload }))
        } else {
            let (fields, q) = match decode_fields(p, pos3 + used, n, symbols, depth) {
                Ok(x) => x,
                Err(e) => {
                    return Err(e);
                },
            };
            if q != p.len() {
                return Err(invalid_data("enum payload trailing bytes"));
            }
            let payload = SumPayload::Struct(fields);
            proof {
                lemma_sum_view(tn, variant, payload);
            }
            Ok(Value::Sum(Sum { type_label: tn, variant, payload }))
        }
    } else {
        let mut m = String::new();
        push_text(&mut m, "unknown enum payload kind ");
        push_decimal(&mut m, kind as u64);
        Err(SurpError::InvalidData(m))
    }
}

/// Read a sequence payload.
fn decode_sequence(p: &[u8], symbols: &[String], depth: usize, cfg: u8) -> (r: Result<Value, SurpError>)
    requires
        depth <= 65,
    ensures
        value_matches(r, dec_sequence(p@, syms_of(symbols@), depth as int, cfg)),
    decreases p@.len(), 2int, 0int,
{
    let (et, pos) = match decode_label(p, symbols, depth, "sequence element type") {
        Ok(x) => x,
        Err(e) => {
            return Err(e);
        },
    };
    let (n64, used) = match decode_varint(p, pos) {
        Ok(x) => x,
        Err(e) => {
            return Err(e);
        },
    };
    let pos2 = pos + used;
    let n = match safe_usize(n64) {
        Ok(n) => n,
        Err(e) => {
            return Err(e);
        },
    };
    if cfg & HAS_OFFSET_TABLE != 0 {
        let table_len = match n.checked_mul(4) {
            Some(x) => x,
            None => {
                return Err(SurpError::LengthOverflow(n as u64));
            },
        };
        let table_end = match pos2.checked_add(table_len) {
            Some(x) => x,
            None => {
                return Err(SurpError::LengthOverflow(table_len as u64));
            },
        };
        if table_end > p.len() {
            return Err(SurpError::UnexpectedEof(table_end));
        }
        let items = match decode_items_table(p, pos2, table_end, n, symbols, depth) {
            Ok(x) => x,
            Err(e) => {
                return Err(e);
            },
        };
        proof {
            lemma_sequence_view(et, items);
        }
        Ok(Value::Sequence(Sequence { elem_type: et, items }))
    } else {
        let (items, q) = match decode_items(p, pos2, n, symbols, depth) {
            Ok(x) => x,
            Err(e) => {
                return Err(e);
            },
        };
        if q != p.len() {
            return Err(invalid_data("sequence payload has trailing bytes"));
        }
        proof {
            lemma_sequence_view(et, items);
        }
        Ok(Value::Sequence(Sequence { elem_type: et, items }))
    }
}

/// Read an association payload.
fn decode_map(p: &[u8], symbols: &[String], depth: usize, cfg: u8) -> (r: Result<Value, SurpError>)
    requires
        depth <= 65,
    ensures
        value_matches(r, dec_map(p@, syms_of(symbols@), depth as int, cfg)),
    decreases p@.len(), 2int, 0int,
{
    let (n64, pos) = match decode_varint(p, 0) {
        Ok(x) => x,
        Err(e) => {
            return Err(e);
        },
    };
    let n = match safe_usize(n64) {
        Ok(n) => n,
        Err(e) => {
            return Err(e);
        },
    };
    if cfg & HAS_OFFSET_TABLE != 0 {
        let table_len = match n.checked_mul(4) {
            Some(x) => x,
            None => {
                return Err(SurpError::LengthOverflow(n as u64));
            },
        };
        let table_end = match pos.checked_add(table_len) {
            Some(x) => x,
            None => {
                return Err(SurpError::LengthOverflow(table_len as u64));
            },
        };
        if table_end > p.len() {
            return Err(SurpError::UnexpectedEof(table_end));
        }
        let pairs = match decode_pairs_table(p, pos, table_end, n, symbols, depth) {
            Ok(x) => x,
            Err(e) => {
                return Err(e);
            },
        };
        proof {
            lemma_association_view(pairs);
        }
        Ok(Value::Association(pairs))
    } else {
        let (pairs, q) = match decode_pairs(p, pos, n, symbols, depth) {
            Ok(x) => x,
            Err(e) => {
                return Err(e);
            },
        };
        if q != p.len() {
            return Err(invalid_data("map payload has trailing bytes"));
        }
        proof {
            lemma_association_view(pairs);
        }
        Ok(Value::Association(pairs))
    }
}

/// Read a reference payload.
fn decode_reference(p: &[u8], symbols: &[String], depth: usize) -> (r: Result<Value, SurpError>)
    requires
        depth <= 65,
    ensures
        value_matches(r, dec_reference(p@, syms_of(symbols@), depth as int)),
    decreases p@.len(), 2int, 0int,
{
    if p.len() == 0 {
        return Err(SurpError::UnexpectedEof(0));
    }
    if p[0] == 0 {
        let (start, end) = match decode_span(p, 1) {
            Ok(x) => x,
            Err(e) => {
                return Err(e);
            },
        };
        match utf8_str(slice_subrange(p, start, end)) {
            Some(s) => Ok(Value::Reference(Reference::Binding(String::from_str(s)))),
            None => Err(SurpError::InvalidUtf8(start)),
        }
    } else if p[0] == 1 {
        let (v, used) = match decode_segment(p, 1, symbols, depth) {
            Ok(x) => x,
            Err(e) => {
                return Err(e);
            },
        };
        if 1 + used != p.len() {
            return Err(invalid_data("reference-by-id payload trailing bytes"));
        }
        Ok(Value::Reference(Reference::ById(Box::new(v))))
    } else {
        let mut m = String::new();
        push_text(&mut m, "unknown reference kind ");
        push_decimal(&mut m, p[0] as u64);
        Err(SurpError::InvalidData(m))
    }
}

/// The dimensions `pre` already read, followed by the outcome `r` of reading the rest.
pub open spec fn cons_shape(pre: Seq<Option<u64>>, r: Result<(Seq<Option<u64>>, int), ErrorModel>) -> Result<(Seq<Option<u64>>, int), ErrorModel> {
    match r {
        Ok((s, q)) => Ok((pre + s, q)),
        Err(e) => Err(e),
    }
}

/// Read a tensor payload.
fn decode_tensor(p: &[u8]) -> (r: Result<Value, SurpError>)
    ensures
        value_matches(r, dec_tensor(p@)),
{
    if p.len() < 4 {
        return Err(SurpError::UnexpectedEof(p.len()));
    }
    let code = p[0];
    let ndim = p[1] as usize;
    let ghost whole = dec_shape(p@, 4, ndim as nat);
    let mut shape: Vec<Option<u64>> = Vec::new();
    let mut pos: usize = 4;
    let mut i: usize = 0;
    proof {
        assert(cons_shape(shape@, whole) == whole) by {
            if let Ok((s, q)) = whole {
                assert(shape@ + s =~= s);
            }
        }
    }
    while i < ndim
        invariant
            i <= ndim,
            p@.len() >= 4,
            ndim == p@[1] as usize,
            code == p@[0],
            pos <= p@.len(),
            whole == dec_shape(p@, 4, ndim as nat),
            whole == cons_shape(shape@, dec_shape(p@, pos as int, (ndim - i) as nat)),
        decreases ndim - i,
    {
        let (dim, used) = match decode_varint(p, pos) {
            Ok(x) => x,
            Err(e) => {
                return Err(e);
            },
        };
        let d = if dim == 0 {
            None
        } else {
            Some(dim)
        };
        proof {
            let rest = dec_shape(p@, (pos + used) as int, (ndim - i - 1) as nat);
            if let Ok((s, q)) = rest {
                assert(shape@ + (seq![d] + s) =~= shape@.push(d) + s);
            }
        }
        shape.push(d);
        pos = pos + used;
        i = i + 1;
    }
    proof {
        assert(shape@ + Seq::<Option<u64>>::empty() =~= shape@);
    }
    if p.len() < 8 || pos > p.len() - 8 {
        return Err(SurpError::UnexpectedEof(pos));
    }
    let n = #[verifier::truncate] (u64_from_le_bytes(slice_subrange(p, pos, pos + 8)) as usize);
    let pos2 = pos + 8;
    let data = if code == 0x01 || code == 0x02 || code == 0x10 || code == 0x11 {
        let bytes = match n.checked_mul(8) {
            Some(b) => b,
            None => {
                return Err(SurpError::LengthOverflow(n as u64));
            },
        };
        let end = match pos2.checked_add(bytes) {
            Some(e) => e,
            None => {
                return Err(SurpError::LengthOverflow(n as u64));
            },
        };
        if end > p.len() {
            return Err(SurpError::UnexpectedEof(end));
        }
        let mut words_read: Vec<u64> = Vec::new();
        let mut j: usize = 0;
        while j < n
            invariant
                j <= n,
                end == pos2 + n * 8,
                end <= p@.len(),
                words_read@ == words(p@, pos2 as int, j as nat),
            decreases n - j,
        {
            assert(j * 8 + 8 <= n * 8) by (nonlinear_arith)
                requires
                    j < n,
            ;
            let at = pos2 + j * 8;
            let w = u64_from_le_bytes(slice_subrange(p, at, at + 8));
            words_read.push(w);
            j = j + 1;
            proof {
                assert(words_read@ =~= words(p@, pos2 as int, j as nat));
            }
        }
        if code == 0x10 {
            let mut vals: Vec<i64> = Vec::new();
            let mut k: usize = 0;
            while k < words_read.len()
                invariant
                    k <= words_read@.len(),
                    vals@ == words_read@.subrange(0, k as int).map_values(|w: u64| w as i64),
                decreases words_read@.len() - k,
            {
                vals.push(#[verifier::truncate] (words_read[k] as i64));
                k = k + 1;
                proof {
                    assert(vals@ =~= words_read@.subrange(0, k as int).map_values(|w: u64| w as i64));
                }
            }
            proof {
                assert(words_read@.subrange(0, k as int) =~= words_read@);
            }
            TensorData::DenseI64(vals)
        } else if code == 0x11 {
            TensorData::DenseU64(words_read)
        } else {
            TensorData::DenseF64(words_read)
        }
    } else {
        TensorData::BinaryBlob(slice_to_vec(slice_subrange(p, pos2, p.len())))
    };
    let element_type = String::from_str(tensor_element_type_name(code));
    let annotations: Vec<Annotation> = Vec::new();
    proof {
        assert(annotations_view(annotations@) =~= Seq::<AnnotationM>::empty());
    }
    Ok(Value::Tensor(Tensor { element_type, shape, data, annotations }))
}

/// The annotations `pre` already read, followed by the outcome `r` of reading the rest.
pub open spec fn cons_annotations(pre: Seq<AnnotationM>, r: Result<(Seq<AnnotationM>, int), ErrorModel>) -> Result<(Seq<AnnotationM>, int), ErrorModel> {
    match r {
        Ok((s, q)) => Ok((pre + s, q)),
        Err(e) => Err(e),
    }
}

/// Read `n` stream annotations from `pos` of `p`.
fn decode_annotations(p: &[u8], pos: usize, n: usize, symbols: &[String], depth: usize) -> (r: Result<(Vec<Annotation>, usize), SurpError>)
    requires
        pos <= p@.len(),
    ensures
        match dec_annotations(p@, pos as int, n as nat, syms_of(symbols@), depth as int) {
            Ok((s, q)) => r matches Ok((v, q2)) && annotations_view(v@) == s && q2 == q && q <= p@.len(),
            Err(e) => r matches Err(x) && x@ == e,
        },
    decreases p@.len(), 1int, n,
{
    let ghost syms = syms_of(symbols@);
    let ghost whole = dec_annotations(p@, pos as int, n as nat, syms, depth as int);
    let mut anns: Vec<Annotation> = Vec::new();
    let mut at = pos;
    let mut i: usize = 0;
    proof {
        assert(cons_annotations(annotations_view(anns@), whole) == whole) by {
            if let Ok((s, q)) = whole {
                assert(annotations_view(anns@) + s =~= s);
            }
        }
    }
    while i < n
        invariant
            i <= n,
            at <= p@.len(),
            syms == syms_of(symbols@),
            whole == dec_annotations(p@, pos as int, n as nat, syms, depth as int),
            whole == cons_annotations(annotations_view(anns@), dec_annotations(p@, at as int, (n - i) as nat, syms, depth as int)),
        decreases n - i,
    {
        if at >= p.len() {
            return Err(SurpError::UnexpectedEof(at));
        }
        let (nv, c1) = match decode_segment(p, at, symbols, depth) {
            Ok(x) => x,
            Err(e) => {
                return Err(e);
            },
        };
        let name = match string_of(nv) {
            Some(s) => s,
            None => {
                return Err(invalid_data("expected string scalar for annotation name"));
            },
        };
        let pos1 = at + c1;
        if pos1 >= p.len() {
            return Err(SurpError::UnexpectedEof(pos1));
        }
        let next;
        let value;
        if p[pos1] == 1 {
            let (sv, c2) = match decode_segment(p, pos1 + 1, symbols, depth) {
                Ok(x) => x,
                Err(e) => {
                    return Err(e);
                },
            };
            value = match scalar_of(sv) {
                Some(s) => Some(s),
                None => {
                    return Err(invalid_data("stream annotation value must be scalar"));
                },
            };
            next = pos1 + 1 + c2;
        } else {
            value = None;
            next = pos1 + 1;
        }
        let ann = Annotation { name, value };
        proof {
            let rest = dec_annotations(p@, next as int, (n - i - 1) as nat, syms, depth as int);
            assert(dec_annotations(p@, at as int, (n - i) as nat, syms, depth as int) == cons_annotations(seq![ann@], rest));
            assert(annotations_view(anns@.push(ann)) =~= annotations_view(anns@).push(ann@));
            if let Ok((s, q)) = rest {
                assert(annotations_view(anns@) + (seq![ann@] + s) =~= annotations_view(anns@).push(ann@) + s);
            }
        }
        anns.push(ann);
        at = next;
        i = i + 1;
    }
    proof {
        assert(annotations_view(anns@) + Seq::<AnnotationM>::empty() =~= annotations_view(anns@));
    }
    Ok((anns, at))
}

/// Read a stream payload.
fn decode_stream(p: &[u8], symbols: &[String], depth: usize) -> (r: Result<Value, SurpError>)
    requires
        depth <= 65,
    ensures
        value_matches(r, dec_stream(p@, syms_of(symbols@), depth as int)),
    decreases p@.len(), 2int, 0int,
{
    let (tv, c) = match decode_segment(p, 0, symbols, depth) {
        Ok(x) => x,
        Err(e) => {
            return Err(e);
        },
    };
    let item_type = match string_of(tv) {
        Some(s) => s,
        None => {
            return Err(invalid_data("expected string scalar for stream item type"));
        },
    };
    let (n64, used) = match decode_varint(p, c) {
        Ok(x) => x,
        Err(e) => {
            return Err(e);
        },
    };
    let n = match safe_usize(n64) {
        Ok(n) => n,
        Err(e) => {
            return Err(e);
        },
    };
    let (annotations, q) = match decode_annotations(p, c + used, n, symbols, depth) {
        Ok(x) => x,
        Err(e) => {
            return Err(e);
        },
    };
    if q != p.len() {
        return Err(invalid_data("stream payload trailing bytes"));
    }
    Ok(Value::Stream(Stream { item_type, annotations }))
}

/// Read an opaque payload.
fn decode_opaque(p: &[u8], cfg: u8) -> (r: Result<Value, SurpError>)
    ensures
        value_matches(r, dec_opaque(p@, cfg)),
{
    let (ts, te) = match decode_span(p, 0) {
        Ok(x) => x,
        Err(e) => {
            return Err(e);
        },
    };
    let tag = match utf8_str(slice_subrange(p, ts, te)) {
        Some(s) => String::from_str(s),
        None => {
            return Err(SurpError::InvalidUtf8(ts));
        },
    };
    let (vs, ve) = match decode_span(p, te) {
        Ok(x) => x,
        Err(e) => {
            return Err(e);
        },
    };
    if ve != p.len() {
        return Err(invalid_data("opaque payload trailing bytes"));
    }
    let bytes = slice_to_vec(slice_subrange(p, vs, ve));
    if cfg == 0 {
        match string_from_utf8(bytes) {
            Ok(value) => Ok(Value::Scalar(Scalar::Tagged { tag, value })),
            Err(m) => {
                let mut msg = String::new();
                push_text(&mut msg, "invalid opaque tagged utf8: ");
                push_text(&mut msg, m.as_str());
                Err(SurpError::InvalidData(msg))
            },
        }
    } else {
        Ok(Value::Opaque(Opaque { type_tag: tag, bytes }))
    }
}

/// Read an annotation payload.
fn decode_annotation(p: &[u8], symbols: &[String], depth: usize) -> (r: Result<Annotation, SurpError>)
    requires
        depth <= 65,
    ensures
        match dec_annotation(p@, syms_of(symbols@), depth as int) {
            Ok(a) => r matches Ok(x) && x@ == a,
            Err(e) => r matches Err(x) && x@ == e,
        },
    decreases p@.len(), 2int, 0int,
{
    let (nv, c) = match decode_segment(p, 0, symbols, depth) {
        Ok(x) => x,
        Err(e) => {
            return Err(e);
        },
    };
    let name = match string_of(nv) {
        Some(s) => s,
        None => {
            return Err(invalid_data("expected string scalar for annotation name"));
        },
    };
    if c >= p.len() {
        return Err(SurpError::UnexpectedEof(c));
    }
    if p[c] == 1 {
        let (sv, c2) = match decode_segment(p, c + 1, symbols, depth) {
            Ok(x) => x,
            Err(e) => {
                return Err(e);
            },
        };
        let s = match scalar_of(sv) {
            Some(s) => s,
            None => {
                return Err(invalid_data("annotation value must be scalar"));
            },
        };
        if c + 1 + c2 != p.len() {
            return Err(invalid_data("annotation payload trailing bytes"));
        }
        Ok(Annotation { name, value: Some(s) })
    } else {
        if c + 1 != p.len() {
            return Err(invalid_data("annotation payload trailing bytes"));
        }
        Ok(Annotation { name, value: None })
    }
}

/// A decoded CBF file: its header, its symbol table and the document
/// whose root the file holds.
#[derive(Debug)]
pub struct DecodedDocument {
    pub header: CbfHeader,
    pub symbols: Vec<String>,
    pub document: Document,
}

/// Reading a CBF file: the 32-byte header, the payload, and the CRC-64
/// of everything before it in the last eight bytes; the payload holds the
/// symbol table (when the header's flag says so) at the symbol table
/// offset and the root segment at the root offset. The outcome is the
/// symbols and the root value.
pub open spec fn dec_document(d: Seq<u8>) -> Result<(Seq<Seq<char>>, ValueM), ErrorModel> {
    if d.len() < 40 {
        Err(ErrorModel::UnexpectedEof(d.len() as usize))
    } else {
        match header_error(d) {
            Some(e) => Err(e@),
            None => {
                let expected = spec_u64_from_le_bytes(d.subrange(d.len() - 8, d.len() as int));
                let actual = crc64_of(d.subrange(0, d.len() - 8));
                if expected != actual {
                    Err(ErrorModel::ChecksumMismatch { expected, actual })
                } else {
                    let payload = d.subrange(32, d.len() - 8);
                    let syms = if d[6] & 2 != 0 {
                        parse_symbol_table(payload, spec_u32_from_le_bytes(d.subrange(24, 28)) as int)
                    } else {
                        Ok(Seq::empty())
                    };
                    match syms {
                        Err(e) => Err(e@),
                        Ok(syms) => {
                            let root = spec_u64_from_le_bytes(d.subrange(16, 24));
                            if root > usize::MAX {
                                Err(ErrorModel::LengthOverflow(root))
                            } else if root >= payload.len() {
                                Err(ErrorModel::UnexpectedEof(root as usize))
                            } else {
                                match dec_segment(payload, root as int, syms, 0) {
                                    Err(e) => Err(e),
                                    Ok((v, _)) => Ok((syms, v)),
                                }
                            }
                        },
                    }
                }
            },
        }
    }
}

/// Decode a CBF file. The document holds only the root value.
pub fn decode_document(data: &[u8]) -> (r: Result<DecodedDocument, SurpError>)
    ensures
        match dec_document(data@) {
            Ok((syms, v)) => r matches Ok(dd) && header_read_from(dd.header, data@) && syms_of(dd.symbols@) == syms
                && (dd.document.root matches Some(x) && x@ == v) && dd.document.annotations@.len() == 0
                && dd.document.uses@.len() == 0 && dd.document.bindings@.len() == 0,
            Err(e) => r matches Err(x) && x@ == e,
        },
{
    if data.len() < 40 {
        return Err(SurpError::UnexpectedEof(data.len()));
    }
    let header = match CbfHeader::decode(data) {
        Ok(h) => h,
        Err(e) => {
            return Err(e);
        },
    };
    let n = data.len();
    let expected = u64_from_le_bytes(slice_subrange(data, n - 8, n));
    let actual = crc64_ecma(slice_subrange(data, 0, n - 8));
    if expected != actual {
        return Err(SurpError::ChecksumMismatch { expected, actual });
    }
    let payload = slice_subrange(data, 32, n - 8);
    let symbols = if header.has_symtab() {
        match decode_symbol_table(payload, header.symtab_offset as usize) {
            Ok(s) => s,
            Err(e) => {
                return Err(e);
            },
        }
    } else {
        Vec::new()
    };
    proof {
        assert(header.flags == data@[6]);
        if header.flags & 2 == 0 {
            assert(syms_of(symbols@) =~= Seq::<Seq<char>>::empty());
        }
    }
    let root_offset = match safe_usize(header.root_offset) {
        Ok(x) => x,
        Err(e) => {
            return Err(e);
        },
    };
    if root_offset >= payload.len() {
        return Err(SurpError::UnexpectedEof(root_offset));
    }
    let (root, _consumed) = match decode_segment(payload, root_offset, symbols.as_slice(), 0) {
        Ok(x) => x,
        Err(e) => {
            return Err(e);
        },
    };
    let document = Document { annotations: Vec::new(), uses: Vec::new(), bindings: Vec::new(), root: Some(root) };
    Ok(DecodedDocument { header, symbols, document })
}

/// Decode the root value of a CBF file.
pub fn decode_value(data: &[u8]) -> (r: Result<Value, SurpError>)
    ensures
        match dec_document(data@) {
            Ok((_, v)) => r matches Ok(x) && x@ == v,
            Err(e) => r matches Err(x) && x@ == e,
        },
{
    let decoded = match decode_document(data) {
        Ok(d) => d,
        Err(e) => {
            return Err(e);
        },
    };
    match decoded.document.root {
        Some(v) => Ok(v),
        None => Err(invalid_data("document has no root value or bindings")),
    }
}

/// A segment: the header for type `t`, configuration `c` and the length
/// of `p`, then `p`.
pub open spec fn seg(t: u8, c: u8, p: Seq<u8>) -> Seq<u8> {
    segment_header_bytes(t, c, p.len() as usize) + p
}

/// Bytes preceded by their length as a varint.
pub open spec fn prefixed(b: Seq<u8>) -> Seq<u8> {
    varint_bytes(b.len() as u64) + b
}

/// The segment of a string: the special empty-string segment, or the
/// UTF-8 bytes in a string segment.
pub open spec fn str_segment(s: Seq<char>) -> Seq<u8> {
    if s.len() == 0 {
        seg(TYPE_SPECIAL, SPECIAL_EMPTY_STRING, Seq::empty())
    } else {
        seg(TYPE_STRING, 0, encode_utf8(s))
    }
}

/// The position of `s` in the symbol table `syms` from `i` on, if it is there.
pub open spec fn sym_index(syms: Seq<Seq<char>>, s: Seq<char>, i: nat) -> Option<nat>
    decreases syms.len() - i,
{
    if i >= syms.len() {
        None
    } else if syms[i as int] == s {
        Some(i)
    } else {
        sym_index(syms, s, i + 1)
    }
}

/// A symbol found from `i` on lies between `i` and the end of the table.
pub proof fn lemma_sym_index(syms: Seq<Seq<char>>, s: Seq<char>, i: nat)
    ensures
        sym_index(syms, s, i) matches Some(j) ==> i <= j < syms.len() && syms[j as int] == s,
    decreases syms.len() - i,
{
    if i < syms.len() && syms[i as int] != s {
        lemma_sym_index(syms, s, i + 1);
    }
}

/// How the encoder is set up: the symbol table, and whether there is one.
pub struct EncodeCtx {
    pub symbols: Vec<String>,
    pub has_symtab: bool,
}

/// The segment of a scalar.
pub open spec fn enc_scalar(s: ScalarM, syms: Seq<Seq<char>>, has_symtab: bool) -> Result<Seq<u8>, ErrorModel> {
    match s {
        ScalarM::Null => Ok(seg(TYPE_SPECIAL, SPECIAL_NULL, Seq::empty())),
        ScalarM::Unit => Ok(seg(TYPE_SPECIAL, SPECIAL_UNIT, Seq::empty())),
        ScalarM::Bool(b) => Ok(seg(TYPE_SPECIAL, if b { SPECIAL_TRUE } else { SPECIAL_FALSE }, Seq::empty())),
        ScalarM::Str(t) => Ok(str_segment(t)),
        ScalarM::Bytes(b) => Ok(
            if b.len() == 0 {
                seg(TYPE_SPECIAL, SPECIAL_EMPTY_BYTES, Seq::empty())
            } else {
                seg(TYPE_BYTES, 0, b)
            },
        ),
        ScalarM::Sym(t) => if !has_symtab {
            Err(invalid("symbol encoding requires symbol table"@))
        } else {
            match sym_index(syms, t, 0) {
                None => Err(invalid("missing symbol table entry '"@ + t + "'"@)),
                Some(i) => Ok(seg(TYPE_SYMBOL, 0, varint_bytes(i as u64))),
            }
        },
        ScalarM::Tagged(tag, value) => Ok(
            seg(TYPE_OPAQUE, 0, prefixed(encode_utf8(tag)) + prefixed(encode_utf8(value))),
        ),
        ScalarM::I64(v) => Ok(seg(TYPE_PRIMITIVE, PRIM_I64, spec_u64_to_le_bytes(v as u64))),
        ScalarM::U64(v) => Ok(seg(TYPE_PRIMITIVE, PRIM_U64, spec_u64_to_le_bytes(v))),
        ScalarM::Vi64(v) => Ok(seg(TYPE_PRIMITIVE, PRIM_VI64, varint_bytes(spec_zigzag_encode(v)))),
        ScalarM::Vu64(v) => Ok(seg(TYPE_PRIMITIVE, PRIM_VU64, varint_bytes(v))),
        ScalarM::F32(bits) => Ok(seg(TYPE_PRIMITIVE, PRIM_F32, spec_u32_to_le_bytes(bits))),
        ScalarM::F64(bits) => Ok(seg(TYPE_PRIMITIVE, PRIM_F64, spec_u64_to_le_bytes(bits))),
    }
}

/// The segment of a field name: a symbol segment when there is a symbol
/// table (which must hold the name), else a string segment.
pub open spec fn enc_field_name(name: Seq<char>, syms: Seq<Seq<char>>, has_symtab: bool) -> Result<Seq<u8>, ErrorModel> {
    if has_symtab {
        match sym_index(syms, name, 0) {
            None => Err(invalid("missing symbol table entry for field '"@ + name + "'"@)),
            Some(i) => Ok(seg(TYPE_SYMBOL, 0, varint_bytes(i as u64))),
        }
    } else {
        Ok(str_segment(name))
    }
}

/// The optional type name at the start of a payload: `1` and a string
/// segment, or `0`.
pub open spec fn enc_label(tn: Option<Seq<char>>) -> Seq<u8> {
    match tn {
        Some(name) => seq![1u8] + str_segment(name),
        None => seq![0u8],
    }
}

/// `a` followed by `b`, when both could be made.
pub open spec fn then(a: Result<Seq<u8>, ErrorModel>, b: Result<Seq<u8>, ErrorModel>) -> Result<Seq<u8>, ErrorModel> {
    match a {
        Err(e) => Err(e),
        Ok(x) => match b {
            Err(e) => Err(e),
            Ok(y) => Ok(x + y),
        },
    }
}

/// The element code of a tensor's element type.
pub open spec fn tensor_type_code(t: Seq<char>) -> u8 {
    if t == "f32"@ {
        0x01
    } else if t == "f64"@ {
        0x02
    } else if t == "i64"@ {
        0x10
    } else if t == "u64"@ {
        0x11
    } else {
        0xFF
    }
}

/// The dimensions of a tensor, each as a varint (0 for an unknown one).
pub open spec fn shape_bytes(shape: Seq<Option<u64>>) -> Seq<u8>
    decreases shape.len(),
{
    if shape.len() == 0 {
        Seq::empty()
    } else {
        shape_bytes(shape.drop_last()) + varint_bytes(
            match shape.last() {
                Some(v) => v,
                None => 0,
            },
        )
    }
}

/// Eight-byte little-endian words.
pub open spec fn words_bytes(ws: Seq<u64>) -> Seq<u8>
    decreases ws.len(),
{
    if ws.len() == 0 {
        Seq::empty()
    } else {
        words_bytes(ws.drop_last()) + spec_u64_to_le_bytes(ws.last())
    }
}

/// The data of a tensor: the element count as eight little-endian bytes,
/// then the elements.
pub open spec fn tensor_data_bytes(d: TensorDataM) -> Seq<u8> {
    match d {
        TensorDataM::DenseF64(ws) => spec_u64_to_le_bytes(ws.len() as u64) + words_bytes(ws),
        TensorDataM::DenseI64(vs) => spec_u64_to_le_bytes(vs.len() as u64) + words_bytes(
            vs.map_values(|v: i64| v as u64),
        ),
        TensorDataM::DenseU64(ws) => spec_u64_to_le_bytes(ws.len() as u64) + words_bytes(ws),
        TensorDataM::BinaryBlob(b) => spec_u64_to_le_bytes(b.len() as u64) + b,
    }
}

/// The payload of a tensor: element code, dimension count, the row-major
/// flag, a reserved byte, the shape and the data. (Its annotations are not
/// written.)
pub open spec fn enc_tensor(et: Seq<char>, shape: Seq<Option<u64>>, d: TensorDataM) -> Result<Seq<u8>, ErrorModel> {
    if shape.len() > 255 {
        Err(invalid("tensor dimensionality exceeds u8"@))
    } else {
        Ok(seq![tensor_type_code(et), shape.len() as u8, 0x01u8, 0u8] + shape_bytes(shape) + tensor_data_bytes(d))
    }
}

/// The segments of stream annotations: name, then `1` and the scalar's
/// segment, or `0`.
pub open spec fn enc_annotations(anns: Seq<AnnotationM>, syms: Seq<Seq<char>>, has_symtab: bool) -> Result<Seq<u8>, ErrorModel>
    decreases anns.len(),
{
    if anns.len() == 0 {
        Ok(Seq::empty())
    } else {
        let a = anns[0];
        then(
            then(
                Ok(str_segment(a.name)),
                match a.value {
                    Some(v) => then(Ok(seq![1u8]), enc_scalar(v, syms, has_symtab)),
                    None => Ok(seq![0u8]),
                },
            ),
            enc_annotations(anns.subrange(1, anns.len() as int), syms, has_symtab),
        )
    }
}

/// The offset table of items with the given encodings, the first starting
/// at `running`: each start as four little-endian bytes, none of which may
/// exceed `u32::MAX`.
pub open spec fn offset_table(bufs: Seq<Seq<u8>>, running: nat) -> Option<Seq<u8>>
    decreases bufs.len(),
{
    if bufs.len() == 0 {
        Some(Seq::empty())
    } else if running > u32::MAX {
        None
    } else {
        match offset_table(bufs.drop_first(), running + bufs[0].len()) {
            Some(t) => Some(spec_u32_to_le_bytes(running as u32) + t),
            None => None,
        }
    }
}

/// The encodings of a list, one after another.
pub open spec fn flatten(bufs: Seq<Seq<u8>>) -> Seq<u8>
    decreases bufs.len(),
{
    if bufs.len() == 0 {
        Seq::empty()
    } else {
        flatten(bufs.drop_last()) + bufs.last()
    }
}

/// Items behind an offset table: the table, then the items; `what` names
/// the container in the error for offsets beyond `u32::MAX`.
pub open spec fn with_table(bufs: Seq<Seq<u8>>, what: Seq<char>) -> Result<Seq<u8>, ErrorModel> {
    match offset_table(bufs, 0) {
        Some(t) => Ok(t + flatten(bufs)),
        None => Err(invalid(what + " segment payload exceeds u32 offsets"@)),
    }
}

/// The segment of a value.
pub open spec fn enc_value(v: ValueM, syms: Seq<Seq<char>>, hs: bool) -> Result<Seq<u8>, ErrorModel>
    decreases v,
{
    match v {
        ValueM::Scalar(s) => enc_scalar(s, syms, hs),
        ValueM::Product(tn, fs) => match enc_fields(fs, syms, hs) {
            Err(e) => Err(e),
            Ok(b) => Ok(seg(TYPE_STRUCT, 0, enc_label(tn) + varint_bytes(fs.len() as u64) + b)),
        },
        ValueM::SumUnit(tn, variant) => Ok(seg(TYPE_ENUM, 0, enc_label(tn) + str_segment(variant) + seq![0u8])),
        ValueM::SumTuple(tn, variant, items) => match enc_values(items, syms, hs) {
            Err(e) => Err(e),
            Ok(b) => Ok(
                seg(
                    TYPE_ENUM,
                    0,
                    enc_label(tn) + str_segment(variant) + seq![1u8] + varint_bytes(items.len() as u64) + flatten(b),
                ),
            ),
        },
        ValueM::SumStruct(tn, variant, fs) => match enc_fields(fs, syms, hs) {
            Err(e) => Err(e),
            Ok(b) => Ok(
                seg(TYPE_ENUM, 0, enc_label(tn) + str_segment(variant) + seq![2u8] + varint_bytes(fs.len() as u64) + b),
            ),
        },
        ValueM::Sequence(et, items) => if items.len() == 0 {
            Ok(seg(TYPE_SPECIAL, SPECIAL_EMPTY_SEQUENCE, Seq::empty()))
        } else {
            match enc_values(items, syms, hs) {
                Err(e) => Err(e),
                Ok(bufs) => match with_table(bufs, "sequence"@) {
                    Err(e) => Err(e),
                    Ok(t) => Ok(seg(TYPE_SEQUENCE, HAS_OFFSET_TABLE, enc_label(et) + varint_bytes(items.len() as u64) + t)),
                },
            }
        },
        ValueM::Association(pairs) => if pairs.len() == 0 {
            Ok(seg(TYPE_SPECIAL, SPECIAL_EMPTY_MAP, Seq::empty()))
        } else {
            match enc_pairs(pairs, syms, hs) {
                Err(e) => Err(e),
                Ok(bufs) => match with_table(bufs, "map"@) {
                    Err(e) => Err(e),
                    Ok(t) => Ok(seg(TYPE_MAP, HAS_OFFSET_TABLE, varint_bytes(pairs.len() as u64) + t)),
                },
            }
        },
        ValueM::RefBinding(name) => Ok(seg(TYPE_REFERENCE, 0, seq![0u8] + prefixed(encode_utf8(name)))),
        ValueM::RefById(inner) => if inner.len() == 1 {
            match enc_value(inner[0], syms, hs) {
                Err(e) => Err(e),
                Ok(b) => Ok(seg(TYPE_REFERENCE, 0, seq![1u8] + b)),
            }
        } else {
            Err(invalid("reference-by-id holds one value"@))
        },
        ValueM::Tensor(et, shape, d, _) => match enc_tensor(et, shape, d) {
            Err(e) => Err(e),
            Ok(b) => Ok(seg(TYPE_TENSOR, 0, b)),
        },
        ValueM::Stream(it, anns) => match enc_annotations(anns, syms, hs) {
            Err(e) => Err(e),
            Ok(b) => Ok(seg(TYPE_STREAM, 0, str_segment(it) + varint_bytes(anns.len() as u64) + b)),
        },
        ValueM::Opaque(tag, bytes) => Ok(seg(TYPE_OPAQUE, 1, prefixed(encode_utf8(tag)) + prefixed(bytes))),
    }
}

/// The segments of fields: each name's segment, then its value's.
pub open spec fn enc_fields(fs: Seq<(Seq<char>, ValueM)>, syms: Seq<Seq<char>>, hs: bool) -> Result<Seq<u8>, ErrorModel>
    decreases fs,
{
    if fs.len() == 0 {
        Ok(Seq::empty())
    } else {
        then(
            then(enc_field_name(fs[0].0, syms, hs), enc_value(fs[0].1, syms, hs)),
            enc_fields(fs.subrange(1, fs.len() as int), syms, hs),
        )
    }
}

/// The segment of each value.
pub open spec fn enc_values(vs: Seq<ValueM>, syms: Seq<Seq<char>>, hs: bool) -> Result<Seq<Seq<u8>>, ErrorModel>
    decreases vs,
{
    if vs.len() == 0 {
        Ok(Seq::empty())
    } else {
        match enc_value(vs[0], syms, hs) {
            Err(e) => Err(e),
            Ok(b) => match enc_values(vs.subrange(1, vs.len() as int), syms, hs) {
                Err(e) => Err(e),
                Ok(rest) => Ok(seq![b] + rest),
            },
        }
    }
}

/// The key segment followed by the value segment of each pair.
pub open spec fn enc_pairs(ps: Seq<(ValueM, ValueM)>, syms: Seq<Seq<char>>, hs: bool) -> Result<Seq<Seq<u8>>, ErrorModel>
    decreases ps,
{
    if ps.len() == 0 {
        Ok(Seq::empty())
    } else {
        match then(enc_value(ps[0].0, syms, hs), enc_value(ps[0].1, syms, hs)) {
            Err(e) => Err(e),
            Ok(b) => match enc_pairs(ps.subrange(1, ps.len() as int), syms, hs) {
                Err(e) => Err(e),
                Ok(rest) => Ok(seq![b] + rest),
            },
        }
    }
}

/// The position of `name` in the symbol table of `ctx`, if it is there.
fn symbol_index(ctx: &EncodeCtx, name: &String) -> (r: Option<usize>)
    ensures
        match sym_index(syms_of(ctx.symbols@), name@, 0) {
            Some(i) => r matches Some(k) && k == i,
            None => r is None,
        },
{
    proof {
        lemma_sym_index(syms_of(ctx.symbols@), name@, 0);
    }
    let ghost syms = syms_of(ctx.symbols@);
    let mut i: usize = 0;
    while i < ctx.symbols.len()
        invariant
            i <= ctx.symbols@.len(),
            syms == syms_of(ctx.symbols@),
            sym_index(syms, name@, 0) == sym_index(syms, name@, i as nat),
        decreases ctx.symbols@.len() - i,
    {
        if ctx.symbols[i] == *name {
            return Some(i);
        }
        i = i + 1;
    }
    None
}

/// Append a segment with type `t`, configuration `c` and payload `p`.
fn push_segment(out: &mut Vec<u8>, t: u8, c: u8, p: &[u8])
    requires
        t <= 0x0F,
        c <= 0x0F,
    ensures
        final(out)@ == old(out)@ + seg(t, c, p@),
{
    let _ = write_segment_header(out, t, c, p.len());
    let ghost mid = out@;
    out.extend_from_slice(p);
    proof {
        assert(out@ =~= old(out)@ + seg(t, c, p@));
    }
}

/// Append a segment with an empty payload.
fn push_empty_segment(out: &mut Vec<u8>, t: u8, c: u8)
    requires
        t <= 0x0F,
        c <= 0x0F,
    ensures
        final(out)@ == old(out)@ + seg(t, c, Seq::empty()),
{
    let e: Vec<u8> = Vec::new();
    push_segment(out, t, c, e.as_slice());
}

/// Append the segment of a string.
fn push_str_segment(out: &mut Vec<u8>, s: &str)
    ensures
        final(out)@ == old(out)@ + str_segment(s@),
{
    let b = s.as_bytes();
    if b.len() == 0 {
        proof {
            vstd::utf8::encode_utf8_decode_utf8(s@);
            assert(s@.len() == 0) by {
                if s@.len() > 0 {
                    vstd::utf8::encode_utf8_decode_utf8(s@);
                    assert(encode_utf8(s@) =~= Seq::<u8>::empty());
                    assert(decode_utf8(Seq::<u8>::empty()) =~= Seq::<char>::empty());
                }
            }
        }
        proof {
            assert(b@ =~= Seq::<u8>::empty());
        }
        push_empty_segment(out, TYPE_SPECIAL, SPECIAL_EMPTY_STRING);
    } else {
        proof {
            assert(s@.len() != 0) by {
                if s@.len() == 0 {
                    assert(s@ =~= Seq::<char>::empty());
                    assert(encode_utf8(Seq::<char>::empty()) =~= Seq::<u8>::empty());
                }
            }
        }
        push_segment(out, TYPE_STRING, 0, b);
    }
}

/// Append bytes preceded by their length as a varint.
fn push_prefixed(out: &mut Vec<u8>, b: &[u8])
    ensures
        final(out)@ == old(out)@ + prefixed(b@),
{
    encode_varint_vec(b.len() as u64, out);
    out.extend_from_slice(b);
    proof {
        assert(out@ =~= old(out)@ + prefixed(b@));
    }
}

/// An outcome of writing agrees with the outcome its model gives.
pub open spec fn written(r: Result<(), SurpError>, before: Seq<u8>, after: Seq<u8>, s: Result<Seq<u8>, ErrorModel>) -> bool {
    match s {
        Ok(b) => r is Ok && after == before + b,
        Err(e) => r matches Err(x) && x@ == e,
    }
}

/// Append the segment of a scalar.
fn encode_scalar(s: &Scalar, ctx: &EncodeCtx, out: &mut Vec<u8>) -> (r: Result<(), SurpError>)
    ensures
        written(r, old(out)@, final(out)@, enc_scalar(s@, syms_of(ctx.symbols@), ctx.has_symtab)),
{
    match s {
        Scalar::Null => {
            push_empty_segment(out, TYPE_SPECIAL, SPECIAL_NULL);
            Ok(())
        },
        Scalar::Unit => {
            push_empty_segment(out, TYPE_SPECIAL, SPECIAL_UNIT);
            Ok(())
        },
        Scalar::Bool(b) => {
            push_empty_segment(out, TYPE_SPECIAL, if *b { SPECIAL_TRUE } else { SPECIAL_FALSE });
            Ok(())
        },
        Scalar::Str(t) => {
            push_str_segment(out, t.as_str());
            Ok(())
        },
        Scalar::Bytes(b) => {
            if b.len() == 0 {
                push_empty_segment(out, TYPE_SPECIAL, SPECIAL_EMPTY_BYTES);
                proof {
                    assert(b@ =~= Seq::<u8>::empty());
                }
            } else {
                push_segment(out, TYPE_BYTES, 0, b.as_slice());
            }
            Ok(())
        },
        Scalar::Sym(t) => {
            if !ctx.has_symtab {
                return Err(invalid_data("symbol encoding requires symbol table"));
            }
            match symbol_index(ctx, t) {
                None => {
                    let mut m = String::new();
                    push_text(&mut m, "missing symbol table entry '");
                    push_text(&mut m, t.as_str());
                    push_text(&mut m, "'");
                    Err(SurpError::InvalidData(m))
                },
                Some(i) => {
                    let mut p: Vec<u8> = Vec::new();
                    encode_varint_vec(i as u64, &mut p);
                    proof {
                        assert(p@ =~= varint_bytes(i as u64));
                    }
                    push_segment(out, TYPE_SYMBOL, 0, p.as_slice());
                    Ok(())
                },
            }
        },
        Scalar::Tagged { tag, value } => {
            let mut p: Vec<u8> = Vec::new();
            push_prefixed(&mut p, tag.as_str().as_bytes());
            push_prefixed(&mut p, value.as_str().as_bytes());
            proof {
                assert(p@ =~= prefixed(encode_utf8(tag@)) + prefixed(encode_utf8(value@)));
            }
            push_segment(out, TYPE_OPAQUE, 0, p.as_slice());
            Ok(())
        },
        Scalar::I64(v) => {
            let p = u64_to_le_bytes(#[verifier::truncate] (*v as u64));
            push_segment(out, TYPE_PRIMITIVE, PRIM_I64, p.as_slice());
            Ok(())
        },
        Scalar::U64(v) => {
            let p = u64_to_le_bytes(*v);
            push_segment(out, TYPE_PRIMITIVE, PRIM_U64, p.as_slice());
            Ok(())
        },
        Scalar::Vi64(v) => {
            let mut p: Vec<u8> = Vec::new();
            encode_signed_varint_vec(*v, &mut p);
            proof {
                assert(p@ =~= varint_bytes(spec_zigzag_encode(*v)));
            }
            push_segment(out, TYPE_PRIMITIVE, PRIM_VI64, p.as_slice());
            Ok(())
        },
        Scalar::Vu64(v) => {
            let mut p: Vec<u8> = Vec::new();
            encode_varint_vec(*v, &mut p);
            proof {
                assert(p@ =~= varint_bytes(*v));
            }
            push_segment(out, TYPE_PRIMITIVE, PRIM_VU64, p.as_slice());
            Ok(())
        },
        Scalar::F32(bits) => {
            let p = u32_to_le_bytes(*bits);
            push_segment(out, TYPE_PRIMITIVE, PRIM_F32, p.as_slice());
            Ok(())
        },
        Scalar::F64(bits) => {
            let p = u64_to_le_bytes(*bits);
            push_segment(out, TYPE_PRIMITIVE, PRIM_F64, p.as_slice());
            Ok(())
        },
    }
}

/// `then` of outcomes that both succeed is the concatenation; a failing
/// first outcome is the outcome.
pub proof fn lemma_then_assoc(a: Seq<u8>, b: Result<Seq<u8>, ErrorModel>, c: Result<Seq<u8>, ErrorModel>)
    ensures
        then(Ok(a), then(b, c)) == then(then(Ok(a), b), c),
{
    match b {
        Ok(x) => match c {
            Ok(y) => {
                assert(a + (x + y) =~= (a + x) + y);
            },
            Err(_) => {},
        },
        Err(_) => {},
    }
}

/// The encodings of a list of buffers.
pub open spec fn bufs_model(bufs: Seq<Vec<u8>>) -> Seq<Seq<u8>> {
    bufs.map_values(|b: Vec<u8>| b@)
}

/// The buffers `pre` already made, followed by the outcome `r` of making the rest.
pub open spec fn cons_bufs(pre: Seq<Seq<u8>>, r: Result<Seq<Seq<u8>>, ErrorModel>) -> Result<Seq<Seq<u8>>, ErrorModel> {
    match r {
        Ok(rest) => Ok(pre + rest),
        Err(e) => Err(e),
    }
}

/// The table entries `pre` already made, followed by the rest.
pub open spec fn cons_table(pre: Seq<u8>, r: Option<Seq<u8>>) -> Option<Seq<u8>> {
    match r {
        Some(t) => Some(pre + t),
        None => None,
    }
}

/// Append the segments of fields.
fn encode_fields(fields: &Vec<Field>, ctx: &EncodeCtx, out: &mut Vec<u8>) -> (r: Result<(), SurpError>)
    ensures
        written(r, old(out)@, final(out)@, enc_fields(fields_model(fields@), syms_of(ctx.symbols@), ctx.has_symtab)),
    decreases fields,
{
    let ghost all = fields_model(fields@);
    let ghost syms = syms_of(ctx.symbols@);
    let mut i: usize = 0;
    proof {
        assert(all.subrange(0, all.len() as int) =~= all);
        assert(old(out)@ + Seq::<u8>::empty() =~= old(out)@);
        lemma_then_empty(enc_fields(all, syms, ctx.has_symtab));
    }
    while i < fields.len()
        invariant
            i <= fields@.len(),
            all == fields_model(fields@),
            syms == syms_of(ctx.symbols@),
            out@.len() >= old(out)@.len(),
            out@.subrange(0, old(out)@.len() as int) == old(out)@,
            enc_fields(all, syms, ctx.has_symtab) == then(
                Ok(out@.subrange(old(out)@.len() as int, out@.len() as int)),
                enc_fields(all.subrange(i as int, all.len() as int), syms, ctx.has_symtab),
            ),
        decreases fields@.len() - i,
    {
        let ghost acc = out@.subrange(old(out)@.len() as int, out@.len() as int);
        let ghost rest = all.subrange(i as int, all.len() as int);
        let ghost o1 = out@;
        proof {
            assert(rest.subrange(1, rest.len() as int) =~= all.subrange(i + 1, all.len() as int));
            assert(rest[0] == (fields@[i as int].name@, fields@[i as int].value@));
            lemma_then_assoc(acc, then(enc_field_name(rest[0].0, syms, ctx.has_symtab), enc_value(rest[0].1, syms, ctx.has_symtab)), enc_fields(all.subrange(i + 1, all.len() as int), syms, ctx.has_symtab));
            lemma_then_assoc(acc, enc_field_name(rest[0].0, syms, ctx.has_symtab), enc_value(rest[0].1, syms, ctx.has_symtab));
        }
        match encode_field_name(&fields[i].name, ctx, out) {
            Ok(_) => {},
            Err(e) => {
                return Err(e);
            },
        }
        let ghost o2 = out@;
        proof {
            assert(decreases_to!(*fields => fields@));
            assert(decreases_to!(fields@ => fields@[i as int]));
            assert(decreases_to!(fields@[i as int] => fields@[i as int].value));
        }
        match encode_segment(&fields[i].value, ctx, out) {
            Ok(_) => {},
            Err(e) => {
                proof {
                    lemma_then_assoc(acc, Ok(o2.subrange(o1.len() as int, o2.len() as int)), enc_value(rest[0].1, syms, ctx.has_symtab));
                }
                return Err(e);
            },
        }
        proof {
            let nb = enc_field_name(rest[0].0, syms, ctx.has_symtab)->Ok_0;
            let vb = enc_value(rest[0].1, syms, ctx.has_symtab)->Ok_0;
            assert(o2 == o1 + nb);
            assert(out@ == o2 + vb);
            assert(o1.subrange(0, old(out)@.len() as int) =~= old(out)@);
            assert(o1 =~= old(out)@ + acc);
            assert(out@.subrange(old(out)@.len() as int, out@.len() as int) =~= acc + (nb + vb));
            assert(out@.subrange(0, old(out)@.len() as int) =~= old(out)@);
        }
        i = i + 1;
    }
    proof {
        assert(all.subrange(i as int, all.len() as int) =~= Seq::<(Seq<char>, ValueM)>::empty());
        assert(out@ =~= old(out)@ + out@.subrange(old(out)@.len() as int, out@.len() as int));
    }
    Ok(())
}

/// `then` with an empty start changes nothing.
pub proof fn lemma_then_empty(r: Result<Seq<u8>, ErrorModel>)
    ensures
        then(Ok(Seq::empty()), r) == r,
{
    if let Ok(x) = r {
        assert(Seq::<u8>::empty() + x =~= x);
    }
}

/// Append the segment of a field name.
fn encode_field_name(name: &String, ctx: &EncodeCtx, out: &mut Vec<u8>) -> (r: Result<(), SurpError>)
    ensures
        written(r, old(out)@, final(out)@, enc_field_name(name@, syms_of(ctx.symbols@), ctx.has_symtab)),
{
    if ctx.has_symtab {
        match symbol_index(ctx, name) {
            None => {
                let mut m = String::new();
                push_text(&mut m, "missing symbol table entry for field '");
                push_text(&mut m, name.as_str());
                push_text(&mut m, "'");
                Err(SurpError::InvalidData(m))
            },
            Some(i) => {
                let mut p: Vec<u8> = Vec::new();
                encode_varint_vec(i as u64, &mut p);
                proof {
                    assert(p@ =~= varint_bytes(i as u64));
                }
                push_segment(out, TYPE_SYMBOL, 0, p.as_slice());
                Ok(())
            },
        }
    } else {
        push_str_segment(out, name.as_str());
        Ok(())
    }
}

/// The segment of each value, each in a buffer of its own.
fn encode_values(items: &Vec<Value>, ctx: &EncodeCtx) -> (r: Result<Vec<Vec<u8>>, SurpError>)
    ensures
        match enc_values(values_model(items@), syms_of(ctx.symbols@), ctx.has_symtab) {
            Ok(bufs) => r matches Ok(v) && bufs_model(v@) == bufs,
            Err(e) => r matches Err(x) && x@ == e,
        },
    decreases items,
{
    let ghost all = values_model(items@);
    let ghost syms = syms_of(ctx.symbols@);
    let mut bufs: Vec<Vec<u8>> = Vec::new();
    let mut i: usize = 0;
    proof {
        assert(all.subrange(0, all.len() as int) =~= all);
        if let Ok(x) = enc_values(all, syms, ctx.has_symtab) {
            assert(bufs_model(bufs@) + x =~= x);
        }
    }
    while i < items.len()
        invariant
            i <= items@.len(),
            all == values_model(items@),
            syms == syms_of(ctx.symbols@),
            enc_values(all, syms, ctx.has_symtab) == cons_bufs(
                bufs_model(bufs@),
                enc_values(all.subrange(i as int, all.len() as int), syms, ctx.has_symtab),
            ),
        decreases items@.len() - i,
    {
        let ghost rest = all.subrange(i as int, all.len() as int);
        proof {
            assert(rest.subrange(1, rest.len() as int) =~= all.subrange(i + 1, all.len() as int));
            assert(rest[0] == items@[i as int]@);
            assert(decreases_to!(*items => items@));
            assert(decreases_to!(items@ => items@[i as int]));
        }
        let mut b: Vec<u8> = Vec::new();
        match encode_segment(&items[i], ctx, &mut b) {
            Ok(_) => {},
            Err(e) => {
                return Err(e);
            },
        }
        proof {
            assert(b@ =~= Seq::<u8>::empty() + b@);
            assert(bufs_model(bufs@.push(b)) =~= bufs_model(bufs@).push(b@));
            if let Ok(x) = enc_values(all.subrange(i + 1, all.len() as int), syms, ctx.has_symtab) {
                assert(bufs_model(bufs@) + (seq![b@] + x) =~= bufs_model(bufs@).push(b@) + x);
            }
        }
        bufs.push(b);
        i = i + 1;
    }
    proof {
        assert(all.subrange(i as int, all.len() as int) =~= Seq::<ValueM>::empty());
        assert(bufs_model(bufs@) + Seq::<Seq<u8>>::empty() =~= bufs_model(bufs@));
    }
    Ok(bufs)
}

/// The key segment followed by the value segment of each pair, each pair
/// in a buffer of its own.
fn encode_pairs(pairs: &Vec<(Value, Value)>, ctx: &EncodeCtx) -> (r: Result<Vec<Vec<u8>>, SurpError>)
    ensures
        match enc_pairs(pairs_model(pairs@), syms_of(ctx.symbols@), ctx.has_symtab) {
            Ok(bufs) => r matches Ok(v) && bufs_model(v@) == bufs,
            Err(e) => r matches Err(x) && x@ == e,
        },
    decreases pairs,
{
    let ghost all = pairs_model(pairs@);
    let ghost syms = syms_of(ctx.symbols@);
    let mut bufs: Vec<Vec<u8>> = Vec::new();
    let mut i: usize = 0;
    proof {
        assert(all.subrange(0, all.len() as int) =~= all);
        if let Ok(x) = enc_pairs(all, syms, ctx.has_symtab) {
            assert(bufs_model(bufs@) + x =~= x);
        }
    }
    while i < pairs.len()
        invariant
            i <= pairs@.len(),
            all == pairs_model(pairs@),
            syms == syms_of(ctx.symbols@),
            enc_pairs(all, syms, ctx.has_symtab) == cons_bufs(
                bufs_model(bufs@),
                enc_pairs(all.subrange(i as int, all.len() as int), syms, ctx.has_symtab),
            ),
        decreases pairs@.len() - i,
    {
        let ghost rest = all.subrange(i as int, all.len() as int);
        proof {
            assert(rest.subrange(1, rest.len() as int) =~= all.subrange(i + 1, all.len() as int));
            assert(rest[0] == (pairs@[i as int].0@, pairs@[i as int].1@));
            assert(decreases_to!(*pairs => pairs@));
            assert(decreases_to!(pairs@ => pairs@[i as int]));
            assert(decreases_to!(pairs@[i as int] => pairs@[i as int].0));
            assert(decreases_to!(pairs@[i as int] => pairs@[i as int].1));
        }
        let mut b: Vec<u8> = Vec::new();
        match encode_segment(&pairs[i].0, ctx, &mut b) {
            Ok(_) => {},
            Err(e) => {
                return Err(e);
            },
        }
        let ghost kb = b@;
        match encode_segment(&pairs[i].1, ctx, &mut b) {
            Ok(_) => {},
            Err(e) => {
                return Err(e);
            },
        }
        proof {
            assert(kb =~= Seq::<u8>::empty() + kb);
            assert(bufs_model(bufs@.push(b)) =~= bufs_model(bufs@).push(b@));
            if let Ok(x) = enc_pairs(all.subrange(i + 1, all.len() as int), syms, ctx.has_symtab) {
                assert(bufs_model(bufs@) + (seq![b@] + x) =~= bufs_model(bufs@).push(b@) + x);
            }
        }
        bufs.push(b);
        i = i + 1;
    }
    proof {
        assert(all.subrange(i as int, all.len() as int) =~= Seq::<(ValueM, ValueM)>::empty());
        assert(bufs_model(bufs@) + Seq::<Seq<u8>>::empty() =~= bufs_model(bufs@));
    }
    Ok(bufs)
}

/// Append an offset table for `bufs`, then the buffers themselves.
fn push_table(out: &mut Vec<u8>, bufs: &Vec<Vec<u8>>, what: &str) -> (r: Result<(), SurpError>)
    ensures
        written(r, old(out)@, final(out)@, with_table(bufs_model(bufs@), what@)),
{
    let ghost all = bufs_model(bufs@);
    let mut running: u128 = 0;
    let mut i: usize = 0;
    proof {
        assert(all.subrange(0, all.len() as int) =~= all);
        if let Some(t) = offset_table(all, 0) {
            assert(out@.subrange(old(out)@.len() as int, out@.len() as int) + t =~= t);
        }
    }
    while i < bufs.len()
        invariant
            i <= bufs@.len(),
            all == bufs_model(bufs@),
            running <= u32::MAX + usize::MAX,
            out@.len() >= old(out)@.len(),
            out@.subrange(0, old(out)@.len() as int) == old(out)@,
            offset_table(all, 0) == cons_table(
                out@.subrange(old(out)@.len() as int, out@.len() as int),
                offset_table(all.subrange(i as int, all.len() as int), running as nat),
            ),
        decreases bufs@.len() - i,
    {
        let ghost rest = all.subrange(i as int, all.len() as int);
        let ghost acc = out@.subrange(old(out)@.len() as int, out@.len() as int);
        proof {
            assert(rest.drop_first() =~= all.subrange(i + 1, all.len() as int));
            assert(rest[0] == bufs@[i as int]@);
        }
        if running > 0xFFFF_FFFF {
            let mut m = String::new();
            push_text(&mut m, what);
            push_text(&mut m, " segment payload exceeds u32 offsets");
            return Err(SurpError::InvalidData(m));
        }
        let le = u32_to_le_bytes(running as u32);
        out.extend_from_slice(le.as_slice());
        running = running + bufs[i].len() as u128;
        proof {
            if let Some(t) = offset_table(all.subrange(i + 1, all.len() as int), running as nat) {
                assert(acc + (spec_u32_to_le_bytes((running - bufs@[i as int]@.len()) as u32) + t) =~= out@.subrange(old(out)@.len() as int, out@.len() as int) + t);
            }
            assert(out@.subrange(0, old(out)@.len() as int) =~= old(out)@);
        }
        i = i + 1;
    }
    let ghost table = out@.subrange(old(out)@.len() as int, out@.len() as int);
    proof {
        assert(all.subrange(i as int, all.len() as int) =~= Seq::<Seq<u8>>::empty());
        assert(table + Seq::<u8>::empty() =~= table);
        assert(all.subrange(0, 0) =~= Seq::<Seq<u8>>::empty());
        assert(out@ =~= old(out)@ + table + flatten(all.subrange(0, 0)));
    }
    let mut j: usize = 0;
    while j < bufs.len()
        invariant
            j <= bufs@.len(),
            all == bufs_model(bufs@),
            out@ == old(out)@ + table + flatten(all.subrange(0, j as int)),
        decreases bufs@.len() - j,
    {
        out.extend_from_slice(bufs[j].as_slice());
        proof {
            assert(all.subrange(0, j + 1).drop_last() =~= all.subrange(0, j as int));
            assert(out@ =~= old(out)@ + table + flatten(all.subrange(0, j + 1)));
        }
        j = j + 1;
    }
    proof {
        assert(all.subrange(0, j as int) =~= all);
        assert(out@ =~= old(out)@ + (table + flatten(all)));
    }
    Ok(())
}

/// The element code of a tensor's element type.
pub fn tensor_element_type_code(element_type: &String) -> (r: u8)
    ensures
        r == tensor_type_code(element_type@),
{
    if *element_type == String::from_str("f32") {
        0x01
    } else if *element_type == String::from_str("f64") {
        0x02
    } else if *element_type == String::from_str("i64") {
        0x10
    } else if *element_type == String::from_str("u64") {
        0x11
    } else {
        0xFF
    }
}

/// Append eight-byte little-endian words.
fn push_words(out: &mut Vec<u8>, ws: &Vec<u64>)
    ensures
        final(out)@ == old(out)@ + words_bytes(ws@),
{
    let mut i: usize = 0;
    proof {
        assert(ws@.subrange(0, 0) =~= Seq::<u64>::empty());
        assert(out@ =~= old(out)@ + words_bytes(ws@.subrange(0, 0)));
    }
    while i < ws.len()
        invariant
            i <= ws@.len(),
            out@ == old(out)@ + words_bytes(ws@.subrange(0, i as int)),
        decreases ws@.len() - i,
    {
        let le = u64_to_le_bytes(ws[i]);
        out.extend_from_slice(le.as_slice());
        proof {
            assert(ws@.subrange(0, i + 1).drop_last() =~= ws@.subrange(0, i as int));
            assert(out@ =~= old(out)@ + words_bytes(ws@.subrange(0, i + 1)));
        }
        i = i + 1;
    }
    proof {
        assert(ws@.subrange(0, i as int) =~= ws@);
    }
}

/// Append the payload of a tensor.
fn encode_tensor(t: &Tensor, out: &mut Vec<u8>) -> (r: Result<(), SurpError>)
    ensures
        written(r, old(out)@, final(out)@, enc_tensor(t.element_type@, t.shape@, t.data@)),
{
    if t.shape.len() > 255 {
        return Err(invalid_data("tensor dimensionality exceeds u8"));
    }
    out.push(tensor_element_type_code(&t.element_type));
    out.push(t.shape.len() as u8);
    out.push(0x01);
    out.push(0);
    let ghost head = out@;
    let mut i: usize = 0;
    proof {
        assert(t.shape@.subrange(0, 0) =~= Seq::<Option<u64>>::empty());
        assert(out@ =~= head + shape_bytes(t.shape@.subrange(0, 0)));
    }
    while i < t.shape.len()
        invariant
            i <= t.shape@.len(),
            out@ == head + shape_bytes(t.shape@.subrange(0, i as int)),
        decreases t.shape@.len() - i,
    {
        let d = match t.shape[i] {
            Some(v) => v,
            None => 0,
        };
        encode_varint_vec(d, out);
        proof {
            assert(t.shape@.subrange(0, i + 1).drop_last() =~= t.shape@.subrange(0, i as int));
            assert(out@ =~= head + shape_bytes(t.shape@.subrange(0, i + 1)));
        }
        i = i + 1;
    }
    proof {
        assert(t.shape@.subrange(0, i as int) =~= t.shape@);
    }
    let ghost mid = out@;
    match &t.data {
        TensorData::DenseF64(ws) => {
            let le = u64_to_le_bytes(ws.len() as u64);
            out.extend_from_slice(le.as_slice());
            push_words(out, ws);
        },
        TensorData::DenseI64(vs) => {
            let le = u64_to_le_bytes(vs.len() as u64);
            out.extend_from_slice(le.as_slice());
            let mut ws: Vec<u64> = Vec::new();
            let mut k: usize = 0;
            while k < vs.len()
                invariant
                    k <= vs@.len(),
                    ws@ == vs@.subrange(0, k as int).map_values(|v: i64| v as u64),
                decreases vs@.len() - k,
            {
                ws.push(#[verifier::truncate] (vs[k] as u64));
                k = k + 1;
                proof {
                    assert(ws@ =~= vs@.subrange(0, k as int).map_values(|v: i64| v as u64));
                }
            }
            proof {
                assert(vs@.subrange(0, k as int) =~= vs@);
            }
            push_words(out, &ws);
        },
        TensorData::DenseU64(ws) => {
            let le = u64_to_le_bytes(ws.len() as u64);
            out.extend_from_slice(le.as_slice());
            push_words(out, ws);
        },
        TensorData::BinaryBlob(b) => {
            let le = u64_to_le_bytes(b.len() as u64);
            out.extend_from_slice(le.as_slice());
            out.extend_from_slice(b.as_slice());
        },
    }
    proof {
        assert(out@ =~= old(out)@ + (seq![tensor_type_code(t.element_type@), t.shape@.len() as u8, 0x01u8, 0u8]
            + shape_bytes(t.shape@) + tensor_data_bytes(t.data@)));
    }
    Ok(())
}

/// Append the segments of stream annotations.
fn encode_annotations(anns: &Vec<Annotation>, ctx: &EncodeCtx, out: &mut Vec<u8>) -> (r: Result<(), SurpError>)
    ensures
        written(r, old(out)@, final(out)@, enc_annotations(annotations_view(anns@), syms_of(ctx.symbols@), ctx.has_symtab)),
{
    let ghost all = annotations_view(anns@);
    let ghost syms = syms_of(ctx.symbols@);
    let mut i: usize = 0;
    proof {
        assert(all.subrange(0, all.len() as int) =~= all);
        lemma_then_empty(enc_annotations(all, syms, ctx.has_symtab));
        assert(out@.subrange(old(out)@.len() as int, out@.len() as int) =~= Seq::<u8>::empty());
    }
    while i < anns.len()
        invariant
            i <= anns@.len(),
            all == annotations_view(anns@),
            syms == syms_of(ctx.symbols@),
            out@.len() >= old(out)@.len(),
            out@.subrange(0, old(out)@.len() as int) == old(out)@,
            enc_annotations(all, syms, ctx.has_symtab) == then(
                Ok(out@.subrange(old(out)@.len() as int, out@.len() as int)),
                enc_annotations(all.subrange(i as int, all.len() as int), syms, ctx.has_symtab),
            ),
        decreases anns@.len() - i,
    {
        let ghost acc = out@.subrange(old(out)@.len() as int, out@.len() as int);
        let ghost rest = all.subrange(i as int, all.len() as int);
        let ghost o1 = out@;
        let a = &anns[i];
        let ghost vpart = match a@.value {
            Some(v) => then(Ok(seq![1u8]), enc_scalar(v, syms, ctx.has_symtab)),
            None => Ok(seq![0u8]),
        };
        proof {
            assert(rest.subrange(1, rest.len() as int) =~= all.subrange(i + 1, all.len() as int));
            assert(rest[0] == a@);
            lemma_then_assoc(acc, then(Ok(str_segment(a@.name)), vpart), enc_annotations(all.subrange(i + 1, all.len() as int), syms, ctx.has_symtab));
            lemma_then_assoc(acc, Ok(str_segment(a@.name)), vpart);
        }
        push_str_segment(out, a.name.as_str());
        let ghost o2 = out@;
        match &a.value {
            Some(v) => {
                out.push(1);
                let ghost o3 = out@;
                match encode_scalar(v, ctx, out) {
                    Ok(_) => {},
                    Err(e) => {
                        return Err(e);
                    },
                }
                proof {
                    let sb = enc_scalar(v@, syms, ctx.has_symtab)->Ok_0;
                    assert(o3 =~= o2 + seq![1u8]);
                    assert(out@.subrange(o2.len() as int, out@.len() as int) =~= seq![1u8] + sb);
                }
            },
            None => {
                out.push(0);
                proof {
                    assert(out@.subrange(o2.len() as int, out@.len() as int) =~= seq![0u8]);
                }
            },
        }
        proof {
            assert(o2 =~= o1 + str_segment(a@.name));
            let vb = out@.subrange(o2.len() as int, out@.len() as int);
            assert(out@ =~= o2 + vb);
            assert(vpart == Ok::<Seq<u8>, ErrorModel>(vb));
            assert(out@.subrange(old(out)@.len() as int, out@.len() as int) =~= acc + str_segment(a@.name) + vb);
            assert(out@.subrange(0, old(out)@.len() as int) =~= old(out)@);
        }
        i = i + 1;
    }
    proof {
        assert(all.subrange(i as int, all.len() as int) =~= Seq::<AnnotationM>::empty());
        assert(out@ =~= old(out)@ + out@.subrange(old(out)@.len() as int, out@.len() as int));
    }
    Ok(())
}

/// Append the optional type name at the start of a payload.
fn push_label(out: &mut Vec<u8>, tn: &Option<String>)
    ensures
        final(out)@ == old(out)@ + enc_label(opt_text(*tn)),
{
    match tn {
        Some(name) => {
            out.push(1);
            push_str_segment(out, name.as_str());
            proof {
                assert(out@ =~= old(out)@ + (seq![1u8] + str_segment(name@)));
            }
        },
        None => {
            out.push(0);
            proof {
                assert(out@ =~= old(out)@ + seq![0u8]);
            }
        },
    }
}

/// Append the segment of a product.
fn encode_product(p: &Product, ctx: &EncodeCtx, out: &mut Vec<u8>) -> (r: Result<(), SurpError>)
    ensures
        written(r, old(out)@, final(out)@, enc_value(Value::Product(*p)@, syms_of(ctx.symbols@), ctx.has_symtab)),
    decreases p,
{
    let mut payload: Vec<u8> = Vec::new();
    push_label(&mut payload, &p.type_label);
    encode_varint_vec(p.fields.len() as u64, &mut payload);
    let ghost head = payload@;
    proof {
        lemma_product_view(p.type_label, p.fields);
        assert(decreases_to!(*p => p.fields));
    }
    match encode_fields(&p.fields, ctx, &mut payload) {
        Ok(_) => {},
        Err(e) => {
            return Err(e);
        },
    }
    push_segment(out, TYPE_STRUCT, 0, payload.as_slice());
    Ok(())
}

/// Append the bytes of `bufs`, one after another.
fn push_all(out: &mut Vec<u8>, bufs: &Vec<Vec<u8>>)
    ensures
        final(out)@ == old(out)@ + flatten(bufs_model(bufs@)),
{
    let ghost all = bufs_model(bufs@);
    let mut j: usize = 0;
    proof {
        assert(all.subrange(0, 0) =~= Seq::<Seq<u8>>::empty());
        assert(out@ =~= old(out)@ + flatten(all.subrange(0, 0)));
    }
    while j < bufs.len()
        invariant
            j <= bufs@.len(),
            all == bufs_model(bufs@),
            out@ == old(out)@ + flatten(all.subrange(0, j as int)),
        decreases bufs@.len() - j,
    {
        out.extend_from_slice(bufs[j].as_slice());
        proof {
            assert(all.subrange(0, j + 1).drop_last() =~= all.subrange(0, j as int));
            assert(out@ =~= old(out)@ + flatten(all.subrange(0, j + 1)));
        }
        j = j + 1;
    }
    proof {
        assert(all.subrange(0, j as int) =~= all);
    }
}

/// Append the segment of a sum.
fn encode_sum(sm: &Sum, ctx: &EncodeCtx, out: &mut Vec<u8>) -> (r: Result<(), SurpError>)
    ensures
        written(r, old(out)@, final(out)@, enc_value(Value::Sum(*sm)@, syms_of(ctx.symbols@), ctx.has_symtab)),
    decreases sm,
{
    let mut payload: Vec<u8> = Vec::new();
    push_label(&mut payload, &sm.type_label);
    push_str_segment(&mut payload, sm.variant.as_str());
    let ghost head = payload@;
    proof {
        lemma_sum_view(sm.type_label, sm.variant, sm.payload);
        assert(head =~= enc_label(opt_text(sm.type_label)) + str_segment(sm.variant@));
    }
    match &sm.payload {
        SumPayload::Unit => {
            payload.push(0);
            proof {
                assert(payload@ =~= head + seq![0u8]);
            }
        },
        SumPayload::Tuple(items) => {
            payload.push(1);
            encode_varint_vec(items.len() as u64, &mut payload);
            let ghost head2 = payload@;
            proof {
                assert(head2 =~= head + seq![1u8] + varint_bytes(items@.len() as u64));
            }
            proof {
                assert(decreases_to!(*sm => sm.payload));
                assert(decreases_to!(sm.payload => sm.payload->Tuple_0));
            }
            let bufs = match encode_values(items, ctx) {
                Ok(b) => b,
                Err(e) => {
                    return Err(e);
                },
            };
            push_all(&mut payload, &bufs);
            proof {
                assert(payload@ =~= head + seq![1u8] + varint_bytes(items@.len() as u64) + flatten(bufs_model(bufs@)));
            }
        },
        SumPayload::Struct(fields) => {
            payload.push(2);
            encode_varint_vec(fields.len() as u64, &mut payload);
            let ghost head2 = payload@;
            proof {
                assert(head2 =~= head + seq![2u8] + varint_bytes(fields@.len() as u64));
            }
            proof {
                assert(decreases_to!(*sm => sm.payload));
                assert(decreases_to!(sm.payload => sm.payload->Struct_0));
            }
            match encode_fields(fields, ctx, &mut payload) {
                Ok(_) => {},
                Err(e) => {
                    return Err(e);
                },
            }
            proof {
                let fb = enc_fields(fields_model(fields@), syms_of(ctx.symbols@), ctx.has_symtab)->Ok_0;
                assert(payload@ =~= head + seq![2u8] + varint_bytes(fields@.len() as u64) + fb);
            }
        },
    }
    push_segment(out, TYPE_ENUM, 0, payload.as_slice());
    Ok(())
}

/// Append the segment of a sequence.
fn encode_sequence(q: &Sequence, ctx: &EncodeCtx, out: &mut Vec<u8>) -> (r: Result<(), SurpError>)
    ensures
        written(r, old(out)@, final(out)@, enc_value(Value::Sequence(*q)@, syms_of(ctx.symbols@), ctx.has_symtab)),
    decreases q,
{
    proof {
        lemma_sequence_view(q.elem_type, q.items);
    }
    if q.items.len() == 0 {
        push_empty_segment(out, TYPE_SPECIAL, SPECIAL_EMPTY_SEQUENCE);
        return Ok(());
    }
    let mut payload: Vec<u8> = Vec::new();
    push_label(&mut payload, &q.elem_type);
    encode_varint_vec(q.items.len() as u64, &mut payload);
    proof {
        assert(decreases_to!(*q => q.items));
    }
    let bufs = match encode_values(&q.items, ctx) {
        Ok(b) => b,
        Err(e) => {
            return Err(e);
        },
    };
    match push_table(&mut payload, &bufs, "sequence") {
        Ok(_) => {},
        Err(e) => {
            return Err(e);
        },
    }
    push_segment(out, TYPE_SEQUENCE, HAS_OFFSET_TABLE, payload.as_slice());
    Ok(())
}

/// Append the segment of a stream.
fn encode_stream(st: &Stream, ctx: &EncodeCtx, out: &mut Vec<u8>) -> (r: Result<(), SurpError>)
    ensures
        written(r, old(out)@, final(out)@, enc_value(Value::Stream(*st)@, syms_of(ctx.symbols@), ctx.has_symtab)),
{
    let mut payload: Vec<u8> = Vec::new();
    push_str_segment(&mut payload, st.item_type.as_str());
    encode_varint_vec(st.annotations.len() as u64, &mut payload);
    match encode_annotations(&st.annotations, ctx, &mut payload) {
        Ok(_) => {},
        Err(e) => {
            return Err(e);
        },
    }
    push_segment(out, TYPE_STREAM, 0, payload.as_slice());
    Ok(())
}

/// Append the segment of a value: a header with the payload's type,
/// configuration and length, then the payload.
pub fn encode_segment(value: &Value, ctx: &EncodeCtx, out: &mut Vec<u8>) -> (r: Result<(), SurpError>)
    ensures
        written(r, old(out)@, final(out)@, enc_value(value@, syms_of(ctx.symbols@), ctx.has_symtab)),
    decreases value,
{
    match value {
        Value::Scalar(s) => encode_scalar(s, ctx, out),
        Value::Product(p) => {
            proof {
                assert(decreases_to!(*value => value->Product_0));
            }
            encode_product(p, ctx, out)
        },
        Value::Sum(sm) => {
            proof {
                assert(decreases_to!(*value => value->Sum_0));
            }
            encode_sum(sm, ctx, out)
        },
        Value::Sequence(q) => {
            proof {
                assert(decreases_to!(*value => value->Sequence_0));
            }
            encode_sequence(q, ctx, out)
        },
        Value::Association(pairs) => {
            proof {
                lemma_association_view(*pairs);
                assert(decreases_to!(*value => value->Association_0));
            }
            if pairs.len() == 0 {
                push_empty_segment(out, TYPE_SPECIAL, SPECIAL_EMPTY_MAP);
                return Ok(());
            }
            let mut payload: Vec<u8> = Vec::new();
            encode_varint_vec(pairs.len() as u64, &mut payload);
            let bufs = match encode_pairs(pairs, ctx) {
                Ok(b) => b,
                Err(e) => {
                    return Err(e);
                },
            };
            match push_table(&mut payload, &bufs, "map") {
                Ok(_) => {},
                Err(e) => {
                    return Err(e);
                },
            }
            push_segment(out, TYPE_MAP, HAS_OFFSET_TABLE, payload.as_slice());
            Ok(())
        },
        Value::Reference(Reference::Binding(name)) => {
            let mut payload: Vec<u8> = Vec::new();
            payload.push(0);
            push_prefixed(&mut payload, name.as_str().as_bytes());
            push_segment(out, TYPE_REFERENCE, 0, payload.as_slice());
            proof {
                assert(payload@ =~= seq![0u8] + prefixed(encode_utf8(name@)));
            }
            Ok(())
        },
        Value::Reference(Reference::ById(inner)) => {
            let mut payload: Vec<u8> = Vec::new();
            payload.push(1);
            proof {
                assert(decreases_to!(*value => value->Reference_0));
                assert(decreases_to!(value->Reference_0 => value->Reference_0->ById_0));
            }
            match encode_segment(inner, ctx, &mut payload) {
                Ok(_) => {},
                Err(e) => {
                    return Err(e);
                },
            }
            push_segment(out, TYPE_REFERENCE, 0, payload.as_slice());
            proof {
                assert(seq![(**inner)@][0] == (**inner)@);
            }
            Ok(())
        },
        Value::Tensor(t) => {
            let mut payload: Vec<u8> = Vec::new();
            match encode_tensor(t, &mut payload) {
                Ok(_) => {},
                Err(e) => {
                    return Err(e);
                },
            }
            push_segment(out, TYPE_TENSOR, 0, payload.as_slice());
            Ok(())
        },
        Value::Stream(st) => encode_stream(st, ctx, out),
        Value::Opaque(o) => {
            let mut payload: Vec<u8> = Vec::new();
            push_prefixed(&mut payload, o.type_tag.as_str().as_bytes());
            push_prefixed(&mut payload, o.bytes.as_slice());
            push_segment(out, TYPE_OPAQUE, 1, payload.as_slice());
            proof {
                assert(payload@ =~= prefixed(encode_utf8(o.type_tag@)) + prefixed(o.bytes@));
            }
            Ok(())
        },
    }
}

} // verus!

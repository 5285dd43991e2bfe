//! What the CBF encoder writes, the CBF decoder reads back.

use crate::ast::{AnnotationM, ScalarM, TensorDataM, ValueM};
use crate::cbf::{
    crc64_of, header_error, lemma_parse_symbol_entries, len24, magic_bytes, parse_segment, parse_symbol_table,
    segment_header_bytes, symbol_entries, symbol_table_bytes,
};
use crate::document::{document_header_bytes, enc_document, resolve, symbol_table_of};
use crate::error::{ErrorModel, SurpError};
use crate::roundtrip::{holds_at, lemma_holds_split, lemma_signed_varint_held, lemma_varint_held};
use crate::segment::{
    dec_annotations, dec_fields, dec_items, dec_items_at, dec_label, dec_map, dec_pairs_at, dec_product, dec_reference,
    dec_sequence, dec_stream, dec_sum, enc_annotations, enc_field_name, enc_fields, enc_label, table_entry,
    with_table, HAS_OFFSET_TABLE, TYPE_ENUM, TYPE_MAP, TYPE_REFERENCE, TYPE_SEQUENCE, TYPE_STREAM, TYPE_STRUCT,
    enc_pairs, enc_values, flatten, offset_table, then, dec_body, dec_document, dec_shape, dec_tensor, enc_tensor,
    shape_bytes, tensor_data_bytes, tensor_type_code, tensor_type_name, words, words_bytes, TYPE_TENSOR, dec_opaque, dec_segment, dec_span, enc_scalar, enc_value, lemma_sym_index, prefixed, seg,
    str_segment, string_scalar, sym_index, PRIM_F32, PRIM_F64, PRIM_I64, PRIM_U64, PRIM_VI64, PRIM_VU64,
    SPECIAL_EMPTY_BYTES, SPECIAL_EMPTY_STRING, SPECIAL_FALSE, SPECIAL_NULL, SPECIAL_TRUE, SPECIAL_UNIT,
    TYPE_BYTES, TYPE_OPAQUE, TYPE_PRIMITIVE, TYPE_SPECIAL, TYPE_STRING, TYPE_SYMBOL, SPECIAL_EMPTY_MAP,
    SPECIAL_EMPTY_SEQUENCE,
};
use crate::varint::{lemma_varint_bytes_len, spec_decode_varint, spec_zigzag_encode, varint_bytes};
use vstd::bytes::{spec_u32_from_le_bytes, spec_u32_to_le_bytes, spec_u64_from_le_bytes, spec_u64_to_le_bytes};
use vstd::prelude::*;
use vstd::utf8::{decode_utf8, encode_utf8, valid_utf8};

verus! {

/// Whether a segment written for a value has a length other than the
/// one length its header cannot tell: a payload of exactly `0xFF_FFFF`
/// bytes, whose three length bytes read as the mark of a long header.
pub open spec fn seg_ok(r: Result<Seq<u8>, ErrorModel>) -> bool {
    match r {
        Ok(b) => b.len() != 0x100_0003,
        Err(_) => true,
    }
}

/// Whether the string segment of a name can be read back at `depth`.
pub open spec fn name_ok(s: Seq<char>, depth: int) -> bool {
    depth <= 64 && str_segment(s).len() != 0x100_0003
}

/// The length of the header of a segment with a payload of `n` bytes.
pub open spec fn header_len(n: nat) -> nat {
    if n <= 0xFF_FFFF {
        4
    } else {
        12
    }
}

/// The header of a segment is read back from where it is written, the
/// payload following it, unless the payload is exactly `0xFF_FFFF` bytes.
#[verifier::rlimit(50)]
#[verifier::spinoff_prover]
proof fn lemma_read_header(t: u8, c: u8, p: Seq<u8>, d: Seq<u8>, off: int)
    requires
        t <= 15,
        c <= 15,
        p.len() != 0xFF_FFFF,
        p.len() <= usize::MAX,
        holds_at(d, off, seg(t, c, p)),
    ensures
        parse_segment(d, off) == Ok::<(u8, u8, usize, usize), SurpError>((t, c, p.len() as usize, header_len(p.len()) as usize)),
        seg(t, c, p).len() == header_len(p.len()) + p.len(),
        holds_at(d, off + header_len(p.len()), p),
{
    let h = segment_header_bytes(t, c, p.len() as usize);
    vstd::bytes::lemma_auto_spec_u64_to_from_le_bytes();
    assert(h.len() == header_len(p.len()));
    lemma_holds_split(d, off, h, p);
    let rest = d.subrange(off + h.len(), d.len() as int);
    crate::cbf::law_segment_header_roundtrip(t, c, p.len() as usize, rest);
    let e = h + rest;
    assert(e =~= d.subrange(off, d.len() as int));
    assert(forall|k: int| 0 <= k < e.len() ==> e[k] == d[off + k]);
    assert(e.len() == d.len() - off);
    assert(len24(e, 1) == len24(d, off + 1));
    if p.len() > 0xFF_FFFF {
        assert(e.subrange(4, 12) =~= d.subrange(off + 4, off + 12));
    }
}

/// A scalar's segment is read back as the scalar.
#[verifier::rlimit(100)]
#[verifier::spinoff_prover]
proof fn lemma_scalar_reads_back(s: ScalarM, syms: Seq<Seq<char>>, hs: bool, d: Seq<u8>, off: int, depth: int)
    requires
        enc_scalar(s, syms, hs) is Ok,
        seg_ok(enc_scalar(s, syms, hs)),
        holds_at(d, off, enc_scalar(s, syms, hs)->Ok_0),
        d.len() <= usize::MAX,
        syms.len() <= usize::MAX,
        0 <= depth <= 64,
    ensures
        dec_segment(d, off, syms, depth) == Ok::<(ValueM, int), ErrorModel>(
            (ValueM::Scalar(s), enc_scalar(s, syms, hs)->Ok_0.len() as int),
        ),
{
    let b = enc_scalar(s, syms, hs)->Ok_0;
    vstd::bytes::lemma_auto_spec_u64_to_from_le_bytes();
    vstd::bytes::lemma_auto_spec_u32_to_from_le_bytes();
    let (t, c, p): (u8, u8, Seq<u8>) = match s {
        ScalarM::Null => (TYPE_SPECIAL, SPECIAL_NULL, Seq::empty()),
        ScalarM::Unit => (TYPE_SPECIAL, SPECIAL_UNIT, Seq::empty()),
        ScalarM::Bool(x) => (TYPE_SPECIAL, if x { SPECIAL_TRUE } else { SPECIAL_FALSE }, Seq::empty()),
        ScalarM::Str(x) => if x.len() == 0 {
            (TYPE_SPECIAL, SPECIAL_EMPTY_STRING, Seq::empty())
        } else {
            (TYPE_STRING, 0u8, encode_utf8(x))
        },
        ScalarM::Bytes(x) => if x.len() == 0 {
            (TYPE_SPECIAL, SPECIAL_EMPTY_BYTES, Seq::empty())
        } else {
            (TYPE_BYTES, 0u8, x)
        },
        ScalarM::Sym(x) => (TYPE_SYMBOL, 0u8, varint_bytes(sym_index(syms, x, 0)->Some_0 as u64)),
        ScalarM::Tagged(tag, value) => (TYPE_OPAQUE, 0u8, prefixed(encode_utf8(tag)) + prefixed(encode_utf8(value))),
        ScalarM::I64(v) => (TYPE_PRIMITIVE, PRIM_I64, spec_u64_to_le_bytes(v as u64)),
        ScalarM::U64(v) => (TYPE_PRIMITIVE, PRIM_U64, spec_u64_to_le_bytes(v)),
        ScalarM::Vi64(v) => (TYPE_PRIMITIVE, PRIM_VI64, varint_bytes(spec_zigzag_encode(v))),
        ScalarM::Vu64(v) => (TYPE_PRIMITIVE, PRIM_VU64, varint_bytes(v)),
        ScalarM::F32(v) => (TYPE_PRIMITIVE, PRIM_F32, spec_u32_to_le_bytes(v)),
        ScalarM::F64(v) => (TYPE_PRIMITIVE, PRIM_F64, spec_u64_to_le_bytes(v)),
    };
    assert(b == seg(t, c, p));
    assert(p.len() != 0xFF_FFFF) by {
        if p.len() == 0xFF_FFFF {
            assert(segment_header_bytes(t, c, p.len() as usize).len() == 4);
        }
    }
    lemma_read_header(t, c, p, d, off);
    let ps = off + header_len(p.len());
    assert(d.subrange(ps, ps + p.len()) == p);
    let body = dec_body(p, ps, t, c, syms, depth);
    match s {
        ScalarM::Str(x) => {
            if x.len() > 0 {
                vstd::utf8::encode_utf8_valid_utf8(x);
                vstd::utf8::encode_utf8_decode_utf8(x);
            } else {
                assert(x =~= Seq::<char>::empty());
            }
        },
        ScalarM::Bytes(x) => {
            if x.len() == 0 {
                assert(x =~= Seq::<u8>::empty());
            }
        },
        ScalarM::Sym(x) => {
            let i = sym_index(syms, x, 0)->Some_0;
            lemma_sym_index(syms, x, 0);
            assert(holds_at(p, 0, varint_bytes(i as u64))) by {
                assert(p.subrange(0, p.len() as int) =~= p);
            }
            lemma_varint_held(p, 0, i as u64);
        },
        ScalarM::Tagged(tag, value) => {
            let tb = encode_utf8(tag);
            let vb = encode_utf8(value);
            assert(p.subrange(0, p.len() as int) =~= p);
            lemma_holds_split(p, 0, prefixed(tb), prefixed(vb));
            lemma_holds_split(p, 0, varint_bytes(tb.len() as u64), tb);
            lemma_varint_held(p, 0, tb.len() as u64);
            let te: int = (varint_bytes(tb.len() as u64).len() + tb.len()) as int;
            lemma_holds_split(p, te, varint_bytes(vb.len() as u64), vb);
            lemma_varint_held(p, te, vb.len() as u64);
            assert(dec_span(p, 0) == Ok::<(int, int), ErrorModel>((varint_bytes(tb.len() as u64).len() as int, te as int)));
            vstd::utf8::encode_utf8_valid_utf8(tag);
            vstd::utf8::encode_utf8_decode_utf8(tag);
            vstd::utf8::encode_utf8_valid_utf8(value);
            vstd::utf8::encode_utf8_decode_utf8(value);
            assert(dec_opaque(p, 0) == Ok::<ValueM, ErrorModel>(ValueM::Scalar(s)));
        },
        ScalarM::I64(v) => {
            assert((v as u64) as i64 == v) by (bit_vector);
        },
        ScalarM::Vi64(v) => {
            assert(p.subrange(0, p.len() as int) =~= p);
            lemma_signed_varint_held(p, 0, v);
        },
        ScalarM::Vu64(v) => {
            assert(p.subrange(0, p.len() as int) =~= p);
            lemma_varint_held(p, 0, v);
        },
        _ => {},
    }
    assert(body == Ok::<ValueM, ErrorModel>(ValueM::Scalar(s)));
}


/// The encodings of a list: the first one, then the rest.
#[verifier::rlimit(50)]
#[verifier::spinoff_prover]
proof fn lemma_flatten_first(bufs: Seq<Seq<u8>>)
    requires
        bufs.len() > 0,
    ensures
        flatten(bufs) == bufs[0] + flatten(bufs.drop_first()),
    decreases bufs.len(),
{
    if bufs.len() == 1 {
        assert(bufs.drop_last() =~= Seq::<Seq<u8>>::empty());
        assert(bufs.drop_first() =~= Seq::<Seq<u8>>::empty());
        assert(flatten(bufs) =~= bufs[0] + flatten(bufs.drop_first()));
    } else {
        lemma_flatten_first(bufs.drop_last());
        assert(bufs.drop_last().drop_first() =~= bufs.drop_first().drop_last());
        assert(bufs.drop_first().last() == bufs.last());
        assert(flatten(bufs) =~= bufs[0] + flatten(bufs.drop_first()));
    }
}

/// The encodings of two lists, one after the other.
#[verifier::rlimit(50)]
#[verifier::spinoff_prover]
proof fn lemma_flatten_concat(a: Seq<Seq<u8>>, b: Seq<Seq<u8>>)
    ensures
        flatten(a + b) == flatten(a) + flatten(b),
    decreases b.len(),
{
    if b.len() == 0 {
        assert(a + b =~= a);
        assert(flatten(a) + flatten(b) =~= flatten(a));
    } else {
        lemma_flatten_concat(a, b.drop_last());
        assert((a + b).drop_last() =~= a + b.drop_last());
        assert((a + b).last() == b.last());
        assert(flatten(a + b) =~= flatten(a) + flatten(b));
    }
}

/// The encoding `i` of a list lies in the whole after the ones before it.
#[verifier::rlimit(50)]
#[verifier::spinoff_prover]
proof fn lemma_flatten_at(bufs: Seq<Seq<u8>>, i: int)
    requires
        0 <= i < bufs.len(),
    ensures
        holds_at(flatten(bufs), flatten(bufs.take(i)).len() as int, bufs[i]),
{
    let a = bufs.take(i + 1);
    let b = bufs.skip(i + 1);
    assert(bufs =~= a + b);
    lemma_flatten_concat(a, b);
    assert(a.drop_last() =~= bufs.take(i));
    assert(a.last() == bufs[i]);
    let f = flatten(bufs);
    let k = flatten(bufs.take(i)).len() as int;
    assert(f =~= flatten(bufs.take(i)) + bufs[i] + flatten(b));
    assert(f.subrange(k, k + bufs[i].len()) =~= bufs[i]);
}

/// An offset table has a four-byte entry for each encoding: where it
/// starts, counted from `running`.
#[verifier::rlimit(50)]
#[verifier::spinoff_prover]
proof fn lemma_offset_table(bufs: Seq<Seq<u8>>, running: nat)
    requires
        offset_table(bufs, running) is Some,
    ensures
        offset_table(bufs, running)->Some_0.len() == 4 * bufs.len(),
        forall|i: int|
            0 <= i < bufs.len() ==> #[trigger] spec_u32_from_le_bytes(
                offset_table(bufs, running)->Some_0.subrange(4 * i, 4 * i + 4),
            ) == running + flatten(bufs.take(i)).len(),
    decreases bufs.len(),
{
    if bufs.len() > 0 {
        let t = offset_table(bufs, running)->Some_0;
        let r2 = running + bufs[0].len();
        lemma_offset_table(bufs.drop_first(), r2);
        let t2 = offset_table(bufs.drop_first(), r2)->Some_0;
        vstd::bytes::lemma_auto_spec_u32_to_from_le_bytes();
        assert(t == spec_u32_to_le_bytes(running as u32) + t2);
        assert forall|i: int| 0 <= i < bufs.len() implies #[trigger] spec_u32_from_le_bytes(t.subrange(4 * i, 4 * i + 4))
            == running + flatten(bufs.take(i)).len() by {
            if i == 0 {
                assert(t.subrange(0, 4) =~= spec_u32_to_le_bytes(running as u32));
                assert(bufs.take(0) =~= Seq::<Seq<u8>>::empty());
            } else {
                assert(t.subrange(4 * i, 4 * i + 4) =~= t2.subrange(4 * (i - 1), 4 * (i - 1) + 4));
                lemma_flatten_first(bufs.take(i));
                assert(bufs.take(i).drop_first() =~= bufs.drop_first().take(i - 1));
                assert(spec_u32_from_le_bytes(t2.subrange(4 * (i - 1), 4 * (i - 1) + 4)) == r2 + flatten(
                    bufs.drop_first().take(i - 1),
                ).len());
            }
        }
    }
}

/// The encodings of values are each value's encoding.
#[verifier::rlimit(50)]
#[verifier::spinoff_prover]
proof fn lemma_enc_values(vs: Seq<ValueM>, syms: Seq<Seq<char>>, hs: bool)
    requires
        enc_values(vs, syms, hs) is Ok,
    ensures
        enc_values(vs, syms, hs)->Ok_0.len() == vs.len(),
        forall|i: int|
            0 <= i < vs.len() ==> enc_value(#[trigger] vs[i], syms, hs) == Ok::<Seq<u8>, ErrorModel>(
                enc_values(vs, syms, hs)->Ok_0[i],
            ),
    decreases vs.len(),
{
    if vs.len() > 0 {
        let rest = vs.subrange(1, vs.len() as int);
        lemma_enc_values(rest, syms, hs);
        assert forall|i: int| 0 <= i < vs.len() implies enc_value(#[trigger] vs[i], syms, hs) == Ok::<Seq<u8>, ErrorModel>(
            enc_values(vs, syms, hs)->Ok_0[i],
        ) by {
            if i > 0 {
                assert(vs[i] == rest[i - 1]);
            }
        }
    }
}

/// The encodings of pairs are each key's encoding followed by its value's.
#[verifier::rlimit(50)]
#[verifier::spinoff_prover]
proof fn lemma_enc_pairs(ps: Seq<(ValueM, ValueM)>, syms: Seq<Seq<char>>, hs: bool)
    requires
        enc_pairs(ps, syms, hs) is Ok,
    ensures
        enc_pairs(ps, syms, hs)->Ok_0.len() == ps.len(),
        forall|i: int|
            0 <= i < ps.len() ==> then(enc_value((#[trigger] ps[i]).0, syms, hs), enc_value(ps[i].1, syms, hs))
                == Ok::<Seq<u8>, ErrorModel>(enc_pairs(ps, syms, hs)->Ok_0[i]),
    decreases ps.len(),
{
    if ps.len() > 0 {
        let rest = ps.subrange(1, ps.len() as int);
        lemma_enc_pairs(rest, syms, hs);
        assert forall|i: int| 0 <= i < ps.len() implies then(enc_value((#[trigger] ps[i]).0, syms, hs), enc_value(ps[i].1, syms, hs))
            == Ok::<Seq<u8>, ErrorModel>(enc_pairs(ps, syms, hs)->Ok_0[i]) by {
            if i > 0 {
                assert(ps[i] == rest[i - 1]);
            }
        }
    }
}


/// Whether a tensor reads back: it has no annotations (they are not
/// written), no dimension is `Some(0)` (which reads back as unknown), and
/// its element type is one of `f32` and `f64` with 64-bit float data,
/// `i64` or `u64` with data of that type, or `bytes` with a blob.
pub open spec fn tensor_ok(et: Seq<char>, shape: Seq<Option<u64>>, d: TensorDataM, anns: Seq<AnnotationM>) -> bool {
    &&& anns.len() == 0
    &&& forall|i: int| 0 <= i < shape.len() ==> #[trigger] shape[i] != Some(0u64)
    &&& match d {
        TensorDataM::DenseF64(_) => et == "f32"@ || et == "f64"@,
        TensorDataM::DenseI64(_) => et == "i64"@,
        TensorDataM::DenseU64(_) => et == "u64"@,
        TensorDataM::BinaryBlob(_) => et == "bytes"@,
    }
}

/// Whether an optional type name can be read back at `depth`.
pub open spec fn label_ok(tn: Option<Seq<char>>, depth: int) -> bool {
    match tn {
        Some(n) => name_ok(n, depth),
        None => true,
    }
}

/// Whether `v`, encoded with the symbol table `syms` (`hs` telling
/// whether there is one), is read back as `v` from a segment met at
/// nesting depth `depth`: no segment written for it has a payload of
/// exactly `0xFF_FFFF` bytes, no segment lies deeper than 64, an empty
/// sequence has no element type, and it holds no tensor (whose
/// annotations are not written, and whose element type and shape are
/// read back only in part).
#[verifier::opaque]
pub open spec fn reads_back(v: ValueM, syms: Seq<Seq<char>>, hs: bool, depth: int) -> bool
    decreases v,
{
    &&& 0 <= depth <= 64
    &&& seg_ok(enc_value(v, syms, hs))
    &&& match v {
        ValueM::Scalar(_) => true,
        ValueM::Product(tn, fs) => {
            &&& label_ok(tn, depth + 1)
            &&& forall|i: int|
                #![trigger fs[i]]
                0 <= i < fs.len() ==> (hs || name_ok(fs[i].0, depth + 1)) && reads_back(fs[i].1, syms, hs, depth + 1)
        },
        ValueM::SumUnit(tn, variant) => label_ok(tn, depth + 1) && name_ok(variant, depth + 1),
        ValueM::SumTuple(tn, variant, items) => {
            &&& label_ok(tn, depth + 1)
            &&& name_ok(variant, depth + 1)
            &&& forall|i: int| 0 <= i < items.len() ==> reads_back(#[trigger] items[i], syms, hs, depth + 1)
        },
        ValueM::SumStruct(tn, variant, fs) => {
            &&& label_ok(tn, depth + 1)
            &&& name_ok(variant, depth + 1)
            &&& forall|i: int|
                #![trigger fs[i]]
                0 <= i < fs.len() ==> (hs || name_ok(fs[i].0, depth + 1)) && reads_back(fs[i].1, syms, hs, depth + 1)
        },
        ValueM::Sequence(et, items) => if items.len() == 0 {
            et is None
        } else {
            &&& label_ok(et, depth + 1)
            &&& forall|i: int| 0 <= i < items.len() ==> reads_back(#[trigger] items[i], syms, hs, depth + 1)
        },
        ValueM::Association(ps) => forall|i: int|
            0 <= i < ps.len() ==> reads_back((#[trigger] ps[i]).0, syms, hs, depth + 1) && reads_back(
                ps[i].1,
                syms,
                hs,
                depth + 1,
            ),
        ValueM::RefBinding(_) => true,
        ValueM::RefById(inner) => inner.len() == 1 && reads_back(inner[0], syms, hs, depth + 1),
        ValueM::Tensor(et, shape, d, anns) => tensor_ok(et, shape, d, anns),
        ValueM::Stream(it, anns) => {
            &&& name_ok(it, depth + 1)
            &&& forall|i: int|
                0 <= i < anns.len() ==> name_ok((#[trigger] anns[i]).name, depth + 1) && (anns[i].value matches Some(
                    s,
                ) ==> seg_ok(enc_scalar(s, syms, hs)))
        },
        ValueM::Opaque(_, _) => true,
    }
}

/// Bytes held within bytes held at `pos` are held there too.
#[verifier::rlimit(50)]
#[verifier::spinoff_prover]
proof fn lemma_holds_within(d: Seq<u8>, pos: int, w: Seq<u8>, k: int, x: Seq<u8>)
    requires
        holds_at(d, pos, w),
        holds_at(w, k, x),
    ensures
        holds_at(d, pos + k, x),
{
    assert(d.subrange(pos + k, pos + k + x.len()) =~= w.subrange(k, k + x.len()));
}

/// Every segment is at least four bytes long.
#[verifier::rlimit(50)]
#[verifier::spinoff_prover]
proof fn lemma_seg_len(v: ValueM, syms: Seq<Seq<char>>, hs: bool)
    requires
        enc_value(v, syms, hs) is Ok,
    ensures
        enc_value(v, syms, hs)->Ok_0.len() >= 4,
{
    assert forall|t: u8, c: u8, p: Seq<u8>| #[trigger] seg(t, c, p).len() >= 4 by {
        assert(segment_header_bytes(t, c, p.len() as usize).len() >= 4);
    }
    match v {
        ValueM::Scalar(s) => {
            assert(enc_scalar(s, syms, hs)->Ok_0.len() >= 4);
        },
        _ => {},
    }
}

/// A type name is read back from where it is written.
#[verifier::rlimit(50)]
#[verifier::spinoff_prover]
proof fn lemma_label(tn: Option<Seq<char>>, p: Seq<u8>, syms: Seq<Seq<char>>, depth: int, context: Seq<char>)
    requires
        label_ok(tn, depth),
        0 <= depth,
        holds_at(p, 0, enc_label(tn)),
        p.len() <= usize::MAX,
        syms.len() <= usize::MAX,
    ensures
        dec_label(p, syms, depth, context) == Ok::<(Option<Seq<char>>, int), ErrorModel>((tn, enc_label(tn).len() as int)),
{
    match tn {
        Some(n) => {
            lemma_holds_split(p, 0, seq![1u8], str_segment(n));
            assert(p.subrange(0, 1)[0] == p[0]);
            assert(p[0] == 1u8);
            assert(enc_scalar(ScalarM::Str(n), syms, false) == Ok::<Seq<u8>, ErrorModel>(str_segment(n)));
            lemma_scalar_reads_back(ScalarM::Str(n), syms, false, p, 1, depth);
        },
        None => {
            assert(p.subrange(0, 1)[0] == p[0]);
            assert(p[0] == 0u8);
        },
    }
}

/// A field name is read back from where it is written.
#[verifier::rlimit(50)]
#[verifier::spinoff_prover]
proof fn lemma_field_name(name: Seq<char>, syms: Seq<Seq<char>>, hs: bool, p: Seq<u8>, pos: int, depth: int)
    requires
        enc_field_name(name, syms, hs) is Ok,
        hs || name_ok(name, depth),
        0 <= depth <= 64,
        holds_at(p, pos, enc_field_name(name, syms, hs)->Ok_0),
        p.len() <= usize::MAX,
        syms.len() <= usize::MAX,
    ensures
        dec_segment(p, pos, syms, depth) matches Ok((nv, c)) && string_scalar(nv) == Some(name) && c
            == enc_field_name(name, syms, hs)->Ok_0.len(),
{
    let b = enc_field_name(name, syms, hs)->Ok_0;
    if hs {
        let i = sym_index(syms, name, 0)->Some_0;
        assert(enc_scalar(ScalarM::Sym(name), syms, hs) == Ok::<Seq<u8>, ErrorModel>(b));
        lemma_varint_bytes_len(i as u64);
        assert(segment_header_bytes(TYPE_SYMBOL, 0, varint_bytes(i as u64).len() as usize).len() == 4);
        lemma_scalar_reads_back(ScalarM::Sym(name), syms, hs, p, pos, depth);
    } else {
        assert(enc_scalar(ScalarM::Str(name), syms, hs) == Ok::<Seq<u8>, ErrorModel>(b));
        lemma_scalar_reads_back(ScalarM::Str(name), syms, hs, p, pos, depth);
    }
}


/// A string written as a name segment is read back as that name.
#[verifier::rlimit(50)]
#[verifier::spinoff_prover]
proof fn lemma_name(n: Seq<char>, syms: Seq<Seq<char>>, p: Seq<u8>, pos: int, depth: int)
    requires
        name_ok(n, depth),
        0 <= depth,
        holds_at(p, pos, str_segment(n)),
        p.len() <= usize::MAX,
        syms.len() <= usize::MAX,
    ensures
        dec_segment(p, pos, syms, depth) matches Ok((nv, c)) && string_scalar(nv) == Some(n) && c == str_segment(
            n,
        ).len(),
{
    assert(enc_scalar(ScalarM::Str(n), syms, false) == Ok::<Seq<u8>, ErrorModel>(str_segment(n)));
    lemma_scalar_reads_back(ScalarM::Str(n), syms, false, p, pos, depth);
}

/// Two length-prefixed byte strings are read back from where they are written.
#[verifier::rlimit(50)]
#[verifier::spinoff_prover]
proof fn lemma_two_spans(a: Seq<u8>, b: Seq<u8>, p: Seq<u8>)
    requires
        p == prefixed(a) + prefixed(b),
        p.len() <= usize::MAX,
    ensures
        dec_span(p, 0) == Ok::<(int, int), ErrorModel>((varint_bytes(a.len() as u64).len() as int, prefixed(a).len() as int)),
        dec_span(p, prefixed(a).len() as int) == Ok::<(int, int), ErrorModel>(
            ((prefixed(a).len() + varint_bytes(b.len() as u64).len()) as int, p.len() as int),
        ),
        p.subrange(varint_bytes(a.len() as u64).len() as int, prefixed(a).len() as int) == a,
        p.subrange((prefixed(a).len() + varint_bytes(b.len() as u64).len()) as int, p.len() as int) == b,
{
    assert(p.subrange(0, p.len() as int) =~= p);
    lemma_holds_split(p, 0, prefixed(a), prefixed(b));
    lemma_holds_split(p, 0, varint_bytes(a.len() as u64), a);
    lemma_varint_held(p, 0, a.len() as u64);
    let te: int = prefixed(a).len() as int;
    lemma_holds_split(p, te, varint_bytes(b.len() as u64), b);
    lemma_varint_held(p, te, b.len() as u64);
}

/// The bytes written for stream annotations: the first one's name, its
/// flag and value, then the rest.
#[verifier::rlimit(50)]
#[verifier::spinoff_prover]
proof fn lemma_annotation_parts(anns: Seq<AnnotationM>, syms: Seq<Seq<char>>, hs: bool)
    requires
        enc_annotations(anns, syms, hs) is Ok,
        anns.len() > 0,
    ensures
        enc_annotations(anns.subrange(1, anns.len() as int), syms, hs) is Ok,
        anns[0].value matches Some(v) ==> enc_scalar(v, syms, hs) is Ok,
        enc_annotations(anns, syms, hs)->Ok_0 == str_segment(anns[0].name) + (match anns[0].value {
            Some(v) => seq![1u8] + enc_scalar(v, syms, hs)->Ok_0,
            None => seq![0u8],
        }) + enc_annotations(anns.subrange(1, anns.len() as int), syms, hs)->Ok_0,
{
}

/// Stream annotations are read back from where they are written.
#[verifier::rlimit(100)]
#[verifier::spinoff_prover]
proof fn lemma_annotations(anns: Seq<AnnotationM>, syms: Seq<Seq<char>>, hs: bool, p: Seq<u8>, pos: int, depth: int)
    requires
        enc_annotations(anns, syms, hs) is Ok,
        holds_at(p, pos, enc_annotations(anns, syms, hs)->Ok_0),
        p.len() <= usize::MAX,
        syms.len() <= usize::MAX,
        0 <= depth,
        forall|i: int|
            0 <= i < anns.len() ==> name_ok((#[trigger] anns[i]).name, depth) && (anns[i].value matches Some(s)
                ==> seg_ok(enc_scalar(s, syms, hs))),
    ensures
        dec_annotations(p, pos, anns.len() as nat, syms, depth) == Ok::<(Seq<AnnotationM>, int), ErrorModel>(
            (anns, pos + enc_annotations(anns, syms, hs)->Ok_0.len()),
        ),
        anns.len() <= enc_annotations(anns, syms, hs)->Ok_0.len(),
    decreases anns.len(),
{
    let b = enc_annotations(anns, syms, hs)->Ok_0;
    if anns.len() == 0 {
        assert(anns =~= Seq::<AnnotationM>::empty());
    } else {
        let a = anns[0];
        let rest = anns.subrange(1, anns.len() as int);
        lemma_annotation_parts(anns, syms, hs);
        let bn = str_segment(a.name);
        let bv = match a.value {
            Some(v) => seq![1u8] + enc_scalar(v, syms, hs)->Ok_0,
            None => seq![0u8],
        };
        let br = enc_annotations(rest, syms, hs)->Ok_0;
        assert(b == bn + bv + br);
        lemma_holds_split(p, pos, bn + bv, br);
        lemma_holds_split(p, pos, bn, bv);
        assert(name_ok(a.name, depth));
        lemma_name(a.name, syms, p, pos, depth);
        assert(bn.len() >= 4) by {
            assert(segment_header_bytes(TYPE_STRING, 0, encode_utf8(a.name).len() as usize).len() >= 4);
        }
        let pos1 = pos + bn.len();
        assert(p.subrange(pos1, pos1 + bv.len())[0] == p[pos1]);
        assert forall|i: int| 0 <= i < rest.len() implies name_ok((#[trigger] rest[i]).name, depth) && (
        rest[i].value matches Some(s) ==> seg_ok(enc_scalar(s, syms, hs))) by {
            assert(rest[i] == anns[i + 1]);
        }
        lemma_annotations(rest, syms, hs, p, pos1 + bv.len(), depth);
        let tail = dec_annotations(p, pos1 + bv.len(), rest.len() as nat, syms, depth);
        assert(((anns.len() as nat) - 1) as nat == rest.len());
        match a.value {
            Some(v) => {
                lemma_holds_split(p, pos1, seq![1u8], enc_scalar(v, syms, hs)->Ok_0);
                lemma_scalar_reads_back(v, syms, hs, p, pos1 + 1, depth);
                assert(p[pos1] == 1u8);
                assert(dec_annotations(p, pos, anns.len() as nat, syms, depth) == Ok::<(Seq<AnnotationM>, int), ErrorModel>(
                    (seq![AnnotationM { name: a.name, value: Some(v) }] + rest, pos + b.len()),
                ));
            },
            None => {
                assert(p[pos1] == 0u8);
                assert(dec_annotations(p, pos, anns.len() as nat, syms, depth) == Ok::<(Seq<AnnotationM>, int), ErrorModel>(
                    (seq![AnnotationM { name: a.name, value: None }] + rest, pos + b.len()),
                ));
            },
        }
        assert(seq![AnnotationM { name: a.name, value: a.value }] + rest =~= anns);
    }
}


/// A segment written for a value is read back as the value.
/// A segment is read back as the value its payload is read back as.
#[verifier::rlimit(50)]
#[verifier::spinoff_prover]
proof fn lemma_frame(t: u8, c: u8, p: Seq<u8>, d: Seq<u8>, off: int, syms: Seq<Seq<char>>, depth: int, v: ValueM)
    requires
        t <= 15,
        c <= 15,
        seg(t, c, p).len() != 0x100_0003,
        holds_at(d, off, seg(t, c, p)),
        d.len() <= usize::MAX,
        0 <= depth <= 64,
        dec_body(p, off + header_len(p.len()), t, c, syms, depth) == Ok::<ValueM, ErrorModel>(v),
    ensures
        dec_segment(d, off, syms, depth) == Ok::<(ValueM, int), ErrorModel>((v, seg(t, c, p).len() as int)),
{
    assert(p.len() != 0xFF_FFFF) by {
        if p.len() == 0xFF_FFFF {
            assert(segment_header_bytes(t, c, p.len() as usize).len() == 4);
        }
    }
    lemma_read_header(t, c, p, d, off);
    let ps = off + header_len(p.len());
    assert(d.subrange(ps, ps + p.len()) == p);
}

/// A segment written for a value is read back as the value.
#[verifier::rlimit(50)]
#[verifier::spinoff_prover]
pub proof fn lemma_value_reads_back(v: ValueM, syms: Seq<Seq<char>>, hs: bool, d: Seq<u8>, off: int, depth: int)
    requires
        enc_value(v, syms, hs) is Ok,
        reads_back(v, syms, hs, depth),
        holds_at(d, off, enc_value(v, syms, hs)->Ok_0),
        d.len() <= usize::MAX,
        syms.len() <= usize::MAX,
    ensures
        dec_segment(d, off, syms, depth) == Ok::<(ValueM, int), ErrorModel>(
            (v, enc_value(v, syms, hs)->Ok_0.len() as int),
        ),
    decreases v, 1int,
{
    match v {
        ValueM::Scalar(s) => {
            reveal(reads_back);
            lemma_scalar_reads_back(s, syms, hs, d, off, depth);
        },
        ValueM::Product(_, _) => lemma_product_segment(v, syms, hs, d, off, depth),
        ValueM::SumUnit(_, _) => lemma_sum_segment(v, syms, hs, d, off, depth),
        ValueM::SumTuple(_, _, _) => lemma_sum_segment(v, syms, hs, d, off, depth),
        ValueM::SumStruct(_, _, _) => lemma_sum_segment(v, syms, hs, d, off, depth),
        ValueM::Sequence(_, _) => lemma_sequence_segment(v, syms, hs, d, off, depth),
        ValueM::Association(_) => lemma_map_segment(v, syms, hs, d, off, depth),
        ValueM::RefBinding(_) => lemma_ref_segment(v, syms, hs, d, off, depth),
        ValueM::RefById(_) => lemma_ref_segment(v, syms, hs, d, off, depth),
        ValueM::Stream(_, _) => lemma_other_segment(v, syms, hs, d, off, depth),
        ValueM::Opaque(_, _) => lemma_other_segment(v, syms, hs, d, off, depth),
        ValueM::Tensor(_, _, _, _) => lemma_tensor_segment(v, syms, hs, d, off, depth),
    }
}

/// A product's segment is read back as the product.
#[verifier::rlimit(100)]
#[verifier::spinoff_prover]
proof fn lemma_product_segment(v: ValueM, syms: Seq<Seq<char>>, hs: bool, d: Seq<u8>, off: int, depth: int)
    requires
        v is Product,
        enc_value(v, syms, hs) is Ok,
        reads_back(v, syms, hs, depth),
        holds_at(d, off, enc_value(v, syms, hs)->Ok_0),
        d.len() <= usize::MAX,
        syms.len() <= usize::MAX,
    ensures
        dec_segment(d, off, syms, depth) == Ok::<(ValueM, int), ErrorModel>(
            (v, enc_value(v, syms, hs)->Ok_0.len() as int),
        ),
    decreases v, 0int,
{
    reveal(reads_back);
    let tn = v->Product_0;
    let fs = v->Product_1;
    let p = enc_label(tn) + varint_bytes(fs.len() as u64) + enc_fields(fs, syms, hs)->Ok_0;
    assert(enc_value(v, syms, hs)->Ok_0 == seg(TYPE_STRUCT, 0, p));
    lemma_product_payload(tn, fs, syms, hs, p, depth + 1);
    assert(dec_body(p, off + header_len(p.len()), TYPE_STRUCT, 0, syms, depth) == Ok::<ValueM, ErrorModel>(v));
    lemma_frame(TYPE_STRUCT, 0, p, d, off, syms, depth, v);
}

/// A sum's segment is read back as the sum.
#[verifier::rlimit(100)]
#[verifier::spinoff_prover]
proof fn lemma_sum_segment(v: ValueM, syms: Seq<Seq<char>>, hs: bool, d: Seq<u8>, off: int, depth: int)
    requires
        v is SumUnit || v is SumTuple || v is SumStruct,
        enc_value(v, syms, hs) is Ok,
        reads_back(v, syms, hs, depth),
        holds_at(d, off, enc_value(v, syms, hs)->Ok_0),
        d.len() <= usize::MAX,
        syms.len() <= usize::MAX,
    ensures
        dec_segment(d, off, syms, depth) == Ok::<(ValueM, int), ErrorModel>(
            (v, enc_value(v, syms, hs)->Ok_0.len() as int),
        ),
    decreases v, 0int,
{
    reveal(reads_back);
    match v {
        ValueM::SumUnit(tn, variant) => {
            let p = enc_label(tn) + str_segment(variant) + seq![0u8];
            assert(enc_value(v, syms, hs)->Ok_0 == seg(TYPE_ENUM, 0, p));
            lemma_sum_unit_body(tn, variant, syms, p, depth + 1);
            assert(dec_body(p, off + header_len(p.len()), TYPE_ENUM, 0, syms, depth) == Ok::<ValueM, ErrorModel>(v));
            lemma_frame(TYPE_ENUM, 0, p, d, off, syms, depth, v);
        },
        ValueM::SumTuple(tn, variant, items) => {
            let p = enc_label(tn) + str_segment(variant) + seq![1u8] + varint_bytes(items.len() as u64) + flatten(
                enc_values(items, syms, hs)->Ok_0,
            );
            assert(enc_value(v, syms, hs)->Ok_0 == seg(TYPE_ENUM, 0, p));
            lemma_sum_tuple_body(tn, variant, items, syms, hs, p, depth + 1);
            assert(dec_body(p, off + header_len(p.len()), TYPE_ENUM, 0, syms, depth) == Ok::<ValueM, ErrorModel>(v));
            lemma_frame(TYPE_ENUM, 0, p, d, off, syms, depth, v);
        },
        ValueM::SumStruct(tn, variant, fs) => {
            let p = enc_label(tn) + str_segment(variant) + seq![2u8] + varint_bytes(fs.len() as u64) + enc_fields(
                fs,
                syms,
                hs,
            )->Ok_0;
            assert(enc_value(v, syms, hs)->Ok_0 == seg(TYPE_ENUM, 0, p));
            lemma_sum_struct_body(tn, variant, fs, syms, hs, p, depth + 1);
            assert(dec_body(p, off + header_len(p.len()), TYPE_ENUM, 0, syms, depth) == Ok::<ValueM, ErrorModel>(v));
            lemma_frame(TYPE_ENUM, 0, p, d, off, syms, depth, v);
        },
        _ => {},
    }
}

/// A sequence's segment is read back as the sequence.
#[verifier::rlimit(100)]
#[verifier::spinoff_prover]
proof fn lemma_sequence_segment(v: ValueM, syms: Seq<Seq<char>>, hs: bool, d: Seq<u8>, off: int, depth: int)
    requires
        v is Sequence,
        enc_value(v, syms, hs) is Ok,
        reads_back(v, syms, hs, depth),
        holds_at(d, off, enc_value(v, syms, hs)->Ok_0),
        d.len() <= usize::MAX,
        syms.len() <= usize::MAX,
    ensures
        dec_segment(d, off, syms, depth) == Ok::<(ValueM, int), ErrorModel>(
            (v, enc_value(v, syms, hs)->Ok_0.len() as int),
        ),
    decreases v, 0int,
{
    reveal(reads_back);
    let et = v->Sequence_0;
    let items = v->Sequence_1;
    if items.len() == 0 {
        let p = Seq::<u8>::empty();
        assert(enc_value(v, syms, hs)->Ok_0 == seg(TYPE_SPECIAL, SPECIAL_EMPTY_SEQUENCE, p));
        assert(items =~= Seq::<ValueM>::empty());
        assert(dec_body(p, off + header_len(p.len()), TYPE_SPECIAL, SPECIAL_EMPTY_SEQUENCE, syms, depth) == Ok::<
            ValueM,
            ErrorModel,
        >(v));
        lemma_frame(TYPE_SPECIAL, SPECIAL_EMPTY_SEQUENCE, p, d, off, syms, depth, v);
    } else {
        let p = enc_label(et) + varint_bytes(items.len() as u64) + with_table(
            enc_values(items, syms, hs)->Ok_0,
            "sequence"@,
        )->Ok_0;
        assert(enc_value(v, syms, hs)->Ok_0 == seg(TYPE_SEQUENCE, HAS_OFFSET_TABLE, p));
        lemma_sequence_payload(et, items, syms, hs, p, depth + 1);
        assert(dec_body(p, off + header_len(p.len()), TYPE_SEQUENCE, HAS_OFFSET_TABLE, syms, depth) == Ok::<
            ValueM,
            ErrorModel,
        >(v));
        lemma_frame(TYPE_SEQUENCE, HAS_OFFSET_TABLE, p, d, off, syms, depth, v);
    }
}

/// An association's segment is read back as the association.
#[verifier::rlimit(100)]
#[verifier::spinoff_prover]
proof fn lemma_map_segment(v: ValueM, syms: Seq<Seq<char>>, hs: bool, d: Seq<u8>, off: int, depth: int)
    requires
        v is Association,
        enc_value(v, syms, hs) is Ok,
        reads_back(v, syms, hs, depth),
        holds_at(d, off, enc_value(v, syms, hs)->Ok_0),
        d.len() <= usize::MAX,
        syms.len() <= usize::MAX,
    ensures
        dec_segment(d, off, syms, depth) == Ok::<(ValueM, int), ErrorModel>(
            (v, enc_value(v, syms, hs)->Ok_0.len() as int),
        ),
    decreases v, 0int,
{
    reveal(reads_back);
    let pairs = v->Association_0;
    if pairs.len() == 0 {
        let p = Seq::<u8>::empty();
        assert(enc_value(v, syms, hs)->Ok_0 == seg(TYPE_SPECIAL, SPECIAL_EMPTY_MAP, p));
        assert(pairs =~= Seq::<(ValueM, ValueM)>::empty());
        assert(dec_body(p, off + header_len(p.len()), TYPE_SPECIAL, SPECIAL_EMPTY_MAP, syms, depth) == Ok::<
            ValueM,
            ErrorModel,
        >(v));
        lemma_frame(TYPE_SPECIAL, SPECIAL_EMPTY_MAP, p, d, off, syms, depth, v);
    } else {
        let p = varint_bytes(pairs.len() as u64) + with_table(enc_pairs(pairs, syms, hs)->Ok_0, "map"@)->Ok_0;
        assert(enc_value(v, syms, hs)->Ok_0 == seg(TYPE_MAP, HAS_OFFSET_TABLE, p));
        lemma_map_payload(pairs, syms, hs, p, depth + 1);
        assert(dec_body(p, off + header_len(p.len()), TYPE_MAP, HAS_OFFSET_TABLE, syms, depth) == Ok::<
            ValueM,
            ErrorModel,
        >(v));
        lemma_frame(TYPE_MAP, HAS_OFFSET_TABLE, p, d, off, syms, depth, v);
    }
}

/// A reference's segment is read back as the reference.
#[verifier::rlimit(100)]
#[verifier::spinoff_prover]
proof fn lemma_ref_segment(v: ValueM, syms: Seq<Seq<char>>, hs: bool, d: Seq<u8>, off: int, depth: int)
    requires
        v is RefBinding || v is RefById,
        enc_value(v, syms, hs) is Ok,
        reads_back(v, syms, hs, depth),
        holds_at(d, off, enc_value(v, syms, hs)->Ok_0),
        d.len() <= usize::MAX,
        syms.len() <= usize::MAX,
    ensures
        dec_segment(d, off, syms, depth) == Ok::<(ValueM, int), ErrorModel>(
            (v, enc_value(v, syms, hs)->Ok_0.len() as int),
        ),
    decreases v, 0int,
{
    reveal(reads_back);
    match v {
        ValueM::RefBinding(name) => {
            let p = seq![0u8] + prefixed(encode_utf8(name));
            assert(enc_value(v, syms, hs)->Ok_0 == seg(TYPE_REFERENCE, 0, p));
            lemma_ref_binding_payload(name, syms, p, depth + 1);
            assert(dec_body(p, off + header_len(p.len()), TYPE_REFERENCE, 0, syms, depth) == Ok::<ValueM, ErrorModel>(v));
            lemma_frame(TYPE_REFERENCE, 0, p, d, off, syms, depth, v);
        },
        ValueM::RefById(inner) => {
            let p = seq![1u8] + enc_value(inner[0], syms, hs)->Ok_0;
            assert(enc_value(v, syms, hs)->Ok_0 == seg(TYPE_REFERENCE, 0, p));
            lemma_ref_by_id_payload(inner, syms, hs, p, depth + 1);
            assert(dec_body(p, off + header_len(p.len()), TYPE_REFERENCE, 0, syms, depth) == Ok::<ValueM, ErrorModel>(v));
            lemma_frame(TYPE_REFERENCE, 0, p, d, off, syms, depth, v);
        },
        _ => {},
    }
}

/// The segment of a stream or of an opaque value is read back as it.
#[verifier::rlimit(100)]
#[verifier::spinoff_prover]
proof fn lemma_other_segment(v: ValueM, syms: Seq<Seq<char>>, hs: bool, d: Seq<u8>, off: int, depth: int)
    requires
        v is Stream || v is Opaque,
        enc_value(v, syms, hs) is Ok,
        reads_back(v, syms, hs, depth),
        holds_at(d, off, enc_value(v, syms, hs)->Ok_0),
        d.len() <= usize::MAX,
        syms.len() <= usize::MAX,
    ensures
        dec_segment(d, off, syms, depth) == Ok::<(ValueM, int), ErrorModel>(
            (v, enc_value(v, syms, hs)->Ok_0.len() as int),
        ),
{
    reveal(reads_back);
    match v {
        ValueM::Stream(it, anns) => {
            let p = str_segment(it) + varint_bytes(anns.len() as u64) + enc_annotations(anns, syms, hs)->Ok_0;
            assert(enc_value(v, syms, hs)->Ok_0 == seg(TYPE_STREAM, 0, p));
            lemma_stream_payload(it, anns, syms, hs, p, depth + 1);
            assert(dec_body(p, off + header_len(p.len()), TYPE_STREAM, 0, syms, depth) == Ok::<ValueM, ErrorModel>(v));
            lemma_frame(TYPE_STREAM, 0, p, d, off, syms, depth, v);
        },
        ValueM::Opaque(tag, bytes) => {
            let p = prefixed(encode_utf8(tag)) + prefixed(bytes);
            assert(enc_value(v, syms, hs)->Ok_0 == seg(TYPE_OPAQUE, 1, p));
            lemma_two_spans(encode_utf8(tag), bytes, p);
            vstd::utf8::encode_utf8_valid_utf8(tag);
            vstd::utf8::encode_utf8_decode_utf8(tag);
            assert(dec_opaque(p, 1) == Ok::<ValueM, ErrorModel>(v));
            assert(dec_body(p, off + header_len(p.len()), TYPE_OPAQUE, 1, syms, depth) == Ok::<ValueM, ErrorModel>(v));
            lemma_frame(TYPE_OPAQUE, 1, p, d, off, syms, depth, v);
        },
        _ => {},
    }
}

/// Fields are read back from where they are written.
#[verifier::rlimit(100)]
#[verifier::spinoff_prover]
proof fn lemma_fields(fs: Seq<(Seq<char>, ValueM)>, syms: Seq<Seq<char>>, hs: bool, p: Seq<u8>, pos: int, depth: int)
    requires
        enc_fields(fs, syms, hs) is Ok,
        holds_at(p, pos, enc_fields(fs, syms, hs)->Ok_0),
        p.len() <= usize::MAX,
        syms.len() <= usize::MAX,
        0 <= depth,
        forall|i: int|
            #![trigger fs[i]]
            0 <= i < fs.len() ==> (hs || name_ok(fs[i].0, depth)) && reads_back(fs[i].1, syms, hs, depth),
    ensures
        dec_fields(p, pos, fs.len() as nat, syms, depth) == Ok::<(Seq<(Seq<char>, ValueM)>, int), ErrorModel>(
            (fs, pos + enc_fields(fs, syms, hs)->Ok_0.len()),
        ),
        fs.len() <= enc_fields(fs, syms, hs)->Ok_0.len(),
    decreases fs, 0int,
{
    let b = enc_fields(fs, syms, hs)->Ok_0;
    if fs.len() == 0 {
        assert(fs =~= Seq::<(Seq<char>, ValueM)>::empty());
    } else {
        let rest = fs.subrange(1, fs.len() as int);
        let name = fs[0].0;
        let val = fs[0].1;
        let bn = enc_field_name(name, syms, hs)->Ok_0;
        let bv = enc_value(val, syms, hs)->Ok_0;
        let br = enc_fields(rest, syms, hs)->Ok_0;
        assert(b == bn + bv + br);
        lemma_holds_split(p, pos, bn + bv, br);
        lemma_holds_split(p, pos, bn, bv);
        assert(reads_back(fs[0].1, syms, hs, depth));
        assert(depth <= 64) by {
            reveal(reads_back);
        }
        lemma_field_name(name, syms, hs, p, pos, depth);
        lemma_value_reads_back(val, syms, hs, p, pos + bn.len(), depth);
        assert(bn.len() >= 1) by {
            assert forall|t: u8, c: u8, q: Seq<u8>| #[trigger] seg(t, c, q).len() >= 4 by {
                assert(segment_header_bytes(t, c, q.len() as usize).len() >= 4);
            }
        }
        assert forall|i: int| #![trigger rest[i]] 0 <= i < rest.len() implies (hs || name_ok(rest[i].0, depth))
            && reads_back(rest[i].1, syms, hs, depth) by {
            assert(rest[i] == fs[i + 1]);
        }
        lemma_fields(rest, syms, hs, p, pos + bn.len() + bv.len(), depth);
        assert(((fs.len() as nat) - 1) as nat == rest.len());
        assert(seq![(name, val)] + rest =~= fs);
    }
}

/// Values written one after another are read back one after another.
#[verifier::rlimit(100)]
#[verifier::spinoff_prover]
proof fn lemma_items(items: Seq<ValueM>, syms: Seq<Seq<char>>, hs: bool, p: Seq<u8>, pos: int, depth: int)
    requires
        enc_values(items, syms, hs) is Ok,
        holds_at(p, pos, flatten(enc_values(items, syms, hs)->Ok_0)),
        p.len() <= usize::MAX,
        syms.len() <= usize::MAX,
        forall|i: int| 0 <= i < items.len() ==> reads_back(#[trigger] items[i], syms, hs, depth),
    ensures
        dec_items(p, pos, items.len() as nat, syms, depth) == Ok::<(Seq<ValueM>, int), ErrorModel>(
            (items, pos + flatten(enc_values(items, syms, hs)->Ok_0).len()),
        ),
        items.len() <= flatten(enc_values(items, syms, hs)->Ok_0).len(),
    decreases items, 0int,
{
    let bufs = enc_values(items, syms, hs)->Ok_0;
    if items.len() == 0 {
        assert(items =~= Seq::<ValueM>::empty());
        assert(bufs =~= Seq::<Seq<u8>>::empty());
    } else {
        let rest = items.subrange(1, items.len() as int);
        let b0 = enc_value(items[0], syms, hs)->Ok_0;
        let rbufs = enc_values(rest, syms, hs)->Ok_0;
        assert(bufs == seq![b0] + rbufs);
        lemma_flatten_first(bufs);
        assert(bufs.drop_first() =~= rbufs);
        lemma_holds_split(p, pos, b0, flatten(rbufs));
        assert(reads_back(items[0], syms, hs, depth));
        lemma_value_reads_back(items[0], syms, hs, p, pos, depth);
        lemma_seg_len(items[0], syms, hs);
        assert forall|i: int| 0 <= i < rest.len() implies reads_back(#[trigger] rest[i], syms, hs, depth) by {
            assert(rest[i] == items[i + 1]);
        }
        lemma_items(rest, syms, hs, p, pos + b0.len(), depth);
        assert(((items.len() as nat) - 1) as nat == rest.len());
        assert(seq![items[0]] + rest =~= items);
    }
}

/// The entry of an offset table read from where the table is written.
#[verifier::rlimit(50)]
#[verifier::spinoff_prover]
proof fn lemma_table_entry(bufs: Seq<Seq<u8>>, p: Seq<u8>, ts: int, idx: int)
    requires
        offset_table(bufs, 0) is Some,
        holds_at(p, ts, offset_table(bufs, 0)->Some_0),
        0 <= idx < bufs.len(),
    ensures
        table_entry(p, ts, idx) == flatten(bufs.take(idx)).len(),
        offset_table(bufs, 0)->Some_0.len() == 4 * bufs.len(),
{
    let t = offset_table(bufs, 0)->Some_0;
    lemma_offset_table(bufs, 0);
    assert(p.subrange(ts + idx * 4, ts + idx * 4 + 4) =~= t.subrange(4 * idx, 4 * idx + 4));
    assert(spec_u32_from_le_bytes(t.subrange(4 * idx, 4 * idx + 4)) == flatten(bufs.take(idx)).len());
}

/// Values written behind an offset table are read back through it.
#[verifier::rlimit(100)]
#[verifier::spinoff_prover]
proof fn lemma_items_at(items: Seq<ValueM>, syms: Seq<Seq<char>>, hs: bool, p: Seq<u8>, ts: int, te: int, idx: int, depth: int)
    requires
        enc_values(items, syms, hs) is Ok,
        offset_table(enc_values(items, syms, hs)->Ok_0, 0) is Some,
        holds_at(p, ts, offset_table(enc_values(items, syms, hs)->Ok_0, 0)->Some_0),
        te == ts + 4 * items.len(),
        holds_at(p, te, flatten(enc_values(items, syms, hs)->Ok_0)),
        p.len() <= usize::MAX,
        syms.len() <= usize::MAX,
        0 <= idx <= items.len(),
        forall|i: int| 0 <= i < items.len() ==> reads_back(#[trigger] items[i], syms, hs, depth),
    ensures
        dec_items_at(p, ts, te, idx as nat, items.len() as nat, syms, depth) == Ok::<Seq<ValueM>, ErrorModel>(
            items.subrange(idx, items.len() as int),
        ),
    decreases items, items.len() - idx,
{
    let bufs = enc_values(items, syms, hs)->Ok_0;
    lemma_enc_values(items, syms, hs);
    if idx < items.len() {
        lemma_table_entry(bufs, p, ts, idx);
        let k = flatten(bufs.take(idx)).len() as int;
        lemma_flatten_at(bufs, idx);
        lemma_holds_within(p, te, flatten(bufs), k, bufs[idx]);
        lemma_seg_len(items[idx], syms, hs);
        assert(reads_back(items[idx], syms, hs, depth));
        lemma_value_reads_back(items[idx], syms, hs, p, te + k, depth);
        lemma_items_at(items, syms, hs, p, ts, te, idx + 1, depth);
        assert(items.subrange(idx, items.len() as int) =~= seq![items[idx]] + items.subrange(
            idx + 1,
            items.len() as int,
        ));
    } else {
        assert(items.subrange(idx, items.len() as int) =~= Seq::<ValueM>::empty());
    }
}

/// Pairs written behind an offset table are read back through it.
#[verifier::rlimit(100)]
#[verifier::spinoff_prover]
proof fn lemma_pairs_at(
    ps: Seq<(ValueM, ValueM)>,
    syms: Seq<Seq<char>>,
    hs: bool,
    p: Seq<u8>,
    ts: int,
    te: int,
    idx: int,
    depth: int,
)
    requires
        enc_pairs(ps, syms, hs) is Ok,
        offset_table(enc_pairs(ps, syms, hs)->Ok_0, 0) is Some,
        holds_at(p, ts, offset_table(enc_pairs(ps, syms, hs)->Ok_0, 0)->Some_0),
        te == ts + 4 * ps.len(),
        holds_at(p, te, flatten(enc_pairs(ps, syms, hs)->Ok_0)),
        p.len() <= usize::MAX,
        syms.len() <= usize::MAX,
        0 <= idx <= ps.len(),
        forall|i: int|
            0 <= i < ps.len() ==> reads_back((#[trigger] ps[i]).0, syms, hs, depth) && reads_back(
                ps[i].1,
                syms,
                hs,
                depth,
            ),
    ensures
        dec_pairs_at(p, ts, te, idx as nat, ps.len() as nat, syms, depth) == Ok::<
            Seq<(ValueM, ValueM)>,
            ErrorModel,
        >(ps.subrange(idx, ps.len() as int)),
    decreases ps, ps.len() - idx,
{
    let bufs = enc_pairs(ps, syms, hs)->Ok_0;
    lemma_enc_pairs(ps, syms, hs);
    if idx < ps.len() {
        lemma_table_entry(bufs, p, ts, idx);
        let k = flatten(bufs.take(idx)).len() as int;
        lemma_flatten_at(bufs, idx);
        lemma_holds_within(p, te, flatten(bufs), k, bufs[idx]);
        let key = ps[idx].0;
        let val = ps[idx].1;
        let bk = enc_value(key, syms, hs)->Ok_0;
        let bv = enc_value(val, syms, hs)->Ok_0;
        assert(bufs[idx] == bk + bv);
        lemma_holds_split(p, te + k, bk, bv);
        lemma_seg_len(key, syms, hs);
        assert(reads_back(ps[idx].0, syms, hs, depth));
        lemma_value_reads_back(key, syms, hs, p, te + k, depth);
        lemma_value_reads_back(val, syms, hs, p, te + k + bk.len(), depth);
        lemma_pairs_at(ps, syms, hs, p, ts, te, idx + 1, depth);
        assert(ps.subrange(idx, ps.len() as int) =~= seq![(key, val)] + ps.subrange(idx + 1, ps.len() as int));
    } else {
        assert(ps.subrange(idx, ps.len() as int) =~= Seq::<(ValueM, ValueM)>::empty());
    }
}

/// The payload of a product is read back as the product.
#[verifier::rlimit(100)]
#[verifier::spinoff_prover]
proof fn lemma_product_payload(
    tn: Option<Seq<char>>,
    fs: Seq<(Seq<char>, ValueM)>,
    syms: Seq<Seq<char>>,
    hs: bool,
    p: Seq<u8>,
    depth: int,
)
    requires
        label_ok(tn, depth),
        0 <= depth,
        enc_fields(fs, syms, hs) is Ok,
        forall|i: int|
            #![trigger fs[i]]
            0 <= i < fs.len() ==> (hs || name_ok(fs[i].0, depth)) && reads_back(fs[i].1, syms, hs, depth),
        p == enc_label(tn) + varint_bytes(fs.len() as u64) + enc_fields(fs, syms, hs)->Ok_0,
        p.len() <= usize::MAX,
        syms.len() <= usize::MAX,
    ensures
        dec_product(p, syms, depth) == Ok::<ValueM, ErrorModel>(ValueM::Product(tn, fs)),
    decreases fs, 1int,
{
    let lab = enc_label(tn);
    let nv = varint_bytes(fs.len() as u64);
    let bf = enc_fields(fs, syms, hs)->Ok_0;
    assert(p.subrange(0, p.len() as int) =~= p);
    lemma_holds_split(p, 0, lab + nv, bf);
    lemma_holds_split(p, 0, lab, nv);
    lemma_label(tn, p, syms, depth, "struct type name"@);
    lemma_fields(fs, syms, hs, p, (lab.len() + nv.len()) as int, depth);
    assert(fs.len() as u64 == fs.len());
    lemma_varint_held(p, lab.len() as int, fs.len() as u64);
}

/// The payload of a sum without payload values is read back as the sum.
#[verifier::rlimit(100)]
#[verifier::spinoff_prover]
proof fn lemma_sum_unit_body(tn: Option<Seq<char>>, variant: Seq<char>, syms: Seq<Seq<char>>, p: Seq<u8>, depth: int)
    requires
        label_ok(tn, depth),
        name_ok(variant, depth),
        0 <= depth,
        p == enc_label(tn) + str_segment(variant) + seq![0u8],
        p.len() <= usize::MAX,
        syms.len() <= usize::MAX,
    ensures
        dec_sum(p, syms, depth) == Ok::<ValueM, ErrorModel>(ValueM::SumUnit(tn, variant)),
{
    let lab = enc_label(tn);
    let vs = str_segment(variant);
    let pos2: int = (lab.len() + vs.len()) as int;
    assert(p.subrange(0, p.len() as int) =~= p);
    lemma_holds_split(p, 0, lab + vs, seq![0u8]);
    lemma_holds_split(p, 0, lab, vs);
    lemma_label(tn, p, syms, depth, "enum type name"@);
    lemma_name(variant, syms, p, lab.len() as int, depth);
    assert(p.subrange(pos2, pos2 + 1)[0] == p[pos2]);
}

/// The payload of a sum with tuple values is read back as the sum.
#[verifier::rlimit(100)]
#[verifier::spinoff_prover]
proof fn lemma_sum_tuple_body(
    tn: Option<Seq<char>>,
    variant: Seq<char>,
    items: Seq<ValueM>,
    syms: Seq<Seq<char>>,
    hs: bool,
    p: Seq<u8>,
    depth: int,
)
    requires
        label_ok(tn, depth),
        name_ok(variant, depth),
        0 <= depth,
        enc_values(items, syms, hs) is Ok,
        forall|i: int| 0 <= i < items.len() ==> reads_back(#[trigger] items[i], syms, hs, depth),
        p == enc_label(tn) + str_segment(variant) + seq![1u8] + varint_bytes(items.len() as u64) + flatten(
            enc_values(items, syms, hs)->Ok_0,
        ),
        p.len() <= usize::MAX,
        syms.len() <= usize::MAX,
    ensures
        dec_sum(p, syms, depth) == Ok::<ValueM, ErrorModel>(ValueM::SumTuple(tn, variant, items)),
    decreases items, 1int,
{
    let lab = enc_label(tn);
    let vs = str_segment(variant);
    let pos2: int = (lab.len() + vs.len()) as int;
    let fl = flatten(enc_values(items, syms, hs)->Ok_0);
    let nv = varint_bytes(items.len() as u64);
    assert(p.subrange(0, p.len() as int) =~= p);
    lemma_holds_split(p, 0, lab + vs + seq![1u8] + nv, fl);
    lemma_holds_split(p, 0, lab + vs + seq![1u8], nv);
    lemma_holds_split(p, 0, lab + vs, seq![1u8]);
    lemma_holds_split(p, 0, lab, vs);
    lemma_label(tn, p, syms, depth, "enum type name"@);
    lemma_name(variant, syms, p, lab.len() as int, depth);
    assert(p.subrange(pos2, pos2 + 1)[0] == p[pos2]);
    lemma_items(items, syms, hs, p, pos2 + 1 + nv.len(), depth);
    assert(items.len() as u64 == items.len());
    lemma_varint_held(p, pos2 + 1, items.len() as u64);
}

/// The payload of a sum with struct fields is read back as the sum.
#[verifier::rlimit(100)]
#[verifier::spinoff_prover]
proof fn lemma_sum_struct_body(
    tn: Option<Seq<char>>,
    variant: Seq<char>,
    fs: Seq<(Seq<char>, ValueM)>,
    syms: Seq<Seq<char>>,
    hs: bool,
    p: Seq<u8>,
    depth: int,
)
    requires
        label_ok(tn, depth),
        name_ok(variant, depth),
        0 <= depth,
        enc_fields(fs, syms, hs) is Ok,
        forall|i: int|
            #![trigger fs[i]]
            0 <= i < fs.len() ==> (hs || name_ok(fs[i].0, depth)) && reads_back(fs[i].1, syms, hs, depth),
        p == enc_label(tn) + str_segment(variant) + seq![2u8] + varint_bytes(fs.len() as u64) + enc_fields(
            fs,
            syms,
            hs,
        )->Ok_0,
        p.len() <= usize::MAX,
        syms.len() <= usize::MAX,
    ensures
        dec_sum(p, syms, depth) == Ok::<ValueM, ErrorModel>(ValueM::SumStruct(tn, variant, fs)),
    decreases fs, 1int,
{
    let lab = enc_label(tn);
    let vs = str_segment(variant);
    let pos2: int = (lab.len() + vs.len()) as int;
    let bf = enc_fields(fs, syms, hs)->Ok_0;
    let nv = varint_bytes(fs.len() as u64);
    assert(p.subrange(0, p.len() as int) =~= p);
    lemma_holds_split(p, 0, lab + vs + seq![2u8] + nv, bf);
    lemma_holds_split(p, 0, lab + vs + seq![2u8], nv);
    lemma_holds_split(p, 0, lab + vs, seq![2u8]);
    lemma_holds_split(p, 0, lab, vs);
    lemma_label(tn, p, syms, depth, "enum type name"@);
    lemma_name(variant, syms, p, lab.len() as int, depth);
    assert(p.subrange(pos2, pos2 + 1)[0] == p[pos2]);
    lemma_fields(fs, syms, hs, p, pos2 + 1 + nv.len(), depth);
    assert(fs.len() as u64 == fs.len());
    lemma_varint_held(p, pos2 + 1, fs.len() as u64);
}

/// The payload of a non-empty sequence is read back as the sequence.
#[verifier::rlimit(100)]
#[verifier::spinoff_prover]
proof fn lemma_sequence_payload(
    et: Option<Seq<char>>,
    items: Seq<ValueM>,
    syms: Seq<Seq<char>>,
    hs: bool,
    p: Seq<u8>,
    depth: int,
)
    requires
        items.len() > 0,
        label_ok(et, depth),
        0 <= depth,
        enc_values(items, syms, hs) is Ok,
        with_table(enc_values(items, syms, hs)->Ok_0, "sequence"@) is Ok,
        forall|i: int| 0 <= i < items.len() ==> reads_back(#[trigger] items[i], syms, hs, depth),
        p == enc_label(et) + varint_bytes(items.len() as u64) + with_table(
            enc_values(items, syms, hs)->Ok_0,
            "sequence"@,
        )->Ok_0,
        p.len() <= usize::MAX,
        syms.len() <= usize::MAX,
    ensures
        dec_sequence(p, syms, depth, HAS_OFFSET_TABLE) == Ok::<ValueM, ErrorModel>(ValueM::Sequence(et, items)),
    decreases items, items.len() + 1,
{
    let n = items.len();
    let bufs = enc_values(items, syms, hs)->Ok_0;
    lemma_enc_values(items, syms, hs);
    let t = offset_table(bufs, 0)->Some_0;
    let fl = flatten(bufs);
    let lab = enc_label(et);
    let nv = varint_bytes(n as u64);
    assert(p =~= lab + nv + t + fl);
    assert(p.subrange(0, p.len() as int) =~= p);
    lemma_holds_split(p, 0, lab + nv + t, fl);
    lemma_holds_split(p, 0, lab + nv, t);
    lemma_holds_split(p, 0, lab, nv);
    lemma_label(et, p, syms, depth, "sequence element type"@);
    lemma_offset_table(bufs, 0);
    assert(n as u64 == n);
    lemma_varint_held(p, lab.len() as int, n as u64);
    let pos2: int = (lab.len() + nv.len()) as int;
    assert(8u8 & 8u8 == 8u8) by (bit_vector);
    lemma_items_at(items, syms, hs, p, pos2, pos2 + 4 * n, 0, depth);
    assert(items.subrange(0, n as int) =~= items);
}

/// The payload of a non-empty association is read back as the association.
#[verifier::rlimit(100)]
#[verifier::spinoff_prover]
proof fn lemma_map_payload(pairs: Seq<(ValueM, ValueM)>, syms: Seq<Seq<char>>, hs: bool, p: Seq<u8>, depth: int)
    requires
        pairs.len() > 0,
        0 <= depth,
        enc_pairs(pairs, syms, hs) is Ok,
        with_table(enc_pairs(pairs, syms, hs)->Ok_0, "map"@) is Ok,
        forall|i: int|
            0 <= i < pairs.len() ==> reads_back((#[trigger] pairs[i]).0, syms, hs, depth) && reads_back(
                pairs[i].1,
                syms,
                hs,
                depth,
            ),
        p == varint_bytes(pairs.len() as u64) + with_table(enc_pairs(pairs, syms, hs)->Ok_0, "map"@)->Ok_0,
        p.len() <= usize::MAX,
        syms.len() <= usize::MAX,
    ensures
        dec_map(p, syms, depth, HAS_OFFSET_TABLE) == Ok::<ValueM, ErrorModel>(ValueM::Association(pairs)),
    decreases pairs, pairs.len() + 1,
{
    let n = pairs.len();
    let bufs = enc_pairs(pairs, syms, hs)->Ok_0;
    lemma_enc_pairs(pairs, syms, hs);
    let t = offset_table(bufs, 0)->Some_0;
    let fl = flatten(bufs);
    let nv = varint_bytes(n as u64);
    assert(p =~= nv + t + fl);
    assert(p.subrange(0, p.len() as int) =~= p);
    lemma_holds_split(p, 0, nv + t, fl);
    lemma_holds_split(p, 0, nv, t);
    lemma_offset_table(bufs, 0);
    assert(n as u64 == n);
    lemma_varint_held(p, 0, n as u64);
    let pos: int = nv.len() as int;
    assert(8u8 & 8u8 == 8u8) by (bit_vector);
    lemma_pairs_at(pairs, syms, hs, p, pos, pos + 4 * n, 0, depth);
    assert(pairs.subrange(0, n as int) =~= pairs);
}

/// The payload of a reference to a binding is read back as the reference.
#[verifier::rlimit(50)]
#[verifier::spinoff_prover]
proof fn lemma_ref_binding_payload(name: Seq<char>, syms: Seq<Seq<char>>, p: Seq<u8>, depth: int)
    requires
        p == seq![0u8] + prefixed(encode_utf8(name)),
        p.len() <= usize::MAX,
    ensures
        dec_reference(p, syms, depth) == Ok::<ValueM, ErrorModel>(ValueM::RefBinding(name)),
{
    let nb = encode_utf8(name);
    let vl = varint_bytes(nb.len() as u64);
    assert(p.subrange(0, p.len() as int) =~= p);
    assert(p.subrange(0, 1)[0] == p[0]);
    lemma_holds_split(p, 0, seq![0u8], vl + nb);
    lemma_holds_split(p, 1, vl, nb);
    lemma_varint_held(p, 1, nb.len() as u64);
    vstd::utf8::encode_utf8_valid_utf8(name);
    vstd::utf8::encode_utf8_decode_utf8(name);
    assert(dec_span(p, 1) == Ok::<(int, int), ErrorModel>(((1 + vl.len()) as int, p.len() as int)));
    assert(p.subrange((1 + vl.len()) as int, p.len() as int) == nb);
}

/// The payload of a reference by value is read back as the reference.
#[verifier::rlimit(50)]
#[verifier::spinoff_prover]
proof fn lemma_ref_by_id_payload(inner: Seq<ValueM>, syms: Seq<Seq<char>>, hs: bool, p: Seq<u8>, depth: int)
    requires
        inner.len() == 1,
        enc_value(inner[0], syms, hs) is Ok,
        reads_back(inner[0], syms, hs, depth),
        p == seq![1u8] + enc_value(inner[0], syms, hs)->Ok_0,
        p.len() <= usize::MAX,
        syms.len() <= usize::MAX,
    ensures
        dec_reference(p, syms, depth) == Ok::<ValueM, ErrorModel>(ValueM::RefById(inner)),
    decreases inner, 1int,
{
    let b = enc_value(inner[0], syms, hs)->Ok_0;
    assert(p.subrange(0, p.len() as int) =~= p);
    assert(p.subrange(0, 1)[0] == p[0]);
    lemma_holds_split(p, 0, seq![1u8], b);
    lemma_value_reads_back(inner[0], syms, hs, p, 1, depth);
    assert(seq![inner[0]] =~= inner);
}

/// The payload of a stream is read back as the stream.
#[verifier::rlimit(100)]
#[verifier::spinoff_prover]
proof fn lemma_stream_payload(it: Seq<char>, anns: Seq<AnnotationM>, syms: Seq<Seq<char>>, hs: bool, p: Seq<u8>, depth: int)
    requires
        name_ok(it, depth),
        0 <= depth,
        enc_annotations(anns, syms, hs) is Ok,
        forall|i: int|
            0 <= i < anns.len() ==> name_ok((#[trigger] anns[i]).name, depth) && (anns[i].value matches Some(s)
                ==> seg_ok(enc_scalar(s, syms, hs))),
        p == str_segment(it) + varint_bytes(anns.len() as u64) + enc_annotations(anns, syms, hs)->Ok_0,
        p.len() <= usize::MAX,
        syms.len() <= usize::MAX,
    ensures
        dec_stream(p, syms, depth) == Ok::<ValueM, ErrorModel>(ValueM::Stream(it, anns)),
{
    let bi = str_segment(it);
    let nv = varint_bytes(anns.len() as u64);
    let ba = enc_annotations(anns, syms, hs)->Ok_0;
    assert(p.subrange(0, p.len() as int) =~= p);
    lemma_holds_split(p, 0, bi + nv, ba);
    lemma_holds_split(p, 0, bi, nv);
    lemma_name(it, syms, p, 0, depth);
    lemma_annotations(anns, syms, hs, p, (bi.len() + nv.len()) as int, depth);
    assert(anns.len() as u64 == anns.len());
    lemma_varint_held(p, bi.len() as int, anns.len() as u64);
}


/// The symbol table a document is encoded with: with `with_symtab`, the
/// symbol table of its resolved root, else none.
pub open spec fn document_symbols(v: ValueM, with_symtab: bool) -> Seq<Seq<char>> {
    if with_symtab {
        symbol_table_of(v)
    } else {
        Seq::empty()
    }
}

/// Decoding what encoding a document gives returns the symbol table it
/// was encoded with and its effective root, every reference to a binding
/// resolved, whenever the root reads back (`reads_back`: no segment payload
/// of exactly `0xFF_FFFF` bytes, nesting within 64 segments, no empty
/// sequence with an element type, every tensor as `tensor_ok` says) and
/// the symbol count fits the four-byte count field.
#[verifier::rlimit(50)]
#[verifier::spinoff_prover]
pub proof fn law_document_roundtrip(
    root: Result<ValueM, ErrorModel>,
    bs: Seq<(Seq<char>, ValueM)>,
    with_symtab: bool,
    alignment: u8,
    v: ValueM,
)
    requires
        enc_document(root, bs, with_symtab, alignment) is Ok,
        root matches Ok(r0) && resolve(r0, bs, Set::empty()) == Ok::<ValueM, ErrorModel>(v),
        reads_back(v, document_symbols(v, with_symtab), document_symbols(v, with_symtab).len() > 0, 0),
        document_symbols(v, with_symtab).len() <= u32::MAX,
        enc_document(root, bs, with_symtab, alignment)->Ok_0.len() <= usize::MAX,
    ensures
        dec_document(enc_document(root, bs, with_symtab, alignment)->Ok_0) == Ok::<
            (Seq<Seq<char>>, ValueM),
            ErrorModel,
        >((document_symbols(v, with_symtab), v)),
{
    let syms = document_symbols(v, with_symtab);
    let hs = syms.len() > 0;
    let table = if hs {
        symbol_table_bytes(syms)
    } else {
        Seq::<u8>::empty()
    };
    let b = enc_value(v, syms, hs)->Ok_0;
    let h = document_header_bytes(alignment, table.len() as u64, hs);
    let body = h + table + b;
    let d = enc_document(root, bs, with_symtab, alignment)->Ok_0;
    vstd::bytes::lemma_auto_spec_u64_to_from_le_bytes();
    vstd::bytes::lemma_auto_spec_u32_to_from_le_bytes();
    assert(d == body + spec_u64_to_le_bytes(crc64_of(body)));
    assert(h.len() == 32);
    lemma_seg_len(v, syms, hs);
    let n = d.len();
    assert(d.subrange(0, 4) =~= magic_bytes());
    assert(d[4] == 1u8);
    assert(d.subrange(n - 8, n as int) =~= spec_u64_to_le_bytes(crc64_of(body)));
    assert(d.subrange(0, n - 8) =~= body);
    let payload = d.subrange(32, n - 8);
    assert(payload =~= table + b);
    assert(d[6] == if hs { 3u8 } else { 1u8 });
    assert(3u8 & 2u8 != 0u8 && 1u8 & 2u8 == 0u8) by (bit_vector);
    assert(d.subrange(16, 24) =~= spec_u64_to_le_bytes(table.len() as u64));
    assert(d.subrange(24, 28) =~= spec_u32_to_le_bytes(0u32));
    if hs {
        let c = spec_u32_to_le_bytes(syms.len() as u32);
        assert(table == c + symbol_entries(syms));
        assert(payload.subrange(0, 4) =~= c);
        assert(holds_at(payload, 4, symbol_entries(syms))) by {
            assert(payload.subrange(4, (4 + symbol_entries(syms).len()) as int) =~= symbol_entries(syms));
        }
        lemma_parse_symbol_entries(payload, 4, syms);
        assert(parse_symbol_table(payload, 0) == Ok::<Seq<Seq<char>>, SurpError>(syms));
    } else {
        assert(syms =~= Seq::<Seq<char>>::empty());
    }
    assert(holds_at(payload, table.len() as int, b)) by {
        assert(payload.subrange(table.len() as int, (table.len() + b.len()) as int) =~= b);
    }
    lemma_value_reads_back(v, syms, hs, payload, table.len() as int, 0);
}


/// The dimension a shape entry is written as: 0 for an unknown one.
pub open spec fn dim_value(x: Option<u64>) -> u64 {
    match x {
        Some(v) => v,
        None => 0,
    }
}

/// The dimensions of a shape: the first one, then the rest.
#[verifier::rlimit(50)]
#[verifier::spinoff_prover]
proof fn lemma_shape_first(shape: Seq<Option<u64>>)
    requires
        shape.len() > 0,
    ensures
        shape_bytes(shape) == varint_bytes(dim_value(shape[0])) + shape_bytes(shape.drop_first()),
    decreases shape.len(),
{
    if shape.len() == 1 {
        assert(shape.drop_last() =~= Seq::<Option<u64>>::empty());
        assert(shape.drop_first() =~= Seq::<Option<u64>>::empty());
        assert(shape_bytes(shape) =~= varint_bytes(dim_value(shape[0])) + shape_bytes(shape.drop_first()));
    } else {
        lemma_shape_first(shape.drop_last());
        assert(shape.drop_last().drop_first() =~= shape.drop_first().drop_last());
        assert(shape.drop_first().last() == shape.last());
        assert(shape_bytes(shape) =~= varint_bytes(dim_value(shape[0])) + shape_bytes(shape.drop_first()));
    }
}

/// The dimensions of a shape without `Some(0)` are read back as the shape.
#[verifier::rlimit(50)]
#[verifier::spinoff_prover]
proof fn lemma_dec_shape(shape: Seq<Option<u64>>, p: Seq<u8>, pos: int)
    requires
        holds_at(p, pos, shape_bytes(shape)),
        forall|i: int| 0 <= i < shape.len() ==> #[trigger] shape[i] != Some(0u64),
    ensures
        dec_shape(p, pos, shape.len()) == Ok::<(Seq<Option<u64>>, int), ErrorModel>(
            (shape, pos + shape_bytes(shape).len()),
        ),
    decreases shape.len(),
{
    if shape.len() == 0 {
        assert(shape =~= Seq::<Option<u64>>::empty());
    } else {
        lemma_shape_first(shape);
        let x = dim_value(shape[0]);
        let rest = shape.drop_first();
        lemma_holds_split(p, pos, varint_bytes(x), shape_bytes(rest));
        lemma_varint_held(p, pos, x);
        assert(shape[0] != Some(0u64));
        assert forall|i: int| 0 <= i < rest.len() implies #[trigger] rest[i] != Some(0u64) by {
            assert(rest[i] == shape[i + 1]);
        }
        let used = varint_bytes(x).len();
        lemma_varint_bytes_len(x);
        lemma_dec_shape(rest, p, pos + used);
        assert(((shape.len() as nat) - 1) as nat == rest.len());
        assert(spec_decode_varint(p, pos) == Ok::<(u64, usize), SurpError>((x, used as usize)));
        assert(shape_bytes(shape).len() == used + shape_bytes(rest).len());
        let head: Option<u64> = if x == 0 {
            None
        } else {
            Some(x)
        };
        assert(head == shape[0]);
        assert(seq![head] + rest =~= shape);
        assert(dec_shape(p, pos, shape.len()) == Ok::<(Seq<Option<u64>>, int), ErrorModel>(
            (seq![head] + rest, pos + used + shape_bytes(rest).len()),
        ));
    }
}

/// Eight-byte words: each word `i` at `8 * i`.
#[verifier::rlimit(50)]
#[verifier::spinoff_prover]
proof fn lemma_words_bytes(ws: Seq<u64>)
    ensures
        words_bytes(ws).len() == 8 * ws.len(),
        forall|i: int|
            0 <= i < ws.len() ==> #[trigger] words_bytes(ws).subrange(8 * i, 8 * i + 8) == spec_u64_to_le_bytes(ws[i]),
    decreases ws.len(),
{
    vstd::bytes::lemma_auto_spec_u64_to_from_le_bytes();
    if ws.len() > 0 {
        let a = ws.drop_last();
        lemma_words_bytes(a);
        let b = words_bytes(ws);
        assert(b == words_bytes(a) + spec_u64_to_le_bytes(ws.last()));
        assert forall|i: int| 0 <= i < ws.len() implies #[trigger] b.subrange(8 * i, 8 * i + 8) == spec_u64_to_le_bytes(ws[i]) by {
            if i < a.len() {
                assert(b.subrange(8 * i, 8 * i + 8) =~= words_bytes(a).subrange(8 * i, 8 * i + 8));
            } else {
                assert(b.subrange(8 * i, 8 * i + 8) =~= spec_u64_to_le_bytes(ws.last()));
            }
        }
    }
}

/// Words are read back from where they are written.
#[verifier::rlimit(50)]
#[verifier::spinoff_prover]
proof fn lemma_words(ws: Seq<u64>, p: Seq<u8>, pos: int)
    requires
        holds_at(p, pos, words_bytes(ws)),
    ensures
        words_bytes(ws).len() == 8 * ws.len(),
        words(p, pos, ws.len()) == ws,
{
    vstd::bytes::lemma_auto_spec_u64_to_from_le_bytes();
    lemma_words_bytes(ws);
    let b = words_bytes(ws);
    assert forall|i: int| 0 <= i < ws.len() implies #[trigger] words(p, pos, ws.len())[i] == ws[i] by {
        assert(p.subrange(pos + i * 8, pos + i * 8 + 8) =~= b.subrange(8 * i, 8 * i + 8));
    }
    assert(words(p, pos, ws.len()) =~= ws);
}

/// The element type names of tensors differ from one another.
#[verifier::rlimit(50)]
#[verifier::spinoff_prover]
proof fn lemma_type_names()
    ensures
        "f32"@ != "f64"@,
        "f32"@ != "i64"@,
        "f32"@ != "u64"@,
        "f64"@ != "i64"@,
        "f64"@ != "u64"@,
        "i64"@ != "u64"@,
        "bytes"@ != "f32"@,
        "bytes"@ != "f64"@,
        "bytes"@ != "i64"@,
        "bytes"@ != "u64"@,
{
    reveal_strlit("f32");
    reveal_strlit("f64");
    reveal_strlit("i64");
    reveal_strlit("u64");
    reveal_strlit("bytes");
    assert("f32"@[1] != "f64"@[1]);
    assert("f32"@[0] != "i64"@[0]);
    assert("f32"@[0] != "u64"@[0]);
    assert("f64"@[0] != "i64"@[0]);
    assert("f64"@[0] != "u64"@[0]);
    assert("i64"@[0] != "u64"@[0]);
}

/// The element count of dense tensor data is read back, and the elements
/// fit in the payload.
#[verifier::rlimit(50)]
#[verifier::spinoff_prover]
proof fn lemma_dense_count(n: nat, p: Seq<u8>, pos: int)
    requires
        0 <= pos,
        pos + 8 + 8 * n <= p.len(),
        p.len() <= usize::MAX,
        p.subrange(pos, pos + 8) == spec_u64_to_le_bytes(n as u64),
    ensures
        n <= usize::MAX,
        (spec_u64_from_le_bytes(p.subrange(pos, pos + 8)) as usize) as nat == n,
        ((spec_u64_from_le_bytes(p.subrange(pos, pos + 8)) as usize) as nat) * 8 <= usize::MAX,
        pos + 8 + ((spec_u64_from_le_bytes(p.subrange(pos, pos + 8)) as usize) as nat) * 8 <= p.len(),
{
    vstd::bytes::lemma_auto_spec_u64_to_from_le_bytes();
    assert(n <= u64::MAX);
    assert(spec_u64_from_le_bytes(p.subrange(pos, pos + 8)) == n as u64);
}

/// A tensor's segment is read back as the tensor.
#[verifier::rlimit(100)]
#[verifier::spinoff_prover]
proof fn lemma_tensor_segment(v: ValueM, syms: Seq<Seq<char>>, hs: bool, d: Seq<u8>, off: int, depth: int)
    requires
        v is Tensor,
        enc_value(v, syms, hs) is Ok,
        reads_back(v, syms, hs, depth),
        holds_at(d, off, enc_value(v, syms, hs)->Ok_0),
        d.len() <= usize::MAX,
    ensures
        dec_segment(d, off, syms, depth) == Ok::<(ValueM, int), ErrorModel>(
            (v, enc_value(v, syms, hs)->Ok_0.len() as int),
        ),
{
    reveal(reads_back);
    let et = v->Tensor_0;
    let shape = v->Tensor_1;
    let td = v->Tensor_2;
    let anns = v->Tensor_3;
    let p = enc_tensor(et, shape, td)->Ok_0;
    assert(enc_value(v, syms, hs)->Ok_0 == seg(TYPE_TENSOR, 0, p));
    let code = tensor_type_code(et);
    let sb = shape_bytes(shape);
    let db = tensor_data_bytes(td);
    let h4 = seq![code, shape.len() as u8, 0x01u8, 0u8];
    assert(p == h4 + sb + db);
    assert(p.subrange(0, p.len() as int) =~= p);
    lemma_holds_split(p, 0, h4 + sb, db);
    lemma_holds_split(p, 0, h4, sb);
    assert(p.subrange(0, 4)[0] == p[0] && p.subrange(0, 4)[1] == p[1]);
    assert(p[1] as nat == shape.len());
    lemma_dec_shape(shape, p, 4);
    let pos: int = (4 + sb.len()) as int;
    vstd::bytes::lemma_auto_spec_u64_to_from_le_bytes();
    reveal_strlit("f32");
    reveal_strlit("f64");
    reveal_strlit("i64");
    reveal_strlit("u64");
    reveal_strlit("bytes");
    lemma_type_names();
    assert(tensor_type_name(code) == et);
    assert(p.len() <= usize::MAX) by {
        assert(seg(TYPE_TENSOR, 0, p).len() >= p.len());
    }
    match td {
        TensorDataM::DenseF64(ws) => {
            let c8 = spec_u64_to_le_bytes(ws.len() as u64);
            lemma_holds_split(p, pos, c8, words_bytes(ws));
            assert(p.subrange(pos, pos + 8) == c8);
            lemma_words(ws, p, pos + 8);
            lemma_dense_count(ws.len(), p, pos);
            assert(code == 0x01 || code == 0x02);
            assert(dec_tensor(p) == Ok::<ValueM, ErrorModel>(ValueM::Tensor(et, shape, td, Seq::empty())));
        },
        TensorDataM::DenseU64(ws) => {
            let c8 = spec_u64_to_le_bytes(ws.len() as u64);
            lemma_holds_split(p, pos, c8, words_bytes(ws));
            assert(p.subrange(pos, pos + 8) == c8);
            lemma_words(ws, p, pos + 8);
            lemma_dense_count(ws.len(), p, pos);
            assert(code == 0x11);
            assert(dec_tensor(p) == Ok::<ValueM, ErrorModel>(ValueM::Tensor(et, shape, td, Seq::empty())));
        },
        TensorDataM::DenseI64(vs) => {
            let ws = vs.map_values(|x: i64| x as u64);
            let c8 = spec_u64_to_le_bytes(vs.len() as u64);
            lemma_holds_split(p, pos, c8, words_bytes(ws));
            assert(p.subrange(pos, pos + 8) == c8);
            lemma_words(ws, p, pos + 8);
            lemma_dense_count(ws.len(), p, pos);
            assert(code == 0x10);
            assert forall|i: int| 0 <= i < vs.len() implies ws.map_values(|w: u64| w as i64)[i] == #[trigger] vs[i] by {
                let x = vs[i];
                assert((x as u64) as i64 == x) by (bit_vector);
            }
            assert(ws.map_values(|w: u64| w as i64) =~= vs);
            assert(dec_tensor(p) == Ok::<ValueM, ErrorModel>(ValueM::Tensor(et, shape, td, Seq::empty())));
        },
        TensorDataM::BinaryBlob(b) => {
            let c8 = spec_u64_to_le_bytes(b.len() as u64);
            lemma_holds_split(p, pos, c8, b);
            assert(p.subrange(pos, pos + 8) == c8);
            assert(p.subrange(pos + 8, p.len() as int) == b);
            assert(dec_tensor(p) == Ok::<ValueM, ErrorModel>(ValueM::Tensor(et, shape, td, Seq::empty())));
        },
    }
    assert(anns =~= Seq::<AnnotationM>::empty());
    assert(dec_body(p, off + header_len(p.len()), TYPE_TENSOR, 0, syms, depth) == Ok::<ValueM, ErrorModel>(v));
    lemma_frame(TYPE_TENSOR, 0, p, d, off, syms, depth, v);
}

} // verus!

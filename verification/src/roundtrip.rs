//! What is written is read back: the decoder reads exactly the values the
//! encoder wrote, provided the decoder's limits let it.

use crate::block::block_bytes;
use crate::checksum::spec_xxh64;
use crate::decode_spec::{array_charge, object_charge, array_tail, at, charge, dec_array, dec_entries, dec_items, dec_key, dec_len_delimited, dec_object, dec_value, object_tail, DecState};
use crate::decoder::{block_data, fresh_decoder, owned_state, with_owned_state, with_zc_state, zc_state, DecoderView};
use crate::stream_spec::decoder_wf;
use crate::codec::{lz4_decompress_size_prepended_of, snappy_decompress_of, zstd_decode_all_of};
use crate::encoder::{
    compressed_of, wire_form, worth_compressing, enc_entries, enc_items, enc_value, finished_bytes, key_item, lemma_enc_value_depth, str_item, bytes_item, tag, EncoderView,
};
use crate::error::SurpError;
use crate::limits::Limits;
use crate::stream_spec::{all_owned, all_zc, next_zc, decompress_payload, frame_header, law_ended_stream, next_owned, progress, read_block};
use crate::value::ValueModel;
use crate::varint::{lemma_decode_encode_signed_varint, lemma_decode_encode_varint, lemma_varint_bytes_len, spec_decode_signed_varint, spec_decode_varint, spec_zigzag_encode, varint_bytes};
use crate::wire::{block_code, compression_code, spec_compression_from_byte, wire_code, BlockType, CompressionType, WireType};
use vstd::bytes::{lemma_auto_spec_u64_to_from_le_bytes, spec_u64_from_le_bytes, spec_u64_to_le_bytes};
use vstd::prelude::*;
use vstd::utf8::{decode_utf8, encode_utf8, valid_utf8};

verus! {

/// What reading `v` charges to the memory limit: the bytes of its string
/// and byte-string payloads and, for the zero-copy decoder (`zc`), the
/// element storage of its arrays and objects.
pub open spec fn value_mem(v: ValueModel, zc: bool) -> nat
    decreases v,
{
    match v {
        ValueModel::Str(s) => encode_utf8(s).len(),
        ValueModel::Bytes(b) => b.len(),
        ValueModel::Array(items) => (if zc {
            array_charge(items.len() as int) as nat
        } else {
            0
        }) + items_mem(items, zc),
        ValueModel::Object(entries) => (if zc {
            object_charge(entries.len() as int) as nat
        } else {
            0
        }) + entries_mem(entries, zc),
        _ => 0,
    }
}

/// What reading the values `items` charges.
pub open spec fn items_mem(items: Seq<ValueModel>, zc: bool) -> nat
    decreases items,
{
    if items.len() == 0 {
        0
    } else {
        value_mem(items[0], zc) + items_mem(items.subrange(1, items.len() as int), zc)
    }
}

/// What reading the values of `entries` charges.
pub open spec fn entries_mem(entries: Seq<(Seq<char>, ValueModel)>, zc: bool) -> nat
    decreases entries,
{
    if entries.len() == 0 {
        0
    } else {
        value_mem(entries[0].1, zc) + entries_mem(entries.subrange(1, entries.len() as int), zc)
    }
}

/// Every string and byte string in `v` is at most `max` bytes long.
pub open spec fn value_fits(v: ValueModel, max: usize) -> bool
    decreases v,
{
    match v {
        ValueModel::Str(s) => encode_utf8(s).len() <= max,
        ValueModel::Bytes(b) => b.len() <= max,
        ValueModel::Array(items) => items_fit(items, max),
        ValueModel::Object(entries) => entries_fit(entries, max),
        _ => true,
    }
}

/// Every string and byte string in `items` is at most `max` bytes long.
pub open spec fn items_fit(items: Seq<ValueModel>, max: usize) -> bool
    decreases items,
{
    items.len() == 0 || (value_fits(items[0], max) && items_fit(items.subrange(1, items.len() as int), max))
}

/// Every string and byte string in the values of `entries` is at most
/// `max` bytes long.
pub open spec fn entries_fit(entries: Seq<(Seq<char>, ValueModel)>, max: usize) -> bool
    decreases entries,
{
    entries.len() == 0 || (value_fits(entries[0].1, max) && entries_fit(
        entries.subrange(1, entries.len() as int),
        max,
    ))
}

/// `d` holds `w` at `pos`.
pub open spec fn holds_at(d: Seq<u8>, pos: int, w: Seq<u8>) -> bool {
    0 <= pos && pos + w.len() <= d.len() && d.subrange(pos, pos + w.len()) == w
}

pub(crate) proof fn lemma_holds_split(d: Seq<u8>, pos: int, a: Seq<u8>, b: Seq<u8>)
    requires
        holds_at(d, pos, a + b),
    ensures
        holds_at(d, pos, a),
        holds_at(d, pos + a.len(), b),
{
    let w = a + b;
    assert forall|i: int| 0 <= i < a.len() implies d.subrange(pos, pos + a.len())[i] == a[i] by {
        assert(d.subrange(pos, pos + w.len())[i] == w[i]);
    }
    assert forall|i: int| 0 <= i < b.len() implies d.subrange(pos + a.len(), pos + a.len() + b.len())[i] == b[i] by {
        assert(d.subrange(pos, pos + w.len())[a.len() + i] == w[a.len() + i]);
    }
    assert(d.subrange(pos, pos + a.len()) =~= a);
    assert(d.subrange(pos + a.len(), pos + a.len() + b.len()) =~= b);
}

pub(crate) proof fn lemma_varint_held(d: Seq<u8>, pos: int, v: u64)
    requires
        holds_at(d, pos, varint_bytes(v)),
    ensures
        spec_decode_varint(d, pos) == Ok::<(u64, usize), SurpError>((v, varint_bytes(v).len() as usize)),
{
    let w = varint_bytes(v);
    lemma_decode_encode_varint(v, d.subrange(0, pos), d.subrange(pos + w.len(), d.len() as int));
    assert(d =~= d.subrange(0, pos) + w + d.subrange(pos + w.len(), d.len() as int));
}

pub(crate) proof fn lemma_signed_varint_held(d: Seq<u8>, pos: int, n: i64)
    requires
        holds_at(d, pos, varint_bytes(spec_zigzag_encode(n))),
    ensures
        spec_decode_signed_varint(d, pos) == Ok::<(i64, usize), SurpError>(
            (n, varint_bytes(spec_zigzag_encode(n)).len() as usize),
        ),
{
    let w = varint_bytes(spec_zigzag_encode(n));
    lemma_decode_encode_signed_varint(n, d.subrange(0, pos), d.subrange(pos + w.len(), d.len() as int));
    assert(d =~= d.subrange(0, pos) + w + d.subrange(pos + w.len(), d.len() as int));
}

/// The tag byte at the front of an encoded item is read back as its wire type.
proof fn lemma_tag_held(d: Seq<u8>, pos: int, w: WireType, rest: Seq<u8>)
    requires
        holds_at(d, pos, tag(w) + rest),
    ensures
        d[pos] == wire_code(w),
        crate::wire::spec_from_tag(d[pos]) == Some(w),
{
    lemma_holds_split(d, pos, tag(w), rest);
    assert(d[pos] == d.subrange(pos, pos + 1)[0]);
    crate::wire::lemma_tag_roundtrip(w, 0);
}

/// A value the encoder wrote without error at nesting depth `depth` is
/// read back by the owned decoder at the same depth, which moves past
/// exactly its bytes and charges its payload bytes to memory.
#[verifier::spinoff_prover]
#[verifier::rlimit(100)]
pub proof fn lemma_dec_enc_value(
    v: ValueModel,
    depth: int,
    lim: Limits,
    dict: Seq<Seq<char>>,
    d: Seq<u8>,
    end: int,
    st: DecState,
    zc: bool,
)
    requires
        enc_value(v, depth, lim, false, dict).3 is None,
        st.depth == depth,
        holds_at(d, st.pos, enc_value(v, depth, lim, false, dict).0),
        st.pos + enc_value(v, depth, lim, false, dict).0.len() <= end <= d.len(),
        d.len() <= usize::MAX,
        value_fits(v, lim.max_string_length),
        0 <= st.mem,
        st.mem + value_mem(v, zc) <= lim.max_memory,
    ensures
        enc_value(v, depth, lim, false, dict).0.len() >= 1,
        enc_value(v, depth, lim, false, dict).1 == dict,
        dec_value(d, end, lim, zc, st).0 == Ok::<ValueModel, SurpError>(v),
        dec_value(d, end, lim, zc, st).1.pos == st.pos + enc_value(v, depth, lim, false, dict).0.len(),
        dec_value(d, end, lim, zc, st).1.depth == st.depth,
        dec_value(d, end, lim, zc, st).1.mem == st.mem + value_mem(v, zc),
    decreases v, 1int,
{
    let enc = enc_value(v, depth, lim, false, dict);
    let pos = st.pos;
    let p1 = pos + 1;
    match v {
        ValueModel::Null => {
            lemma_tag_held(d, pos, WireType::Null, Seq::empty());
        },
        ValueModel::Bool(b) => {
            lemma_tag_held(d, pos, WireType::Bool, seq![if b { 1u8 } else { 0u8 }]);
            assert(d[p1] == d.subrange(pos, pos + 2)[1]);
        },
        ValueModel::UInt(n) => {
            lemma_tag_held(d, pos, WireType::VarUInt, varint_bytes(n));
            lemma_holds_split(d, pos, tag(WireType::VarUInt), varint_bytes(n));
            lemma_varint_held(d, p1, n);
        },
        ValueModel::Int(n) => {
            lemma_tag_held(d, pos, WireType::VarInt, varint_bytes(spec_zigzag_encode(n)));
            lemma_holds_split(d, pos, tag(WireType::VarInt), varint_bytes(spec_zigzag_encode(n)));
            lemma_signed_varint_held(d, p1, n);
        },
        ValueModel::Float(bits) => {
            lemma_tag_held(d, pos, WireType::Fixed64, spec_u64_to_le_bytes(bits));
            lemma_holds_split(d, pos, tag(WireType::Fixed64), spec_u64_to_le_bytes(bits));
            lemma_auto_spec_u64_to_from_le_bytes();
            assert(d.subrange(p1, p1 + 8) == spec_u64_to_le_bytes(bits));
        },
        ValueModel::Str(s) => {
            let bytes = encode_utf8(s);
            let vl = varint_bytes(bytes.len() as u64);
            let body = seq![0x00u8] + (vl + bytes);
            assert(str_item(s) =~= tag(WireType::LenDelimited) + body);
            lemma_tag_held(d, pos, WireType::LenDelimited, body);
            lemma_holds_split(d, pos, tag(WireType::LenDelimited), body);
            lemma_holds_split(d, p1, seq![0x00u8], vl + bytes);
            lemma_holds_split(d, p1 + 1, vl, bytes);
            assert(d[p1] == d.subrange(p1, p1 + 1)[0]);
            lemma_varint_held(d, p1 + 1, bytes.len() as u64);
            vstd::utf8::encode_utf8_valid_utf8(s);
            vstd::utf8::encode_utf8_decode_utf8(s);
            let st1 = at(st, p1);
            assert(dec_value(d, end, lim, zc, st) == dec_len_delimited(d, end, lim, zc, st1));
        },
        ValueModel::Bytes(b) => {
            let vl = varint_bytes(b.len() as u64);
            let body = seq![0x01u8] + (vl + b);
            assert(bytes_item(b) =~= tag(WireType::LenDelimited) + body);
            lemma_tag_held(d, pos, WireType::LenDelimited, body);
            lemma_holds_split(d, pos, tag(WireType::LenDelimited), body);
            lemma_holds_split(d, p1, seq![0x01u8], vl + b);
            lemma_holds_split(d, p1 + 1, vl, b);
            assert(d[p1] == d.subrange(p1, p1 + 1)[0]);
            lemma_varint_held(d, p1 + 1, b.len() as u64);
            let st1 = at(st, p1);
            assert(dec_value(d, end, lim, zc, st) == dec_len_delimited(d, end, lim, zc, st1));
        },
        ValueModel::Array(items) => {
            let hdr = tag(WireType::StartArray) + varint_bytes(items.len() as u64);
            let inner = enc_items(items, depth + 1, lim, false, dict);
            assert(enc.0 == hdr + inner.0 + tag(WireType::EndArray));
            let body = varint_bytes(items.len() as u64) + (inner.0 + tag(WireType::EndArray));
            assert(enc.0 =~= tag(WireType::StartArray) + body);
            lemma_tag_held(d, pos, WireType::StartArray, body);
            lemma_holds_split(d, pos, tag(WireType::StartArray), body);
            lemma_holds_split(d, p1, varint_bytes(items.len() as u64), inner.0 + tag(WireType::EndArray));
            let vlen = varint_bytes(items.len() as u64).len();
            lemma_holds_split(d, p1 + vlen, inner.0, tag(WireType::EndArray));
            lemma_varint_held(d, p1, items.len() as u64);
            lemma_varint_bytes_len(items.len() as u64);
            let p2 = p1 + vlen;
            let st_c = if zc {
                DecState { mem: st.mem + array_charge(items.len() as int), ..at(st, p2) }
            } else {
                at(st, p2)
            };
            let st_in = DecState { depth: st.depth + 1, ..st_c };
            lemma_dec_enc_items(items, depth + 1, lim, dict, d, end, st_in, zc);
            let q = p2 + inner.0.len();
            assert(d[q] == d.subrange(q, q + 1)[0]);
            lemma_enc_items_dict(items, depth + 1, lim, dict);
            assert(items.len() as u64 as int == items.len());
            assert(dec_value(d, end, lim, zc, st) == dec_array(d, end, lim, zc, at(st, p1)));
            assert(dec_array(d, end, lim, zc, at(st, p1)).1.mem == st.mem + value_mem(v, zc));
        },
        ValueModel::Object(entries) => {
            let hdr = tag(WireType::StartObject) + varint_bytes(entries.len() as u64);
            let inner = enc_entries(entries, depth + 1, lim, false, dict);
            assert(enc.0 == hdr + inner.0 + tag(WireType::EndObject));
            let body = varint_bytes(entries.len() as u64) + (inner.0 + tag(WireType::EndObject));
            assert(enc.0 =~= tag(WireType::StartObject) + body);
            lemma_tag_held(d, pos, WireType::StartObject, body);
            lemma_holds_split(d, pos, tag(WireType::StartObject), body);
            lemma_holds_split(d, p1, varint_bytes(entries.len() as u64), inner.0 + tag(WireType::EndObject));
            let vlen = varint_bytes(entries.len() as u64).len();
            lemma_holds_split(d, p1 + vlen, inner.0, tag(WireType::EndObject));
            lemma_varint_held(d, p1, entries.len() as u64);
            lemma_varint_bytes_len(entries.len() as u64);
            let p2 = p1 + vlen;
            let st_c = if zc {
                DecState { mem: st.mem + object_charge(entries.len() as int), ..at(st, p2) }
            } else {
                at(st, p2)
            };
            let st_in = DecState { depth: st.depth + 1, ..st_c };
            lemma_dec_enc_entries(entries, depth + 1, lim, dict, d, end, st_in, zc);
            let q = p2 + inner.0.len();
            assert(d[q] == d.subrange(q, q + 1)[0]);
            lemma_enc_entries_dict(entries, depth + 1, lim, dict);
            assert(entries.len() as u64 as int == entries.len());
            assert(dec_value(d, end, lim, zc, st) == dec_object(d, end, lim, zc, at(st, p1)));
            assert(dec_object(d, end, lim, zc, at(st, p1)).1.mem == st.mem + value_mem(v, zc));
        },
    }
}

proof fn lemma_enc_items_dict(items: Seq<ValueModel>, depth: int, lim: Limits, dict: Seq<Seq<char>>)
    ensures
        enc_items(items, depth, lim, false, dict).1 == dict,
    decreases items,
{
    if items.len() > 0 {
        lemma_enc_value_dict(items[0], depth, lim, dict);
        let first = enc_value(items[0], depth, lim, false, dict);
        if first.3 is None {
            lemma_enc_items_dict(items.subrange(1, items.len() as int), first.2, lim, dict);
        }
    }
}

proof fn lemma_enc_entries_dict(entries: Seq<(Seq<char>, ValueModel)>, depth: int, lim: Limits, dict: Seq<Seq<char>>)
    ensures
        enc_entries(entries, depth, lim, false, dict).1 == dict,
    decreases entries,
{
    if entries.len() > 0 {
        lemma_enc_value_dict(entries[0].1, depth, lim, dict);
        let first = enc_value(entries[0].1, depth, lim, false, dict);
        if first.3 is None {
            lemma_enc_entries_dict(entries.subrange(1, entries.len() as int), first.2, lim, dict);
        }
    }
}

/// Without deduplication, encoding leaves the string dictionary alone.
proof fn lemma_enc_value_dict(v: ValueModel, depth: int, lim: Limits, dict: Seq<Seq<char>>)
    ensures
        enc_value(v, depth, lim, false, dict).1 == dict,
    decreases v,
{
    match v {
        ValueModel::Array(items) => {
            lemma_enc_items_dict(items, depth + 1, lim, dict);
        },
        ValueModel::Object(entries) => {
            lemma_enc_entries_dict(entries, depth + 1, lim, dict);
        },
        _ => {},
    }
}

/// The items of an array the encoder wrote are read back in order.
proof fn lemma_dec_enc_items(
    items: Seq<ValueModel>,
    depth: int,
    lim: Limits,
    dict: Seq<Seq<char>>,
    d: Seq<u8>,
    end: int,
    st: DecState,
    zc: bool,
)
    requires
        enc_items(items, depth, lim, false, dict).3 is None,
        st.depth == depth,
        holds_at(d, st.pos, enc_items(items, depth, lim, false, dict).0),
        st.pos + enc_items(items, depth, lim, false, dict).0.len() <= end <= d.len(),
        d.len() <= usize::MAX,
        items_fit(items, lim.max_string_length),
        0 <= st.mem,
        st.mem + items_mem(items, zc) <= lim.max_memory,
    ensures
        dec_items(d, end, lim, zc, st, items.len() as nat).0 == Ok::<Seq<ValueModel>, SurpError>(items),
        dec_items(d, end, lim, zc, st, items.len() as nat).1.pos == st.pos + enc_items(
            items,
            depth,
            lim,
            false,
            dict,
        ).0.len(),
        dec_items(d, end, lim, zc, st, items.len() as nat).1.depth == st.depth,
        dec_items(d, end, lim, zc, st, items.len() as nat).1.mem == st.mem + items_mem(items, zc),
    decreases items, 0int,
{
    if items.len() > 0 {
        let rest = items.subrange(1, items.len() as int);
        let first = enc_value(items[0], depth, lim, false, dict);
        lemma_enc_value_depth(items[0], depth, lim, false, dict);
        lemma_enc_value_dict(items[0], depth, lim, dict);
        let tail = enc_items(rest, depth, lim, false, dict);
        assert(enc_items(items, depth, lim, false, dict).0 == first.0 + tail.0);
        lemma_holds_split(d, st.pos, first.0, tail.0);
        lemma_dec_enc_value(items[0], depth, lim, dict, d, end, st, zc);
        let st1 = dec_value(d, end, lim, zc, st).1;
        lemma_dec_enc_items(rest, depth, lim, dict, d, end, st1, zc);
        assert(seq![items[0]] + rest =~= items);
        assert(((items.len() as nat) - 1) as nat == rest.len());
        let r1 = dec_items(d, end, lim, zc, st1, rest.len() as nat);
        assert(dec_items(d, end, lim, zc, st, items.len() as nat) == (
            Ok::<Seq<ValueModel>, SurpError>(seq![items[0]] + rest),
            r1.1,
        ));
    } else {
        assert(items =~= Seq::<ValueModel>::empty());
    }
}

/// The entries of an object the encoder wrote are read back in order.
proof fn lemma_dec_enc_entries(
    entries: Seq<(Seq<char>, ValueModel)>,
    depth: int,
    lim: Limits,
    dict: Seq<Seq<char>>,
    d: Seq<u8>,
    end: int,
    st: DecState,
    zc: bool,
)
    requires
        enc_entries(entries, depth, lim, false, dict).3 is None,
        st.depth == depth,
        holds_at(d, st.pos, enc_entries(entries, depth, lim, false, dict).0),
        st.pos + enc_entries(entries, depth, lim, false, dict).0.len() <= end <= d.len(),
        d.len() <= usize::MAX,
        entries_fit(entries, lim.max_string_length),
        0 <= st.mem,
        st.mem + entries_mem(entries, zc) <= lim.max_memory,
    ensures
        dec_entries(d, end, lim, zc, st, entries.len() as nat).0 == Ok::<Seq<(Seq<char>, ValueModel)>, SurpError>(
            entries,
        ),
        dec_entries(d, end, lim, zc, st, entries.len() as nat).1.pos == st.pos + enc_entries(
            entries,
            depth,
            lim,
            false,
            dict,
        ).0.len(),
        dec_entries(d, end, lim, zc, st, entries.len() as nat).1.depth == st.depth,
        dec_entries(d, end, lim, zc, st, entries.len() as nat).1.mem == st.mem + entries_mem(entries, zc),
    decreases entries, 0int,
{
    if entries.len() > 0 {
        let rest = entries.subrange(1, entries.len() as int);
        let key = entries[0].0;
        let first = enc_value(entries[0].1, depth, lim, false, dict);
        lemma_enc_value_depth(entries[0].1, depth, lim, false, dict);
        lemma_enc_value_dict(entries[0].1, depth, lim, dict);
        let tail = enc_entries(rest, depth, lim, false, dict);
        let kb = key_item(key);
        assert(enc_entries(entries, depth, lim, false, dict).0 == kb + first.0 + tail.0);
        lemma_holds_split(d, st.pos, kb + first.0, tail.0);
        lemma_holds_split(d, st.pos, kb, first.0);
        let bytes = encode_utf8(key);
        lemma_holds_split(d, st.pos, varint_bytes(bytes.len() as u64), bytes);
        lemma_varint_held(d, st.pos, bytes.len() as u64);
        vstd::utf8::encode_utf8_valid_utf8(key);
        vstd::utf8::encode_utf8_decode_utf8(key);
        let k = dec_key(d, end, st);
        assert(k.0 == Ok::<Seq<char>, SurpError>(key));
        assert(k.1.pos == st.pos + kb.len());
        lemma_dec_enc_value(entries[0].1, depth, lim, dict, d, end, k.1, zc);
        let st1 = dec_value(d, end, lim, zc, k.1).1;
        lemma_dec_enc_entries(rest, depth, lim, dict, d, end, st1, zc);
        assert(seq![(key, entries[0].1)] + rest =~= entries);
        assert(((entries.len() as nat) - 1) as nat == rest.len());
        let r1 = dec_entries(d, end, lim, zc, st1, rest.len() as nat);
        assert(dec_entries(d, end, lim, zc, st, entries.len() as nat) == (
            Ok::<Seq<(Seq<char>, ValueModel)>, SurpError>(seq![(key, entries[0].1)] + rest),
            r1.1,
        ));
    } else {
        assert(entries =~= Seq::<(Seq<char>, ValueModel)>::empty());
    }
}


/// Whatever the encoder writes without error holds at least one byte.
proof fn lemma_enc_nonempty(v: ValueModel, depth: int, lim: Limits, dict: Seq<Seq<char>>)
    ensures
        enc_value(v, depth, lim, false, dict).3 is None ==> enc_value(v, depth, lim, false, dict).0.len() >= 1,
{
}

/// The values `vs` encoded one after another at nesting depth 0, without
/// string deduplication.
pub open spec fn enc_seq(vs: Seq<ValueModel>, lim: Limits) -> Seq<u8>
    decreases vs.len(),
{
    if vs.len() == 0 {
        Seq::empty()
    } else {
        enc_value(vs[0], 0, lim, false, Seq::empty()).0 + enc_seq(vs.drop_first(), lim)
    }
}

/// The payload bytes of all of `vs`.
pub open spec fn seq_mem(vs: Seq<ValueModel>, zc: bool) -> nat
    decreases vs.len(),
{
    if vs.len() == 0 {
        0
    } else {
        value_mem(vs[0], zc) + seq_mem(vs.drop_first(), zc)
    }
}

/// The encoder accepts each of `vs` at nesting depth 0.
pub open spec fn encodes_all(vs: Seq<ValueModel>, lim: Limits) -> bool {
    forall|i: int| 0 <= i < vs.len() ==> (#[trigger] enc_value(vs[i], 0, lim, false, Seq::empty())).3 is None
}

/// No string or byte string in `vs` is longer than `max` bytes.
pub open spec fn fits_all(vs: Seq<ValueModel>, max: usize) -> bool {
    forall|i: int| 0 <= i < vs.len() ==> #[trigger] value_fits(vs[i], max)
}

/// The state of a fresh encoder with limits `lim`, asked to compress
/// blocks with `ct`, after encoding `vs` without deduplication.
pub open spec fn encoded_state(vs: Seq<ValueModel>, lim: Limits, ct: CompressionType) -> EncoderView {
    EncoderView {
        output: Seq::empty(),
        block_buf: enc_seq(vs, lim),
        depth: 0,
        limits: lim,
        compression: ct,
        dict: Seq::empty(),
        dedup: false,
    }
}

/// The stream `finish` returns after a fresh encoder with limits `lim`,
/// asked to compress blocks with `ct`, encoded `vs`.
pub open spec fn encoded_stream(vs: Seq<ValueModel>, lim: Limits, ct: CompressionType) -> Seq<u8> {
    finished_bytes(encoded_state(vs, lim, ct))
}

/// Decompressing what the block compressor made of `buf` under `ct`
/// gives `buf` back. The wrappers of the compression libraries state this
/// of each result they return; for LZ4 it holds for buffers of at most
/// `u32::MAX` bytes.
pub open spec fn restores(ct: CompressionType, buf: Seq<u8>) -> bool {
    match compressed_of(ct, buf) {
        Some(c) => match ct {
            CompressionType::Zstd => zstd_decode_all_of(c) == Ok::<Seq<u8>, Seq<char>>(buf),
            CompressionType::Snappy => snappy_decompress_of(c) == Ok::<Seq<u8>, Seq<char>>(buf),
            CompressionType::Lz4 => lz4_decompress_size_prepended_of(c) == Ok::<Seq<u8>, Seq<char>>(buf),
            CompressionType::Uncompressed => true,
        },
        None => true,
    }
}

/// Inside a data block (read from the input or decompressed) holding the
/// encodings of `vs` up to its end, with the trailer next in the input,
/// the owned decoder reads `vs` and then stops at the trailer.
proof fn lemma_all_owned_in_block(vs: Seq<ValueModel>, lim: Limits, v: DecoderView)
    requires
        v.current_block matches Some((_, e)) && e == v.block_pos + enc_seq(vs, lim).len(),
        v.limits == lim,
        v.depth == 0,
        0 <= v.mem,
        v.mem + seq_mem(vs, false) <= lim.max_memory,
        encodes_all(vs, lim),
        fits_all(vs, lim.max_string_length),
        holds_at(block_data(v), v.block_pos, enc_seq(vs, lim)),
        block_data(v).len() <= usize::MAX,
        0 <= v.pos < v.data.len(),
        v.data[v.pos] == 0xFFu8,
    ensures
        all_owned(v).0 == Ok::<Seq<ValueModel>, crate::error::ErrorModel>(vs),
        vs.len() > 0 ==> next_owned(v).0 == Ok::<ValueModel, crate::error::ErrorModel>(vs[0]),
        vs.len() > 0 ==> next_owned(v).1.pos == v.pos,
        vs.len() > 0 ==> next_owned(v).1.data == v.data,
        vs.len() > 0 ==> all_owned(next_owned(v).1).0 == Ok::<Seq<ValueModel>, crate::error::ErrorModel>(vs.drop_first()),
        all_owned(v).1.current_block is None,
        all_owned(v).1.pos == v.data.len(),
        all_owned(v).1.data == v.data,
    decreases vs.len(),
{
    let d = block_data(v);
    let e = v.block_pos + enc_seq(vs, lim).len();
    if vs.len() == 0 {
        let v3 = DecoderView { current_block: None, ..v };
        assert(next_owned(v) == next_owned(v3));
        assert(frame_header(v.data, v.pos, lim).0 == Ok::<Option<(BlockType, CompressionType, u64, int, int)>, crate::error::ErrorModel>(None));
        assert(read_block(v3).0 is Ok && read_block(v3).0->Ok_0 is None);
        assert(crate::wire::spec_block_from_byte(0xFFu8) == Some(BlockType::Trailer));
        assert(frame_header(v.data, v.pos, lim).1 == v.data.len());
        assert(read_block(v3).1.pos == v.data.len());
        assert(next_owned(v3).0 is Err && next_owned(v3).0->Err_0 is UnexpectedEof);
        assert(next_owned(v3).1.pos == v.data.len());
        assert(vs =~= Seq::<ValueModel>::empty());
    } else {
        let first = enc_value(vs[0], 0, lim, false, Seq::empty());
        let rest = vs.drop_first();
        assert(enc_seq(vs, lim) == first.0 + enc_seq(rest, lim));
        lemma_holds_split(d, v.block_pos, first.0, enc_seq(rest, lim));
        assert(encodes_all(vs, lim) ==> first.3 is None) by {
            assert(enc_value(vs[0], 0, lim, false, Seq::empty()).3 is None);
        }
        assert(value_fits(vs[0], lim.max_string_length));
        let st = owned_state(v);
        lemma_dec_enc_value(vs[0], 0, lim, Seq::empty(), d, e, st, false);
        let out = dec_value(d, e, lim, false, st);
        let v1 = with_owned_state(v, out.1);
        assert(next_owned(v) == (Ok::<ValueModel, crate::error::ErrorModel>(vs[0]), v1));
        assert(progress(v, v1));
        assert forall|i: int| 0 <= i < rest.len() implies (#[trigger] enc_value(rest[i], 0, lim, false, Seq::empty())).3 is None by {
            assert(rest[i] == vs[i + 1]);
        }
        assert forall|i: int| 0 <= i < rest.len() implies #[trigger] value_fits(rest[i], lim.max_string_length) by {
            assert(rest[i] == vs[i + 1]);
        }
        lemma_all_owned_in_block(rest, lim, v1);
        assert(seq![vs[0]] + rest =~= vs);
    }
}

/// What is written is read back: a fresh decoder reading, with
/// `decode_all_owned`, the stream that a fresh encoder with the same
/// limits, asked to compress blocks with `ct` (or not to compress),
/// wrote for `vs` without deduplication and finished gets exactly `vs`,
/// and reading on after that gets nothing more. This holds provided the encoder accepted each value, no string or byte
/// string exceeds the string length limit, their total size stays within
/// the memory limit, the block (as written, compressed or not) within the
/// block size limit, and the compression library gives back what it
/// compressed.
#[verifier::spinoff_prover]
#[verifier::rlimit(100)]
pub proof fn law_roundtrip_owned(vs: Seq<ValueModel>, lim: Limits, ct: CompressionType, v: DecoderView)
    requires
        encodes_all(vs, lim),
        fits_all(vs, lim.max_string_length),
        seq_mem(vs, false) <= lim.max_memory,
        enc_seq(vs, lim).len() <= lim.max_block_size,
        wire_form(ct, enc_seq(vs, lim), lim).0.len() <= lim.max_block_size,
        restores(ct, enc_seq(vs, lim)),
        encoded_stream(vs, lim, ct).len() <= usize::MAX,
        fresh_decoder(v, encoded_stream(vs, lim, ct), lim),
    ensures
        all_owned(v).0 == Ok::<Seq<ValueModel>, crate::error::ErrorModel>(vs),
        all_owned(all_owned(v).1).0 == Ok::<Seq<ValueModel>, crate::error::ErrorModel>(Seq::empty()),
{
    let b = enc_seq(vs, lim);
    let e = encoded_state(vs, lim, ct);
    let o = encoded_stream(vs, lim, ct);
    let f = crate::encoder::after_flush(e);
    let overall = spec_u64_to_le_bytes(spec_xxh64(f.output));
    let trailer = block_bytes(BlockType::Trailer, CompressionType::Uncompressed, spec_xxh64(overall), overall);
    assert(o == f.output + trailer);
    if vs.len() == 0 {
        assert(b =~= Seq::<u8>::empty());
        assert(f.output =~= Seq::<u8>::empty());
        assert(o[0] == 0xFFu8);
        assert(next_owned(v).0 is Err && next_owned(v).0->Err_0 is UnexpectedEof);
        assert(vs =~= Seq::<ValueModel>::empty());
        law_ended_stream(all_owned(v).1);
    } else {
        lemma_enc_nonempty(vs[0], 0, lim, Seq::empty());
        assert(enc_value(vs[0], 0, lim, false, Seq::empty()).3 is None);
        assert(b.len() >= 1);
        let ck = spec_xxh64(b);
        let w = wire_form(ct, b, lim).0;
        let wc = wire_form(ct, b, lim).1;
        let cc = compression_code(wc);
        let vl = varint_bytes(w.len() as u64);
        lemma_varint_bytes_len(w.len() as u64);
        let data_block = block_bytes(BlockType::Data, wc, ck, w);
        assert(f.output =~= data_block);
        let p2: int = 1 + vl.len() as int;
        let p4: int = p2 + 9;
        let pend: int = p4 + w.len();
        lemma_auto_spec_u64_to_from_le_bytes();
        assert(o =~= seq![0x01u8] + (vl + (seq![cc] + (spec_u64_to_le_bytes(ck) + (w + trailer)))));
        assert(o.subrange(0, o.len() as int) =~= o);
        lemma_holds_split(o, 0, seq![0x01u8], vl + (seq![cc] + (spec_u64_to_le_bytes(ck) + (w + trailer))));
        lemma_holds_split(o, 1, vl, seq![cc] + (spec_u64_to_le_bytes(ck) + (w + trailer)));
        lemma_holds_split(o, p2, seq![cc], spec_u64_to_le_bytes(ck) + (w + trailer));
        lemma_holds_split(o, p2 + 1, spec_u64_to_le_bytes(ck), w + trailer);
        lemma_holds_split(o, p4, w, trailer);
        lemma_varint_held(o, 1, w.len() as u64);
        assert(o[0] == 0x01u8);
        assert(o[p2] == o.subrange(p2, p2 + 1)[0]);
        assert(o[pend] == trailer[0]);
        assert(o.subrange(p2 + 1, p4) == spec_u64_to_le_bytes(ck));
        assert(spec_compression_from_byte(cc) == Some(wc));
        assert(frame_header(o, 0, lim) == (
            Ok::<Option<(BlockType, CompressionType, u64, int, int)>, crate::error::ErrorModel>(
                Some((BlockType::Data, wc, ck, p4, pend)),
            ),
            pend,
        ));
        assert(o.subrange(p4, pend) == w);
        if wc == CompressionType::Uncompressed {
            assert(w == b);
            let v1 = DecoderView { pos: pend, decompressed: None, ..v };
            assert(read_block(v) == (
                Ok::<Option<(BlockType, int, int)>, crate::error::ErrorModel>(Some((BlockType::Data, p4, pend))),
                v1,
            ));
            let v2 = DecoderView {
                current_block: Some((p4 as usize, pend as usize)),
                block_pos: p4,
                str_table: Seq::empty(),
                owned_table: Seq::empty(),
                dict_preloaded: false,
                ..v1
            };
            assert(next_owned(v) == next_owned(v2));
            lemma_all_owned_in_block(vs, lim, v2);
            assert(progress(v, next_owned(v2).1));
            assert(all_owned(v).1 == all_owned(v2).1);
            law_ended_stream(all_owned(v).1);
        } else {
            let c = compressed_of(ct, b)->Some_0;
            assert(compressed_of(ct, b) is Some && worth_compressing(c, b, lim) && wc == ct);
            let vb = varint_bytes(b.len() as u64);
            assert(w == vb + c);
            assert(w.subrange(0, w.len() as int) =~= w);
            lemma_holds_split(w, 0, vb, c);
            lemma_varint_held(w, 0, b.len() as u64);
            assert(w.subrange(vb.len() as int, w.len() as int) =~= c);
            assert(decompress_payload(wc, w, lim) == Ok::<Seq<u8>, crate::error::ErrorModel>(b));
            let v1 = DecoderView { decompressed: Some(b), ..DecoderView { pos: pend, ..v } };
            assert(read_block(v) == (
                Ok::<Option<(BlockType, int, int)>, crate::error::ErrorModel>(Some((BlockType::Data, 0, b.len() as int))),
                v1,
            ));
            let v2 = DecoderView {
                current_block: Some((0usize, b.len() as usize)),
                block_pos: 0,
                str_table: Seq::empty(),
                owned_table: Seq::empty(),
                dict_preloaded: false,
                ..v1
            };
            assert(next_owned(v) == next_owned(v2));
            assert(b.subrange(0, b.len() as int) =~= b);
            lemma_all_owned_in_block(vs, lim, v2);
            assert(progress(v, next_owned(v2).1));
            assert(all_owned(v).1 == all_owned(v2).1);
            law_ended_stream(all_owned(v).1);
        }
    }
}

/// Inside an uncompressed data block holding the encodings of `vs` up to
/// its end, with the trailer next in the input, the zero-copy decoder
/// reads `vs` and then stops at the trailer.
proof fn lemma_all_zc_in_block(vs: Seq<ValueModel>, lim: Limits, v: DecoderView)
    requires
        v.current_block matches Some((_, e)) && e == v.block_pos + enc_seq(vs, lim).len(),
        v.decompressed is None,
        v.limits == lim,
        v.depth == 0,
        0 <= v.mem,
        v.mem + seq_mem(vs, true) <= lim.max_memory,
        encodes_all(vs, lim),
        fits_all(vs, lim.max_string_length),
        holds_at(v.data, v.block_pos, enc_seq(vs, lim)),
        v.data.len() <= usize::MAX,
        0 <= v.pos < v.data.len(),
        v.data[v.pos] == 0xFFu8,
    ensures
        all_zc(v).0 == Ok::<Seq<ValueModel>, crate::error::ErrorModel>(vs),
        vs.len() > 0 ==> next_zc(v).0 == Ok::<ValueModel, crate::error::ErrorModel>(vs[0]),
        vs.len() > 0 ==> next_zc(v).1.pos == v.pos,
        vs.len() > 0 ==> next_zc(v).1.data == v.data,
        vs.len() > 0 ==> all_zc(next_zc(v).1).0 == Ok::<Seq<ValueModel>, crate::error::ErrorModel>(vs.drop_first()),
        all_zc(v).1.current_block is None,
        all_zc(v).1.pos == v.data.len(),
        all_zc(v).1.data == v.data,
    decreases vs.len(),
{
    let d = v.data;
    let e = v.block_pos + enc_seq(vs, lim).len();
    if vs.len() == 0 {
        let v3 = DecoderView { current_block: None, ..v };
        assert(next_zc(v) == next_zc(v3));
        assert(frame_header(v.data, v.pos, lim).0 == Ok::<Option<(BlockType, CompressionType, u64, int, int)>, crate::error::ErrorModel>(None));
        assert(read_block(v3).0 is Ok && read_block(v3).0->Ok_0 is None);
        assert(crate::wire::spec_block_from_byte(0xFFu8) == Some(BlockType::Trailer));
        assert(frame_header(v.data, v.pos, lim).1 == v.data.len());
        assert(read_block(v3).1.pos == v.data.len());
        assert(next_zc(v3).0 is Err && next_zc(v3).0->Err_0 is UnexpectedEof);
        assert(next_zc(v3).1.pos == v.data.len());
        assert(vs =~= Seq::<ValueModel>::empty());
    } else {
        let first = enc_value(vs[0], 0, lim, false, Seq::empty());
        let rest = vs.drop_first();
        assert(enc_seq(vs, lim) == first.0 + enc_seq(rest, lim));
        lemma_holds_split(d, v.block_pos, first.0, enc_seq(rest, lim));
        assert(encodes_all(vs, lim) ==> first.3 is None) by {
            assert(enc_value(vs[0], 0, lim, false, Seq::empty()).3 is None);
        }
        assert(value_fits(vs[0], lim.max_string_length));
        let st = zc_state(v);
        lemma_dec_enc_value(vs[0], 0, lim, Seq::empty(), d, e, st, true);
        let out = dec_value(d, e, lim, true, st);
        let v1 = with_zc_state(v, out.1);
        assert(next_zc(v) == (Ok::<ValueModel, crate::error::ErrorModel>(vs[0]), v1));
        assert(progress(v, v1));
        assert forall|i: int| 0 <= i < rest.len() implies (#[trigger] enc_value(rest[i], 0, lim, false, Seq::empty())).3 is None by {
            assert(rest[i] == vs[i + 1]);
        }
        assert forall|i: int| 0 <= i < rest.len() implies #[trigger] value_fits(rest[i], lim.max_string_length) by {
            assert(rest[i] == vs[i + 1]);
        }
        lemma_all_zc_in_block(rest, lim, v1);
        assert(seq![vs[0]] + rest =~= vs);
    }
}

/// What is written is read back by the zero-copy decoder too: a fresh
/// decoder reading, with `decode_all`, the stream that a fresh encoder
/// with the same limits wrote for `vs` without deduplication or
/// compression and finished gets exactly `vs`, and reading on after that
/// gets nothing more; under the premises of `law_roundtrip_owned`, with
/// the memory counted as the zero-copy decoder charges it (the element
/// storage of arrays and objects included).
#[verifier::spinoff_prover]
#[verifier::rlimit(100)]
pub proof fn law_roundtrip_zero_copy(vs: Seq<ValueModel>, lim: Limits, v: DecoderView)
    requires
        encodes_all(vs, lim),
        fits_all(vs, lim.max_string_length),
        seq_mem(vs, true) <= lim.max_memory,
        enc_seq(vs, lim).len() <= lim.max_block_size,
        encoded_stream(vs, lim, CompressionType::Uncompressed).len() <= usize::MAX,
        fresh_decoder(v, encoded_stream(vs, lim, CompressionType::Uncompressed), lim),
    ensures
        all_zc(v).0 == Ok::<Seq<ValueModel>, crate::error::ErrorModel>(vs),
        all_zc(all_zc(v).1).0 == Ok::<Seq<ValueModel>, crate::error::ErrorModel>(Seq::empty()),
{
    let ct = CompressionType::Uncompressed;
    let b = enc_seq(vs, lim);
    let e = encoded_state(vs, lim, ct);
    let o = encoded_stream(vs, lim, ct);
    let f = crate::encoder::after_flush(e);
    let overall = spec_u64_to_le_bytes(spec_xxh64(f.output));
    let trailer = block_bytes(BlockType::Trailer, CompressionType::Uncompressed, spec_xxh64(overall), overall);
    assert(o == f.output + trailer);
    if vs.len() == 0 {
        assert(b =~= Seq::<u8>::empty());
        assert(f.output =~= Seq::<u8>::empty());
        assert(o[0] == 0xFFu8);
        assert(next_zc(v).0 is Err && next_zc(v).0->Err_0 is UnexpectedEof);
        assert(vs =~= Seq::<ValueModel>::empty());
        law_ended_stream(all_zc(v).1);
    } else {
        lemma_enc_nonempty(vs[0], 0, lim, Seq::empty());
        assert(enc_value(vs[0], 0, lim, false, Seq::empty()).3 is None);
        assert(b.len() >= 1);
        let ck = spec_xxh64(b);
        assert(wire_form(ct, b, lim) == (b, ct));
        let vl = varint_bytes(b.len() as u64);
        lemma_varint_bytes_len(b.len() as u64);
        let data_block = block_bytes(BlockType::Data, ct, ck, b);
        assert(f.output =~= data_block);
        let p2: int = 1 + vl.len() as int;
        let p4: int = p2 + 9;
        let pend: int = p4 + b.len();
        lemma_auto_spec_u64_to_from_le_bytes();
        assert(o =~= seq![0x01u8] + (vl + (seq![0x00u8] + (spec_u64_to_le_bytes(ck) + (b + trailer)))));
        assert(o.subrange(0, o.len() as int) =~= o);
        lemma_holds_split(o, 0, seq![0x01u8], vl + (seq![0x00u8] + (spec_u64_to_le_bytes(ck) + (b + trailer))));
        lemma_holds_split(o, 1, vl, seq![0x00u8] + (spec_u64_to_le_bytes(ck) + (b + trailer)));
        lemma_holds_split(o, p2, seq![0x00u8], spec_u64_to_le_bytes(ck) + (b + trailer));
        lemma_holds_split(o, p2 + 1, spec_u64_to_le_bytes(ck), b + trailer);
        lemma_holds_split(o, p4, b, trailer);
        lemma_varint_held(o, 1, b.len() as u64);
        assert(o[0] == 0x01u8);
        assert(o[p2] == o.subrange(p2, p2 + 1)[0]);
        assert(o[pend] == trailer[0]);
        assert(o.subrange(p2 + 1, p4) == spec_u64_to_le_bytes(ck));
        assert(frame_header(o, 0, lim) == (
            Ok::<Option<(BlockType, CompressionType, u64, int, int)>, crate::error::ErrorModel>(
                Some((BlockType::Data, CompressionType::Uncompressed, ck, p4, pend)),
            ),
            pend,
        ));
        let v1 = DecoderView { pos: pend, decompressed: None, ..v };
        assert(read_block(v) == (
            Ok::<Option<(BlockType, int, int)>, crate::error::ErrorModel>(Some((BlockType::Data, p4, pend))),
            v1,
        ));
        let v2 = DecoderView {
            current_block: Some((p4 as usize, pend as usize)),
            block_pos: p4,
            str_table: Seq::empty(),
            dict_preloaded: false,
            ..v1
        };
        assert(next_zc(v) == next_zc(v2));
        lemma_all_zc_in_block(vs, lim, v2);
        assert(progress(v, next_zc(v2).1));
        assert(all_zc(v).1 == all_zc(v2).1);
        law_ended_stream(all_zc(v).1);
    }
}


/// No record of `bs` reports a checksum mismatch.
pub open spec fn no_bad_checksum(bs: Seq<crate::block::BlockRecord>) -> bool {
    forall|i: int| 0 <= i < bs.len() ==> #[trigger] bs[i].payload_checksum_valid != Some(false)
}

/// Walking past a framed block: `inspect` records it and goes on after it.
proof fn lemma_inspect_past_block(
    before: Seq<u8>,
    bt: BlockType,
    comp: CompressionType,
    ck: u64,
    payload: Seq<u8>,
    after: Seq<u8>,
    idx: int,
    acc: Seq<crate::block::BlockRecord>,
    tr: Option<crate::block::TrailerRecord>,
)
    requires
        payload.len() <= usize::MAX,
    ensures
        ({
            let blk = block_bytes(bt, comp, ck, payload);
            let d = before + blk + after;
            let off = before.len() as int;
            let p = off + 1 + varint_bytes(payload.len() as u64).len() + 9;
            &&& p + payload.len() == off + blk.len()
            &&& crate::block::spec_inspect_from(d, off, idx, acc, tr) == crate::block::spec_inspect_from(
                d,
                off + blk.len(),
                idx + 1,
                acc.push(crate::block::block_record(d, off, idx, bt, comp, ck, p, p + payload.len())),
                if bt == BlockType::Trailer {
                    Some(crate::block::trailer_record(d, off, ck, p, p + payload.len()))
                } else {
                    tr
                },
            )
            &&& d.subrange(p, p + payload.len()) == payload
        }),
{
    crate::block::lemma_parse_finished_block(bt, comp, ck, payload, before, after);
    lemma_auto_spec_u64_to_from_le_bytes();
    let blk = block_bytes(bt, comp, ck, payload);
    let d = before + blk + after;
    assert(d.len() > before.len());
}

proof fn lemma_no_bad_push(acc: Seq<crate::block::BlockRecord>, r: crate::block::BlockRecord)
    requires
        no_bad_checksum(acc),
        r.payload_checksum_valid != Some(false),
    ensures
        no_bad_checksum(acc.push(r)),
{
    assert forall|i: int| 0 <= i < acc.push(r).len() implies #[trigger] acc.push(r)[i].payload_checksum_valid != Some(false) by {
        if i < acc.len() {
            assert(acc.push(r)[i] == acc[i]);
        }
    }
}

/// The trailer block `finish` appends after `out` walks cleanly and
/// checks out.
#[verifier::spinoff_prover]
proof fn lemma_trailer_walk(out: Seq<u8>, k: int, acc: Seq<crate::block::BlockRecord>, tr: Option<crate::block::TrailerRecord>)
    requires
        no_bad_checksum(acc),
    ensures
        ({
            let overall = spec_u64_to_le_bytes(spec_xxh64(out));
            let d = out + block_bytes(BlockType::Trailer, CompressionType::Uncompressed, spec_xxh64(overall), overall);
            &&& crate::block::spec_inspect_from(d, out.len() as int, k, acc, tr) is Ok
            &&& no_bad_checksum(crate::block::spec_inspect_from(d, out.len() as int, k, acc, tr)->Ok_0.0)
            &&& crate::block::spec_inspect_from(d, out.len() as int, k, acc, tr)->Ok_0.1 matches Some(t)
                && t.payload_checksum_valid && t.file_checksum_valid
        }),
{
    lemma_auto_spec_u64_to_from_le_bytes();
    let overall = spec_u64_to_le_bytes(spec_xxh64(out));
    let ck = spec_xxh64(overall);
    let tblk = block_bytes(BlockType::Trailer, CompressionType::Uncompressed, ck, overall);
    let d = out + tblk;
    lemma_inspect_past_block(out, BlockType::Trailer, CompressionType::Uncompressed, ck, overall, Seq::empty(), k, acc, tr);
    assert(out + tblk + Seq::<u8>::empty() =~= d);
    let off = out.len() as int;
    let p = off + 1 + varint_bytes(8u64).len() + 9;
    let r = crate::block::block_record(d, off, k, BlockType::Trailer, CompressionType::Uncompressed, ck, p, p + 8);
    lemma_no_bad_push(acc, r);
    assert(d.subrange(0, off) =~= out);
    let t = crate::block::trailer_record(d, off, ck, p, p + 8);
    assert(t.payload_checksum_valid);
    assert(t.file_checksum_valid);
    assert(crate::block::spec_inspect_from(d, off + tblk.len(), k + 1, acc.push(r), Some(t)) == Ok::<
        (Seq<crate::block::BlockRecord>, Option<crate::block::TrailerRecord>),
        (int, int, SurpError),
    >((acc.push(r), Some(t))));
}

/// The data block a flush writes walks cleanly: uncompressed, its
/// checksum matches; compressed, it has no verdict.
#[verifier::spinoff_prover]
proof fn lemma_data_walk(e: EncoderView, before: Seq<u8>, after: Seq<u8>, k: int, acc: Seq<crate::block::BlockRecord>)
    requires
        no_bad_checksum(acc),
        wire_form(e.compression, e.block_buf, e.limits).0.len() <= usize::MAX,
    ensures
        ({
            let (w, wc) = wire_form(e.compression, e.block_buf, e.limits);
            let dblk = block_bytes(BlockType::Data, wc, spec_xxh64(e.block_buf), w);
            let d = before + dblk + after;
            exists|acc2: Seq<crate::block::BlockRecord>|
                no_bad_checksum(acc2) && crate::block::spec_inspect_from(d, before.len() as int, k, acc, None)
                    == crate::block::spec_inspect_from(d, (before.len() + dblk.len()) as int, k + 1, acc2, None)
        }),
{
    let (w, wc) = wire_form(e.compression, e.block_buf, e.limits);
    let ck = spec_xxh64(e.block_buf);
    let dblk = block_bytes(BlockType::Data, wc, ck, w);
    let d = before + dblk + after;
    lemma_inspect_past_block(before, BlockType::Data, wc, ck, w, after, k, acc, None);
    let off = before.len() as int;
    let p = off + 1 + varint_bytes(w.len() as u64).len() + 9;
    let r = crate::block::block_record(d, off, k, BlockType::Data, wc, ck, p, p + w.len());
    assert(wc == CompressionType::Uncompressed ==> w == e.block_buf);
    lemma_no_bad_push(acc, r);
}

/// A file the encoder writes passes inspection: from any encoder state
/// with nothing written yet (values buffered, with or without string
/// deduplication, and any compression), the bytes `finish` returns walk
/// without error, no block is reported with a checksum mismatch (a
/// compressed data block has no verdict; the dictionary, an uncompressed
/// data block and the trailer check out), and the trailer's whole-file
/// checksum is valid.
#[verifier::spinoff_prover]
pub proof fn law_encoder_output_inspects_clean(e: EncoderView)
    requires
        e.output == Seq::<u8>::empty(),
        finished_bytes(e).len() <= usize::MAX,
    ensures
        crate::block::spec_inspect_from(finished_bytes(e), 0, 0, Seq::empty(), None) is Ok,
        no_bad_checksum(crate::block::spec_inspect_from(finished_bytes(e), 0, 0, Seq::empty(), None)->Ok_0.0),
        crate::block::spec_inspect_from(finished_bytes(e), 0, 0, Seq::empty(), None)->Ok_0.1 matches Some(t)
            && t.payload_checksum_valid && t.file_checksum_valid,
{
    let d = finished_bytes(e);
    let out = crate::encoder::after_flush(e).output;
    let overall = spec_u64_to_le_bytes(spec_xxh64(out));
    let tblk = block_bytes(BlockType::Trailer, CompressionType::Uncompressed, spec_xxh64(overall), overall);
    assert(d == out + tblk);
    let e0: Seq<crate::block::BlockRecord> = Seq::empty();
    assert(no_bad_checksum(e0));
    if e.block_buf.len() == 0 {
        assert(out =~= Seq::<u8>::empty());
        lemma_trailer_walk(out, 0, e0, None);
    } else {
        let (w, wc) = wire_form(e.compression, e.block_buf, e.limits);
        let dblk = block_bytes(BlockType::Data, wc, spec_xxh64(e.block_buf), w);
        let dict_part = if crate::encoder::emits_dict(e) {
            let p = crate::dict::dict_payload(e.dict);
            block_bytes(BlockType::StringDict, CompressionType::Uncompressed, spec_xxh64(p), p)
        } else {
            Seq::<u8>::empty()
        };
        assert(out =~= dict_part + dblk);
        assert(d =~= dict_part + dblk + tblk);
        assert(w.len() <= dblk.len());
        if crate::encoder::emits_dict(e) {
            let p = crate::dict::dict_payload(e.dict);
            assert(p.len() <= dict_part.len());
            lemma_inspect_past_block(Seq::empty(), BlockType::StringDict, CompressionType::Uncompressed, spec_xxh64(p), p, dblk + tblk, 0, e0, None);
            assert(Seq::<u8>::empty() + dict_part + (dblk + tblk) =~= d);
            let pp = (1 + varint_bytes(p.len() as u64).len() + 9) as int;
            let r1 = crate::block::block_record(d, 0, 0, BlockType::StringDict, CompressionType::Uncompressed, spec_xxh64(p), pp, pp + p.len());
            lemma_no_bad_push(e0, r1);
            let acc1 = e0.push(r1);
            lemma_data_walk(e, dict_part, tblk, 1, acc1);
            let acc2 = choose|acc2: Seq<crate::block::BlockRecord>|
                no_bad_checksum(acc2) && crate::block::spec_inspect_from(d, dict_part.len() as int, 1, acc1, None)
                    == crate::block::spec_inspect_from(d, (dict_part.len() + dblk.len()) as int, 2, acc2, None);
            lemma_trailer_walk(out, 2, acc2, None);
        } else {
            assert(Seq::<u8>::empty() + dblk + tblk =~= d);
            lemma_data_walk(e, Seq::empty(), tblk, 0, e0);
            let acc2 = choose|acc2: Seq<crate::block::BlockRecord>|
                no_bad_checksum(acc2) && crate::block::spec_inspect_from(d, 0, 0, e0, None)
                    == crate::block::spec_inspect_from(d, dblk.len() as int, 1, acc2, None);
            lemma_trailer_walk(out, 1, acc2, None);
        }
    }
}

} // verus!

//! String dictionary blocks.
//!
//! A dictionary payload is `entry_count(varint)` followed by that many
//! entries, each `original_index(varint) | prefix_len(varint) |
//! suffix_len(varint) | suffix bytes`. An entry's string is the first
//! `prefix_len` bytes of the previous entry's string (cut back to a
//! character boundary) followed by the suffix. `original_index` gives the
//! position of the string in the block's reference table.

use crate::error::{ErrorModel, SurpError};
use crate::limits::Limits;
use crate::render::{decimal, push_decimal, push_text};
use crate::varint::{decode_varint, encode_varint_vec, spec_decode_varint, varint_bytes};
use vstd::prelude::*;
use vstd::string::{StringExecFns, StringSliceAdditionalSpecFns};
use vstd::utf8::{
    decode_utf8, encode_utf8, is_char_boundary, is_char_boundary_iff_not_is_continuation_byte,
    is_continuation_byte, length_of_first_scalar, pop_first_scalar, valid_utf8,
};

verus! {

/// Scanning down from `i` to `lo` for a byte that is not a UTF-8
/// continuation byte; `lo` when there is none.
pub open spec fn floor_from(b: Seq<u8>, i: int, lo: int) -> int
    decreases i - lo,
{
    if 0 <= i < b.len() && !is_continuation_byte(b[i]) {
        i
    } else if i <= lo {
        lo
    } else {
        floor_from(b, i - 1, lo)
    }
}

/// The largest character boundary at or below `index` in the UTF-8 bytes
/// `b`, looking at most three bytes back; `b.len()` for an index at or
/// past the end.
pub open spec fn floor_boundary(b: Seq<u8>, index: int) -> int {
    if index >= b.len() {
        b.len() as int
    } else {
        floor_from(b, index, if index >= 3 { index - 3 } else { 0 })
    }
}

/// A character boundary lies at most three bytes before any position of a
/// valid UTF-8 byte string.
proof fn lemma_boundary_near(b: Seq<u8>, index: int) -> (j: int)
    requires
        valid_utf8(b),
        0 <= index < b.len(),
    ensures
        index - 3 <= j <= index,
        0 <= j,
        is_char_boundary(b, j),
    decreases b.len(),
{
    let l = length_of_first_scalar(b);
    if index < l {
        0
    } else {
        let rest = pop_first_scalar(b);
        let j1 = lemma_boundary_near(rest, index - l);
        assert(is_char_boundary(b, j1 + l));
        j1 + l
    }
}

proof fn lemma_floor_from_boundary(b: Seq<u8>, i: int, lo: int, j: int)
    requires
        valid_utf8(b),
        0 <= lo <= j <= i < b.len(),
        is_char_boundary(b, j),
    ensures
        is_char_boundary(b, floor_from(b, i, lo)),
        floor_from(b, i, lo) <= i,
    decreases i - lo,
{
    is_char_boundary_iff_not_is_continuation_byte(b, i);
    is_char_boundary_iff_not_is_continuation_byte(b, j);
    if !is_continuation_byte(b[i]) {
    } else {
        lemma_floor_from_boundary(b, i - 1, lo, j);
    }
}

/// `floor_boundary` finds a character boundary at or below the index.
pub proof fn lemma_floor_boundary(b: Seq<u8>, index: int)
    requires
        valid_utf8(b),
        0 <= index,
    ensures
        is_char_boundary(b, floor_boundary(b, index)),
        floor_boundary(b, index) <= b.len(),
        index <= b.len() ==> floor_boundary(b, index) <= index,
{
    vstd::utf8::is_char_boundary_start_end_of_seq(b);
    if index < b.len() {
        let j = lemma_boundary_near(b, index);
        lemma_floor_from_boundary(b, index, if index >= 3 { index - 3 } else { 0 }, j);
    }
}

/// The largest character boundary of `s` at or below `index`.
fn floor_char_boundary(s: &str, index: usize) -> (r: usize)
    ensures
        r == floor_boundary(s.spec_bytes(), index as int),
{
    let bytes = s.as_bytes();
    if index >= bytes.len() {
        return bytes.len();
    }
    let lower_bound = index.saturating_sub(3);
    let mut i = index;
    while i > lower_bound
        invariant
            lower_bound <= i <= index < bytes@.len(),
            bytes@ == s.spec_bytes(),
            lower_bound == (if index >= 3 { index - 3 } else { 0 }),
            floor_from(bytes@, i as int, lower_bound as int) == floor_from(
                bytes@,
                index as int,
                lower_bound as int,
            ),
        decreases i,
    {
        if bytes[i] < 0x80 || bytes[i] >= 0xC0 {
            return i;
        }
        i = i - 1;
    }
    if bytes[i] < 0x80 || bytes[i] >= 0xC0 {
        i
    } else {
        lower_bound
    }
}

/// The text of the error for an entry whose index is not below the count.
pub open spec fn bad_index_message(idx: nat, count: nat) -> Seq<char> {
    "StringDict entry has original_idx "@ + decimal(idx) + " >= count "@ + decimal(count)
}

/// Reading one dictionary entry at `pos`, the previous entry's string
/// being `prev`: its table index, its string and the position after it.
pub open spec fn dict_entry(p: Seq<u8>, pos: int, count: int, prev: Seq<char>) -> Result<(int, Seq<char>, int), ErrorModel> {
    match spec_decode_varint(p, pos) {
        Err(e) => Err(e@),
        Ok((idx64, c1)) => {
            let p1 = pos + c1;
            if idx64 > usize::MAX {
                Err(ErrorModel::LengthOverflow(idx64))
            } else if idx64 >= count {
                Err(ErrorModel::InvalidData(bad_index_message(idx64 as nat, count as nat)))
            } else {
                match spec_decode_varint(p, p1) {
                    Err(e) => Err(e@),
                    Ok((pre64, c2)) => {
                        let p2 = p1 + c2;
                        if pre64 > usize::MAX {
                            Err(ErrorModel::LengthOverflow(pre64))
                        } else {
                            match spec_decode_varint(p, p2) {
                                Err(e) => Err(e@),
                                Ok((suf64, c3)) => {
                                    let p3 = p2 + c3;
                                    if suf64 > usize::MAX {
                                        Err(ErrorModel::LengthOverflow(suf64))
                                    } else if p3 + suf64 > p.len() {
                                        Err(ErrorModel::UnexpectedEof(p3 as usize))
                                    } else {
                                        let suffix = p.subrange(p3, p3 + suf64);
                                        let p4 = p3 + suf64;
                                        let pb = encode_utf8(prev);
                                        let pe = floor_boundary(
                                            pb,
                                            if pre64 < pb.len() { pre64 as int } else { pb.len() as int },
                                        );
                                        if !valid_utf8(suffix) {
                                            Err(ErrorModel::InvalidUtf8(p4 as usize))
                                        } else {
                                            Ok((idx64 as int, decode_utf8(pb.subrange(0, pe)) + decode_utf8(suffix), p4))
                                        }
                                    }
                                }
                            }
                        }
                    },
                }
            }
        },
    }
}

/// Reading `k` more entries from `pos`, the previous string being `prev`.
pub open spec fn dict_entries(p: Seq<u8>, pos: int, count: int, k: nat, prev: Seq<char>) -> Result<
    Seq<(int, Seq<char>)>,
    ErrorModel,
>
    decreases k,
{
    if k == 0 {
        Ok(Seq::empty())
    } else {
        match dict_entry(p, pos, count, prev) {
            Err(e) => Err(e),
            Ok((idx, s, np)) => match dict_entries(p, np, count, (k - 1) as nat, s) {
                Err(e) => Err(e),
                Ok(rest) => Ok(seq![(idx, s)] + rest),
            },
        }
    }
}

/// The entries `pre` already read, followed by the outcome `r` of reading the rest.
pub open spec fn glue_dict(pre: Seq<(int, Seq<char>)>, r: Result<Seq<(int, Seq<char>)>, ErrorModel>) -> Result<
    Seq<(int, Seq<char>)>,
    ErrorModel,
> {
    match r {
        Ok(rest) => Ok(pre + rest),
        Err(e) => Err(e),
    }
}

/// The largest table index among `es`, 0 when there is none.
pub open spec fn max_index(es: Seq<(int, Seq<char>)>) -> int
    decreases es.len(),
{
    if es.len() == 0 {
        0
    } else {
        let m = max_index(es.drop_last());
        if es.last().0 > m {
            es.last().0
        } else {
            m
        }
    }
}

/// `t` with each entry of `es` stored at its index, in order.
pub open spec fn place_entries(t: Seq<Seq<char>>, es: Seq<(int, Seq<char>)>) -> Seq<Seq<char>>
    decreases es.len(),
{
    if es.len() == 0 {
        t
    } else {
        place_entries(t, es.drop_last()).update(es.last().0, es.last().1)
    }
}

/// The reference table made of the entries `es`: one slot per index up
/// to the largest one present, empty where no entry is.
pub open spec fn dict_table(es: Seq<(int, Seq<char>)>) -> Seq<Seq<char>> {
    place_entries(Seq::new((max_index(es) + 1) as nat, |i: int| Seq::<char>::empty()), es)
}

/// The reference table a string dictionary payload stands for: one slot
/// per index up to the largest one present, empty where no entry is.
pub open spec fn string_dict(p: Seq<u8>, lim: Limits) -> Result<Seq<Seq<char>>, ErrorModel> {
    match spec_decode_varint(p, 0) {
        Err(e) => Err(e@),
        Ok((c64, n)) => {
            if c64 > usize::MAX {
                Err(ErrorModel::LengthOverflow(c64))
            } else if c64 > lim.max_items {
                Err(ErrorModel::TooManyItems(c64 as usize, lim.max_items))
            } else {
                match dict_entries(p, n as int, c64 as int, c64 as nat, Seq::empty()) {
                    Err(e) => Err(e),
                    Ok(es) => Ok(dict_table(es)),
                }
            }
        },
    }
}


/// Convert u64 to usize, refusing values that do not fit.
pub(crate) fn safe_usize(val: u64) -> (r: Result<usize, SurpError>)
    ensures
        val <= usize::MAX ==> r == Ok::<usize, SurpError>(val as usize),
        val > usize::MAX ==> r == Err::<usize, SurpError>(SurpError::LengthOverflow(val)),
{
    if val <= usize::MAX as u64 {
        Ok(val as usize)
    } else {
        Err(SurpError::LengthOverflow(val))
    }
}

/// Calls `std::str::from_utf8`, which, as its documentation says, returns
/// the string slice made of exactly the given bytes when they are valid
/// UTF-8, and an error otherwise.
#[verifier::external_body]
fn str_from_utf8<'b>(bytes: &'b [u8]) -> (r: Option<&'b str>)
    ensures
        (r is Some) == valid_utf8(bytes@),
        r matches Some(s) ==> s.spec_bytes() == bytes@,
{
    std::str::from_utf8(bytes).ok()
}

/// A valid UTF-8 byte string decoded to a `&str`: its characters are the
/// UTF-8 decoding of the bytes.
pub(crate) fn utf8_str<'b>(bytes: &'b [u8]) -> (r: Option<&'b str>)
    ensures
        (r is Some) == valid_utf8(bytes@),
        r matches Some(s) ==> s@ == decode_utf8(bytes@),
{
    let r = str_from_utf8(bytes);
    proof {
        if let Some(s) = r {
            vstd::utf8::encode_utf8_decode_utf8(s@);
        }
    }
    r
}

/// Read one dictionary entry at `pos`; `prev` is the previous entry's string.
fn decode_dict_entry(p: &[u8], pos: usize, count: usize, prev: &String) -> (r: Result<(usize, String, usize), SurpError>)
    requires
        pos <= p@.len(),
    ensures
        match dict_entry(p@, pos as int, count as int, prev@) {
            Err(e) => r matches Err(e2) && e2@ == e,
            Ok((idx, s, np)) => r matches Ok((i2, s2, np2)) && i2 == idx && s2@ == s && np2 == np,
        },
        r matches Ok((i, _, np)) ==> pos < np <= p@.len() && i < count,
{
    let (idx64, c1) = match decode_varint(p, pos) {
        Ok(x) => x,
        Err(e) => {
            return Err(e);
        },
    };
    let p1 = pos + c1;
    let idx = match safe_usize(idx64) {
        Ok(x) => x,
        Err(e) => {
            return Err(e);
        },
    };
    if idx >= count {
        let mut msg = String::new();
        push_text(&mut msg, "StringDict entry has original_idx ");
        push_decimal(&mut msg, idx as u64);
        push_text(&mut msg, " >= count ");
        push_decimal(&mut msg, count as u64);
        return Err(SurpError::InvalidData(msg));
    }
    let (pre64, c2) = match decode_varint(p, p1) {
        Ok(x) => x,
        Err(e) => {
            return Err(e);
        },
    };
    let p2 = p1 + c2;
    let prefix_len = match safe_usize(pre64) {
        Ok(x) => x,
        Err(e) => {
            return Err(e);
        },
    };
    let (suf64, c3) = match decode_varint(p, p2) {
        Ok(x) => x,
        Err(e) => {
            return Err(e);
        },
    };
    let p3 = p2 + c3;
    let suffix_len = match safe_usize(suf64) {
        Ok(x) => x,
        Err(e) => {
            return Err(e);
        },
    };
    if suffix_len > p.len() - p3 {
        return Err(SurpError::UnexpectedEof(p3));
    }
    let suffix = vstd::slice::slice_subrange(p, p3, p3 + suffix_len);
    let p4 = p3 + suffix_len;
    let prev_str = prev.as_str();
    let prev_len = prev_str.as_bytes().len();
    let cut = if prefix_len < prev_len { prefix_len } else { prev_len };
    let prefix_end = floor_char_boundary(prev_str, cut);
    proof {
        vstd::utf8::encode_utf8_valid_utf8(prev@);
        lemma_floor_boundary(prev_str.spec_bytes(), cut as int);
    }
    let (head, _) = prev_str.split_at(prefix_end);
    let tail = match utf8_str(suffix) {
        Some(t) => t,
        None => {
            return Err(SurpError::InvalidUtf8(p4));
        },
    };
    let mut full = head.to_owned();
    full.append(tail);
    proof {
        let pb = encode_utf8(prev@);
        assert(prev_str.spec_bytes() == pb);
        assert(prev_len == pb.len());
        assert(cut as int == (if pre64 < pb.len() { pre64 as int } else { pb.len() as int }));
        vstd::utf8::valid_utf8_split(pb, prefix_end as int);
        vstd::utf8::encode_utf8_decode_utf8(head@);
        assert(head@ == decode_utf8(pb.subrange(0, prefix_end as int)));
        assert(suffix@ == p@.subrange(p3 as int, p3 + suffix_len));
        assert(full@ == decode_utf8(pb.subrange(0, prefix_end as int)) + decode_utf8(suffix@));
        assert(prefix_end == floor_boundary(pb, if pre64 < pb.len() { pre64 as int } else { pb.len() as int }));
        assert(dict_entry(p@, pos as int, count as int, prev@) == Ok::<(int, Seq<char>, int), ErrorModel>((idx as int, full@, p4 as int)));
    }
    Ok((idx, full, p4))
}


/// The entries read so far, as mathematical values.
pub open spec fn entries_view(es: Seq<(usize, String)>) -> Seq<(int, Seq<char>)> {
    es.map_values(|e: (usize, String)| (e.0 as int, e.1@))
}

/// Decode a string dictionary payload into the reference table it stands for.
pub(crate) fn decode_string_dict(p: &[u8], limits: &Limits) -> (r: Result<Vec<String>, SurpError>)
    ensures
        match string_dict(p@, *limits) {
            Err(e) => r matches Err(e2) && e2@ == e,
            Ok(t) => r matches Ok(v) && v@.map_values(|s: String| s@) == t,
        },
{
    let (count64, consumed) = match decode_varint(p, 0) {
        Ok(x) => x,
        Err(e) => {
            return Err(e);
        },
    };
    let count = match safe_usize(count64) {
        Ok(x) => x,
        Err(e) => {
            return Err(e);
        },
    };
    if count > limits.max_items {
        return Err(SurpError::TooManyItems(count, limits.max_items));
    }
    let ghost whole = dict_entries(p@, consumed as int, count as int, count as nat, Seq::empty());
    let mut entries: Vec<(usize, String)> = Vec::with_capacity(if count < 4096 { count } else { 4096 });
    let mut prev = String::new();
    let mut pos = consumed;
    let mut i: usize = 0;
    proof {
        assert(entries_view(entries@) =~= Seq::<(int, Seq<char>)>::empty());
        assert(glue_dict(entries_view(entries@), whole) =~= whole);
        assert(string_dict(p@, *limits) == match whole {
            Err(e) => Err(e),
            Ok(es) => Ok(dict_table(es)),
        });
    }
    while i < count
        invariant
            i <= count,
            pos <= p@.len(),
            string_dict(p@, *limits) == match whole {
                Err(e) => Err(e),
                Ok(es) => Ok(dict_table(es)),
            },
            whole == glue_dict(entries_view(entries@), dict_entries(p@, pos as int, count as int, (count - i) as nat, prev@)),
            forall|k: int| 0 <= k < entries@.len() ==> #[trigger] entries@[k].0 < count,
        decreases count - i,
    {
        let step = decode_dict_entry(p, pos, count, &prev);
        proof {
            let k = (count - i) as nat;
            assert(k > 0);
            assert(dict_entries(p@, pos as int, count as int, k, prev@) == match dict_entry(p@, pos as int, count as int, prev@) {
                Err(e) => Err(e),
                Ok((idx, s, np)) => match dict_entries(p@, np, count as int, (k - 1) as nat, s) {
                    Err(e) => Err(e),
                    Ok(rest) => Ok(seq![(idx, s)] + rest),
                },
            });
        }
        match step {
            Err(e) => {
                proof {
                    assert(whole == Err::<Seq<(int, Seq<char>)>, ErrorModel>(e@));
                }
                return Err(e);
            },
            Ok((idx, s, np)) => {
                let ghost before = entries_view(entries@);
                let ghost k = (count - i) as nat;
                prev = s.clone();
                entries.push((idx, s));
                proof {
                    assert((k - 1) as nat == (count - (i + 1)) as nat);
                    assert(entries_view(entries@) =~= before + seq![(idx as int, prev@)]);
                    match dict_entries(p@, np as int, count as int, (k - 1) as nat, prev@) {
                        Ok(rest) => {
                            assert(before + (seq![(idx as int, prev@)] + rest) =~= (before + seq![(idx as int, prev@)]) + rest);
                        },
                        Err(_) => {},
                    }
                }
                pos = np;
            },
        }
        i = i + 1;
    }
    let ghost es = entries_view(entries@);
    proof {
        assert(es + Seq::<(int, Seq<char>)>::empty() =~= es);
    }
    let mut max_idx: usize = 0;
    let mut j: usize = 0;
    while j < entries.len()
        invariant
            j <= entries@.len(),
            es == entries_view(entries@),
            max_idx == max_index(es.take(j as int)),
            max_idx < count || (max_idx == 0 && j == 0),
            forall|k: int| 0 <= k < entries@.len() ==> #[trigger] entries@[k].0 < count,
            forall|k: int| 0 <= k < j ==> #[trigger] es[k].0 <= max_idx,
        decreases entries@.len() - j,
    {
        proof {
            assert(es.take(j + 1).drop_last() =~= es.take(j as int));
        }
        if entries[j].0 > max_idx {
            max_idx = entries[j].0;
        }
        j = j + 1;
    }
    proof {
        assert(es.take(entries@.len() as int) =~= es);
    }
    let mut table: Vec<String> = Vec::new();
    let mut k: usize = 0;
    while k <= max_idx
        invariant
            k <= max_idx + 1,
            max_idx < usize::MAX,
            table@.len() == k,
            forall|q: int| 0 <= q < k ==> #[trigger] table@[q]@ == Seq::<char>::empty(),
        decreases max_idx + 1 - k,
    {
        table.push(String::new());
        k = k + 1;
    }
    let ghost base = Seq::new((max_idx + 1) as nat, |q: int| Seq::<char>::empty());
    proof {
        assert(table@.map_values(|s: String| s@) =~= base);
    }
    let mut j: usize = 0;
    while j < entries.len()
        invariant
            j <= entries@.len(),
            es == entries_view(entries@),
            table@.len() == max_idx + 1,
            forall|q: int| 0 <= q < entries@.len() ==> #[trigger] es[q].0 <= max_idx,
            table@.map_values(|s: String| s@) == place_entries(base, es.take(j as int)),
        decreases entries@.len() - j,
    {
        proof {
            assert(es.take(j + 1).drop_last() =~= es.take(j as int));
            assert(es[j as int].0 <= max_idx);
        }
        let idx = entries[j].0;
        let ghost t0 = table@.map_values(|s: String| s@);
        table.set(idx, entries[j].1.clone());
        proof {
            assert(table@.map_values(|s: String| s@) =~= t0.update(idx as int, es[j as int].1));
        }
        j = j + 1;
    }
    proof {
        assert(es.take(entries@.len() as int) =~= es);
    }
    Ok(table)
}


/// Byte-wise lexicographic comparison from position `i` on, the two
/// sequences being equal before it.
pub open spec fn lt_from(a: Seq<u8>, b: Seq<u8>, i: int) -> bool
    decreases a.len() - i,
{
    if i < 0 || i >= a.len() {
        i < b.len()
    } else if i >= b.len() {
        false
    } else if a[i] != b[i] {
        a[i] < b[i]
    } else {
        lt_from(a, b, i + 1)
    }
}

/// `a` comes before `b` in byte-wise lexicographic order, the order of
/// `str` comparison.
pub open spec fn bytes_lt(a: Seq<u8>, b: Seq<u8>) -> bool {
    lt_from(a, b, 0)
}

/// Byte-wise lexicographic comparison.
pub(crate) fn bytes_less(a: &[u8], b: &[u8]) -> (r: bool)
    ensures
        r == bytes_lt(a@, b@),
{
    let mut i: usize = 0;
    while i < a.len() && i < b.len()
        invariant
            i <= a@.len(),
            i <= b@.len(),
            lt_from(a@, b@, i as int) == lt_from(a@, b@, 0),
        decreases a@.len() - i,
    {
        if a[i] != b[i] {
            return a[i] < b[i];
        }
        i = i + 1;
    }
    i < b.len() && i >= a.len()
}

/// The length of the common prefix of `a` and `b` from position `i` on.
pub open spec fn prefix_from(a: Seq<u8>, b: Seq<u8>, i: int) -> int
    decreases a.len() - i,
{
    if 0 <= i < a.len() && i < b.len() && a[i] == b[i] {
        prefix_from(a, b, i + 1)
    } else {
        i
    }
}

/// The length of the longest common prefix of `a` and `b`.
pub open spec fn common_prefix_len(a: Seq<u8>, b: Seq<u8>) -> int {
    prefix_from(a, b, 0)
}

/// The length of the longest common prefix of two byte strings.
fn common_prefix(a: &[u8], b: &[u8]) -> (r: usize)
    ensures
        r == common_prefix_len(a@, b@),
        r <= a@.len(),
        r <= b@.len(),
{
    let mut i: usize = 0;
    while i < a.len() && i < b.len() && a[i] == b[i]
        invariant
            i <= a@.len(),
            i <= b@.len(),
            prefix_from(a@, b@, i as int) == prefix_from(a@, b@, 0),
        decreases a@.len() - i,
    {
        i = i + 1;
    }
    i
}

/// The UTF-8 bytes of dictionary entry `i`.
pub open spec fn entry_key(dict: Seq<Seq<char>>, i: int) -> Seq<u8> {
    encode_utf8(dict[i])
}

/// The position in `rem` of the first entry whose key is smallest.
pub open spec fn min_position(dict: Seq<Seq<char>>, rem: Seq<int>) -> int
    decreases rem.len(),
{
    if rem.len() <= 1 {
        0
    } else {
        let m = min_position(dict, rem.drop_last());
        if bytes_lt(entry_key(dict, rem.last()), entry_key(dict, rem[m])) {
            rem.len() - 1
        } else {
            m
        }
    }
}

/// The dictionary positions `rem` ordered by their keys: repeatedly the
/// first smallest one, then the rest. Keys being distinct, this is the
/// ascending order of the keys.
pub open spec fn sorted_positions(dict: Seq<Seq<char>>, rem: Seq<int>) -> Seq<int>
    decreases rem.len(),
{
    if rem.len() == 0 {
        Seq::empty()
    } else {
        let m = min_position(dict, rem);
        proof {
            lemma_min_position_bounds(dict, rem);
        }
        seq![rem[m]] + sorted_positions(dict, rem.remove(m))
    }
}

/// The first smallest position lies within `rem`.
pub proof fn lemma_min_position_bounds(dict: Seq<Seq<char>>, rem: Seq<int>)
    ensures
        rem.len() >= 1 ==> 0 <= min_position(dict, rem) < rem.len(),
    decreases rem.len(),
{
    if rem.len() > 1 {
        lemma_min_position_bounds(dict, rem.drop_last());
    }
}

/// The entries for the dictionary positions `order`, each stored as the
/// part of its key that follows the prefix it shares with the key before
/// (`prev` for the first).
pub open spec fn entries_bytes(dict: Seq<Seq<char>>, order: Seq<int>, prev: Seq<u8>) -> Seq<u8>
    decreases order.len(),
{
    if order.len() == 0 {
        Seq::empty()
    } else {
        let key = entry_key(dict, order[0]);
        let k = common_prefix_len(key, prev);
        varint_bytes((order[0] as u32) as u64) + varint_bytes(k as u64) + varint_bytes((key.len() - k) as u64)
            + key.subrange(k, key.len() as int) + entries_bytes(dict, order.drop_first(), key)
    }
}

/// The payload of the string dictionary block for the strings `dict`,
/// listed in insertion order: their count, then their entries in key order.
pub open spec fn dict_payload(dict: Seq<Seq<char>>) -> Seq<u8> {
    varint_bytes(dict.len() as u64) + entries_bytes(
        dict,
        sorted_positions(dict, Seq::new(dict.len(), |i: int| i)),
        Seq::empty(),
    )
}

/// The positions of `rem` as mathematical integers.
pub open spec fn positions(rem: Seq<usize>) -> Seq<int> {
    rem.map_values(|i: usize| i as int)
}

/// Encode the string dictionary `dict` (in insertion order) as the payload
/// of a string dictionary block.
pub(crate) fn encode_string_dict_payload(dict: &Vec<String>) -> (p: Vec<u8>)
    ensures
        p@ == dict_payload(dict@.map_values(|s: String| s@)),
{
    let ghost d = dict@.map_values(|s: String| s@);
    let n = dict.len();
    let mut rem: Vec<usize> = Vec::new();
    let mut i: usize = 0;
    while i < n
        invariant
            i <= n,
            n == dict@.len(),
            rem@.len() == i,
            forall|j: int| 0 <= j < i ==> #[trigger] rem@[j] == j,
        decreases n - i,
    {
        rem.push(i);
        i = i + 1;
    }
    proof {
        assert(positions(rem@) =~= Seq::new(d.len(), |i: int| i));
    }
    let mut payload: Vec<u8> = Vec::new();
    encode_varint_vec(n as u64, &mut payload);
    let mut prev: &[u8] = &[];
    proof {
        assert(prev@ =~= Seq::<u8>::empty());
    }
    while rem.len() > 0
        invariant
            d == dict@.map_values(|s: String| s@),
            n == dict@.len(),
            forall|j: int| 0 <= j < rem@.len() ==> #[trigger] rem@[j] < n,
            dict_payload(d) == payload@ + entries_bytes(d, sorted_positions(d, positions(rem@)), prev@),
        decreases rem@.len(),
    {
        let ghost pr = positions(rem@);
        let mut best: usize = 0;
        let mut j: usize = 1;
        proof {
            assert(pr.take(1).len() <= 1);
        }
        while j < rem.len()
            invariant
                pr == positions(rem@),
                d == dict@.map_values(|s: String| s@),
                1 <= j <= rem@.len(),
                forall|q: int| 0 <= q < rem@.len() ==> #[trigger] rem@[q] < n,
                n == dict@.len(),
                best < j,
                best as int == min_position(d, pr.take(j as int)),
            decreases rem@.len() - j,
        {
            proof {
                assert(pr.take(j + 1).drop_last() =~= pr.take(j as int));
            }
            let kj = dict[rem[j]].as_str().as_bytes();
            let kb = dict[rem[best]].as_str().as_bytes();
            if bytes_less(kj, kb) {
                best = j;
            }
            j = j + 1;
        }
        proof {
            assert(pr.take(rem@.len() as int) =~= pr);
            lemma_min_position_bounds(d, pr);
        }
        let idx = rem.remove(best);
        proof {
            assert(positions(rem@) =~= pr.remove(best as int));
        }
        let key = dict[idx].as_str().as_bytes();
        let k = common_prefix(key, prev);
        let ghost before = payload@;
        encode_varint_vec((idx as u32) as u64, &mut payload);
        encode_varint_vec(k as u64, &mut payload);
        encode_varint_vec((key.len() - k) as u64, &mut payload);
        payload.extend_from_slice(vstd::slice::slice_subrange(key, k, key.len()));
        proof {
            assert(key@ == entry_key(d, idx as int));
            let order = sorted_positions(d, pr);
            assert(order[0] == idx as int);
            assert(order.drop_first() =~= sorted_positions(d, positions(rem@)));
            assert(payload@ =~= before + (varint_bytes((idx as u32) as u64) + varint_bytes(k as u64) + varint_bytes(
                (key@.len() - k) as u64,
            ) + key@.subrange(k as int, key@.len() as int)));
        }
        prev = key;
    }
    proof {
        assert(payload@ + Seq::<u8>::empty() =~= payload@);
    }
    payload
}

} // verus!

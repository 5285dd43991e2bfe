//! The grammar of one-line CTN expressions, as a function from text to
//! value, and its reader.

use crate::cql::{copy_range, string_of, trim_chars, trimmed};
use crate::ctn::{
    fields_m, pairs_m, values_m, CtnField, CtnPayload, CtnScalar, CtnScalarM, CtnValue, CtnValueM,
};
use crate::ctn_inline::{
    bad, ends_with, numeric, parse_numeric_literal, parse_quoted_string, quoted, split_from,
    split_top, split_top_level, texts, SplitState,
};
use crate::ctn_lex::{
    find_char, find_pair, first_of, first_pair, hex_compact, hex_spaced, is_ident, is_ident_path,
    is_identifier, is_identifier_path, lemma_first_of, lemma_first_pair, lemma_trimmed_len,
    parse_hex_compact, parse_hex_spaced,
};
use crate::error::{ErrorModel, SurpError};
use crate::render::push_text;
use crate::cql::push_chars;
use crate::text::{base64_decode, base64_decode_of, chars_of};
use vstd::prelude::*;

verus! {

/// `s` begins with `p`.
pub open spec fn starts(s: Seq<char>, p: Seq<char>) -> bool {
    p.len() <= s.len() && s.subrange(0, p.len() as int) == p
}

/// `pre` followed by the items of `r`, or the error of `r`.
pub open spec fn joined<A>(pre: Seq<A>, r: Result<Seq<A>, ErrorModel>) -> Result<Seq<A>, ErrorModel> {
    match r {
        Ok(s) => Ok(pre + s),
        Err(e) => Err(e),
    }
}

/// `None` for empty text, else the text.
pub open spec fn opt_text(t: Seq<char>) -> Option<Seq<char>> {
    if t.len() == 0 {
        None
    } else {
        Some(t)
    }
}

/// The error for a missing separator `sep` in `t`.
pub open spec fn sep_error(sep: Seq<char>, t: Seq<char>) -> ErrorModel {
    ErrorModel::ParseError {
        line: 1,
        col: 1,
        message: "expected separator '"@ + sep + "' in '"@ + t + "'"@,
    }
}

/// A tagged literal `tag"..."`: the tag and the string, `None` when `s`
/// is not one, or why its string does not read.
pub open spec fn prefixed(s: Seq<char>) -> Result<Option<(Seq<char>, Seq<char>)>, ErrorModel> {
    match first_of(s, '"', 0) {
        None => Ok(None),
        Some(fq) => if s.len() == 0 || s.last() != '"' || fq == 0 {
            Ok(None)
        } else {
            let tag = trimmed(s.subrange(0, fq as int));
            if !is_ident(tag) {
                Ok(None)
            } else {
                match quoted(s.subrange(fq as int, s.len() as int)) {
                    Ok(v) => Ok(Some((tag, v))),
                    Err(e) => Err(e),
                }
            }
        },
    }
}

/// One part holds a `:` outside nothing (any `:` at all).
pub open spec fn any_colon(parts: Seq<Seq<char>>) -> bool {
    exists|i: int| 0 <= i < parts.len() && #[trigger] first_of(parts[i], ':', 0) is Some
}

/// The value a one-line expression `t` stands for.
pub open spec fn inline_value(t: Seq<char>) -> Result<CtnValueM, ErrorModel>
    decreases t.len() + 1, 0nat,
{
    let s = trimmed(t);
    proof {
        lemma_trimmed_len(t);
    }
    let n = s.len();
    if n == 0 {
        Err(bad("empty inline expression"@))
    } else if s == "null"@ {
        Ok(CtnValueM::Scalar(CtnScalarM::Null))
    } else if s == "unit"@ {
        Ok(CtnValueM::Scalar(CtnScalarM::Unit))
    } else if s == "true"@ {
        Ok(CtnValueM::Scalar(CtnScalarM::Bool(true)))
    } else if s == "false"@ {
        Ok(CtnValueM::Scalar(CtnScalarM::Bool(false)))
    } else if s[0] == '&' {
        let name = trimmed(s.subrange(1, n as int));
        if is_ident(name) {
            Ok(CtnValueM::RefBinding(name))
        } else {
            Err(bad("invalid reference name '"@ + name + "'"@))
        }
    } else if starts(s, "ref "@) {
        proof {
            reveal_strlit("ref ");
        }
        match inline_value(s.subrange("ref "@.len() as int, n as int)) {
            Ok(v) => Ok(CtnValueM::RefById(seq![v])),
            Err(e) => Err(e),
        }
    } else if starts(s, "\"\"\""@) {
        if ends_with(s, "\"\"\""@) && n >= 6 {
            Ok(CtnValueM::Scalar(CtnScalarM::Str(s.subrange(3, n - 3))))
        } else {
            Err(bad("invalid triple-quoted string literal"@))
        }
    } else if s[0] == '"' {
        match quoted(s) {
            Ok(v) => Ok(CtnValueM::Scalar(CtnScalarM::Str(v))),
            Err(e) => Err(e),
        }
    } else if starts(s, "b64\""@) {
        if n < 5 || s.last() != '"' {
            Err(bad("unterminated base64 bytes literal"@))
        } else {
            match base64_decode_of(s.subrange(4, n - 1)) {
                Ok(b) => Ok(CtnValueM::Scalar(CtnScalarM::Bytes(b))),
                Err(m) => Err(ErrorModel::InvalidBase64(m)),
            }
        }
    } else if starts(s, "b\""@) {
        if n < 3 || s.last() != '"' {
            Err(bad("unterminated hex bytes literal"@))
        } else {
            match hex_compact(s.subrange(2, n - 1)) {
                Ok(b) => Ok(CtnValueM::Scalar(CtnScalarM::Bytes(b))),
                Err(e) => Err(e),
            }
        }
    } else if s[0] == '<' && s.last() == '>' {
        match hex_spaced(s.subrange(1, n - 1)) {
            Ok(b) => Ok(CtnValueM::Scalar(CtnScalarM::Bytes(b))),
            Err(e) => Err(e),
        }
    } else if prefixed(s) is Err {
        Err(prefixed(s)->Err_0)
    } else if prefixed(s) matches Ok(Some(_)) {
        let tv = prefixed(s)->Ok_0->Some_0;
        Ok(CtnValueM::Scalar(CtnScalarM::Tagged(tv.0, tv.1)))
    } else if s[0] == '\'' {
        let sym = s.subrange(1, n as int);
        if is_ident(sym) {
            Ok(CtnValueM::Scalar(CtnScalarM::Sym(sym)))
        } else {
            Err(bad("invalid symbol '"@ + sym + "'"@))
        }
    } else if starts(s, "map<"@) && first_of(s, '[', 0) is Some && s.last() == ']' {
        let open = first_of(s, '[', 0)->0;
        let inside = if open + 1 <= n - 1 {
            s.subrange(open as int + 1, n - 1)
        } else {
            Seq::empty()
        };
        match pairs(split_top(inside, ','), n) {
            Ok(ps) => Ok(CtnValueM::Association(ps)),
            Err(e) => Err(e),
        }
    } else if s[0] == '[' && s.last() == ']' {
        match items(split_top(s.subrange(1, n - 1), ','), true, n) {
            Ok(vs) => Ok(CtnValueM::Sequence(None, vs)),
            Err(e) => Err(e),
        }
    } else if s[0] == '(' && s.last() == ')' {
        let inside = s.subrange(1, n - 1);
        if trimmed(inside).len() == 0 {
            Ok(CtnValueM::Sequence(None, Seq::empty()))
        } else {
            match items(split_top(inside, ','), false, n) {
                Ok(vs) => Ok(CtnValueM::Sequence(None, vs)),
                Err(e) => Err(e),
            }
        }
    } else if first_pair(s, ':', ':', 0) is Some {
        inline_sum(s)
    } else if numeric(s) is Err {
        Err(numeric(s)->Err_0)
    } else if numeric(s) matches Ok(Some(_)) {
        Ok(CtnValueM::Scalar(numeric(s)->Ok_0->Some_0))
    } else if is_ident_path(s) {
        Ok(CtnValueM::Scalar(CtnScalarM::Sym(s)))
    } else {
        Err(bad("unable to parse inline expression '"@ + s + "'"@))
    }
}

/// The enum variant `Type::Variant`, `Type::Variant(a, b)` or
/// `Type::Variant(x: a, y: b)` that `s` (which holds `::`) stands for.
pub open spec fn inline_sum(s: Seq<char>) -> Result<CtnValueM, ErrorModel>
    decreases s.len(), 1nat,
{
    let n = s.len();
    match first_pair(s, ':', ':', 0) {
        None => Err(bad("missing enum variant"@)),
        Some(k) => {
            let label = opt_text(trimmed(s.subrange(0, k as int)));
            let rhs = if k + 2 <= n {
                trimmed(s.subrange(k as int + 2, n as int))
            } else {
                Seq::empty()
            };
            proof {
                lemma_first_pair(s, ':', ':', 0);
                lemma_trimmed_len(s.subrange(k as int + 2, n as int));
            }
            let m = rhs.len();
            if m == 0 {
                Err(bad("missing enum variant"@))
            } else {
                match first_of(rhs, '(', 0) {
                    None => Ok(CtnValueM::SumUnit(label, rhs)),
                    Some(open) => if rhs.last() != ')' || open + 1 > m - 1 {
                        Err(bad("unterminated enum payload"@))
                    } else {
                        let variant = trimmed(rhs.subrange(0, open as int));
                        let parts = split_top(rhs.subrange(open as int + 1, m - 1), ',');
                        if any_colon(parts) {
                            match fields(parts, m) {
                                Ok(fs) => Ok(CtnValueM::SumStruct(label, variant, fs)),
                                Err(e) => Err(e),
                            }
                        } else {
                            match items(parts, true, m) {
                                Ok(vs) => Ok(CtnValueM::SumTuple(label, variant, vs)),
                                Err(e) => Err(e),
                            }
                        }
                    },
                }
            }
        },
    }
}

/// The values of the parts, in order; with `skip`, empty parts are left
/// out. Every part is shorter than `bound`.
pub open spec fn items(parts: Seq<Seq<char>>, skip: bool, bound: nat) -> Result<Seq<CtnValueM>, ErrorModel>
    decreases bound, parts.len(),
{
    if parts.len() == 0 {
        Ok(Seq::empty())
    } else if skip && trimmed(parts[0]).len() == 0 {
        items(parts.drop_first(), skip, bound)
    } else if parts[0].len() < bound {
        match inline_value(parts[0]) {
            Err(e) => Err(e),
            Ok(v) => joined(seq![v], items(parts.drop_first(), skip, bound)),
        }
    } else {
        Err(bad("empty inline expression"@))
    }
}

/// The entries `key => value` of an inline map; empty parts are left out.
pub open spec fn pairs(parts: Seq<Seq<char>>, bound: nat) -> Result<Seq<(CtnValueM, CtnValueM)>, ErrorModel>
    decreases bound, parts.len(),
{
    if parts.len() == 0 {
        Ok(Seq::empty())
    } else {
        let p = trimmed(parts[0]);
        if p.len() == 0 {
            pairs(parts.drop_first(), bound)
        } else if p.len() >= bound {
            Err(bad("empty inline expression"@))
        } else {
            proof {
                lemma_first_pair(p, '=', '>', 0);
            }
            match first_pair(p, '=', '>', 0) {
                None => Err(sep_error("=>"@, p)),
                Some(k) => match inline_value(p.subrange(0, k as int)) {
                    Err(e) => Err(e),
                    Ok(a) => if k + 2 > p.len() {
                        Err(bad("empty inline expression"@))
                    } else {
                        match inline_value(p.subrange(k as int + 2, p.len() as int)) {
                            Err(e) => Err(e),
                            Ok(b) => joined(seq![(a, b)], pairs(parts.drop_first(), bound)),
                        }
                    },
                },
            }
        }
    }
}

/// The fields `name: value` of a struct-like enum payload.
pub open spec fn fields(parts: Seq<Seq<char>>, bound: nat) -> Result<Seq<(Seq<char>, CtnValueM)>, ErrorModel>
    decreases bound, parts.len(),
{
    if parts.len() == 0 {
        Ok(Seq::empty())
    } else {
        let p = parts[0];
        if p.len() >= bound {
            Err(bad("empty inline expression"@))
        } else {
            proof {
                lemma_first_of(p, ':', 0);
            }
            match first_of(p, ':', 0) {
                None => Err(sep_error(":"@, p)),
                Some(k) => if k + 1 > p.len() {
                    Err(bad("empty inline expression"@))
                } else {
                    match inline_value(p.subrange(k as int + 1, p.len() as int)) {
                        Err(e) => Err(e),
                        Ok(v) => joined(
                            seq![(trimmed(p.subrange(0, k as int)), v)],
                            fields(parts.drop_first(), bound),
                        ),
                    }
                },
            }
        }
    }
}

/// Every part of a top-level split is no longer than the text.
pub proof fn lemma_split_from_short(t: Seq<char>, d: char, i: nat, start: nat, st: SplitState)
    requires
        start <= i <= t.len(),
    ensures
        forall|k: int|
            0 <= k < split_from(t, d, i, start, st).len() ==> (#[trigger] split_from(t, d, i, start, st)[k]).len()
                <= t.len(),
    decreases t.len() - i,
{
    if i >= t.len() {
        lemma_trimmed_len(t.subrange(start as int, t.len() as int));
    } else {
        let c = t[i as int];
        let s2 = crate::ctn_inline::split_step(st, c);
        let cut = !st.in_str && c == d && s2.paren == 0 && s2.bracket == 0 && s2.angle == 0;
        let nx = if st.in_str {
            if st.esc {
                SplitState { esc: false, ..st }
            } else if c == '\\' {
                SplitState { esc: true, ..st }
            } else if c == '"' {
                SplitState { in_str: false, ..st }
            } else {
                st
            }
        } else {
            s2
        };
        if cut {
            lemma_split_from_short(t, d, i + 1, i + 1, nx);
            lemma_trimmed_len(t.subrange(start as int, i as int));
            let rest = split_from(t, d, i + 1, i + 1, nx);
            let all = seq![trimmed(t.subrange(start as int, i as int))] + rest;
            assert(split_from(t, d, i, start, st) == all);
            assert forall|k: int| 0 <= k < all.len() implies (#[trigger] all[k]).len() <= t.len() by {
                if k > 0 {
                    assert(all[k] == rest[k - 1]);
                }
            }
        } else {
            lemma_split_from_short(t, d, i + 1, start, nx);
            assert(split_from(t, d, i, start, st) == split_from(t, d, i + 1, start, nx));
        }
    }
}

pub proof fn lemma_split_short(t: Seq<char>, d: char)
    ensures
        forall|k: int| 0 <= k < split_top(t, d).len() ==> (#[trigger] split_top(t, d)[k]).len() <= t.len(),
{
    lemma_split_from_short(t, d, 0, 0, SplitState { paren: 0, bracket: 0, angle: 0, in_str: false, esc: false });
}

/// The characters of `v` as a string.
pub(crate) fn text_of(v: &Vec<char>) -> (s: String)
    ensures
        s@ == v@,
{
    let s = string_of(v, 0, v.len());
    proof {
        assert(v@.subrange(0, v@.len() as int) =~= v@);
    }
    s
}

/// Whether `s` is the text `lit`.
pub(crate) fn is_lit(s: &Vec<char>, lit: &str) -> (r: bool)
    ensures
        r == (s@ == lit@),
{
    let v = chars_of(lit);
    crate::ctn_inline::same_chars(s, &v)
}

/// Whether `s` begins with `lit`.
pub(crate) fn starts_lit(s: &Vec<char>, lit: &str) -> (r: bool)
    ensures
        r == starts(s@, lit@),
{
    let v = chars_of(lit);
    if v.len() > s.len() {
        return false;
    }
    let head = copy_range(s, 0, v.len());
    crate::ctn_inline::same_chars(&head, &v)
}

/// Whether `s` ends with `lit`.
pub(crate) fn ends_lit(s: &Vec<char>, lit: &str) -> (r: bool)
    ensures
        r == ends_with(s@, lit@),
{
    let v = chars_of(lit);
    if v.len() > s.len() {
        return false;
    }
    let tail = copy_range(s, s.len() - v.len(), s.len());
    crate::ctn_inline::same_chars(&tail, &v)
}

/// The error `prefix`, `x` and a closing quote.
pub(crate) fn quoted_error(prefix: &str, x: &Vec<char>) -> (e: SurpError)
    ensures
        e@ == bad(prefix@ + x@ + "'"@),
{
    let mut m = String::new();
    push_text(&mut m, prefix);
    push_chars(&mut m, x, 0, x.len());
    push_text(&mut m, "'");
    proof {
        assert(x@.subrange(0, x@.len() as int) =~= x@);
        assert(m@ =~= prefix@ + x@ + "'"@);
    }
    SurpError::InvalidData(m)
}

/// The error for a missing separator `sep` in `x`.
pub(crate) fn separator_error(sep: &str, x: &Vec<char>) -> (e: SurpError)
    ensures
        e@ == sep_error(sep@, x@),
{
    let mut m = String::new();
    push_text(&mut m, "expected separator '");
    push_text(&mut m, sep);
    push_text(&mut m, "' in '");
    push_chars(&mut m, x, 0, x.len());
    push_text(&mut m, "'");
    proof {
        assert(x@.subrange(0, x@.len() as int) =~= x@);
        assert(m@ =~= "expected separator '"@ + sep@ + "' in '"@ + x@ + "'"@);
    }
    SurpError::ParseError { line: 1, col: 1, message: m }
}

/// Reads a tagged literal `tag"..."`.
fn parse_prefixed(s: &Vec<char>) -> (r: Result<Option<(Vec<char>, Vec<char>)>, SurpError>)
    ensures
        match prefixed(s@) {
            Ok(None) => r matches Ok(None),
            Ok(Some(p)) => r matches Ok(Some(q)) && q.0@ == p.0 && q.1@ == p.1,
            Err(e) => r matches Err(x) && x@ == e,
        },
{
    proof {
        lemma_first_of(s@, '"', 0);
    }
    match find_char(s, '"', 0) {
        None => Ok(None),
        Some(fq) => {
            let n = s.len();
            if n == 0 || s[n - 1] != '"' || fq == 0 {
                return Ok(None);
            }
            let raw = copy_range(s, 0, fq);
            let tag = trim_chars(&raw);
            if !is_identifier(&tag) {
                return Ok(None);
            }
            let body = copy_range(s, fq, n);
            match parse_quoted_string(&body) {
                Ok(v) => Ok(Some((tag, v))),
                Err(e) => Err(e),
            }
        },
    }
}

/// Whether some part holds a `:`.
fn has_colon(parts: &Vec<Vec<char>>) -> (r: bool)
    ensures
        r == any_colon(texts(parts@)),
{
    let mut i: usize = 0;
    while i < parts.len()
        invariant
            i <= parts@.len(),
            forall|j: int| 0 <= j < i ==> !(#[trigger] first_of(texts(parts@)[j], ':', 0) is Some),
        decreases parts@.len() - i,
    {
        let f = find_char(&parts[i], ':', 0);
        if f.is_some() {
            proof {
                assert(texts(parts@)[i as int] == parts@[i as int]@);
                assert(first_of(texts(parts@)[i as int], ':', 0) is Some);
            }
            return true;
        }
        proof {
            assert(texts(parts@)[i as int] == parts@[i as int]@);
        }
        i = i + 1;
    }
    false
}

fn seq_value(items: Vec<CtnValue>) -> (v: CtnValue)
    ensures
        v@ == CtnValueM::Sequence(None, values_m(items@)),
{
    CtnValue::Sequence { elem_type: None, items }
}

fn sum_value(label: Option<String>, variant: String, payload: CtnPayload) -> (v: CtnValue)
    ensures
        payload matches CtnPayload::Tuple(xs) ==> v@ == CtnValueM::SumTuple(crate::ctn::opt_seq(label), variant@, values_m(xs@)),
        payload matches CtnPayload::Struct(fs) ==> v@ == CtnValueM::SumStruct(crate::ctn::opt_seq(label), variant@, fields_m(fs@)),
        payload matches CtnPayload::Unit ==> v@ == CtnValueM::SumUnit(crate::ctn::opt_seq(label), variant@),
{
    CtnValue::Sum { type_label: label, variant, payload }
}

pub proof fn lemma_values_push(s: Seq<CtnValue>, x: CtnValue)
    ensures
        values_m(s.push(x)) == values_m(s).push(x@),
{
    assert(s.push(x).drop_last() =~= s);
}

pub proof fn lemma_fields_push(s: Seq<CtnField>, x: CtnField)
    ensures
        fields_m(s.push(x)) == fields_m(s).push((x.name@, x.value@)),
{
    assert(s.push(x).drop_last() =~= s);
}

pub proof fn lemma_pairs_push(s: Seq<(CtnValue, CtnValue)>, x: (CtnValue, CtnValue))
    ensures
        pairs_m(s.push(x)) == pairs_m(s).push((x.0@, x.1@)),
{
    assert(s.push(x).drop_last() =~= s);
}

/// The models of part vectors.
proof fn lemma_texts_rest(parts: Seq<Vec<char>>, i: int)
    requires
        0 <= i < parts.len(),
    ensures
        texts(parts).subrange(i, parts.len() as int)[0] == parts[i]@,
        texts(parts).subrange(i, parts.len() as int).drop_first() =~= texts(parts).subrange(i + 1, parts.len() as int),
        texts(parts).subrange(i, parts.len() as int).len() > 0,
{
}

/// Reads the parts of an inline sequence or tuple payload.
fn parse_items(parts: &Vec<Vec<char>>, skip: bool, bound: usize) -> (r: Result<Vec<CtnValue>, SurpError>)
    requires
        forall|k: int| 0 <= k < parts@.len() ==> (#[trigger] parts@[k])@.len() < bound,
    ensures
        match items(texts(parts@), skip, bound as nat) {
            Ok(vs) => r matches Ok(x) && values_m(x@) == vs,
            Err(e) => r matches Err(x) && x@ == e,
        },
    decreases bound, parts@.len(),
{
    let mut out: Vec<CtnValue> = Vec::new();
    let mut i: usize = 0;
    let ghost ps = texts(parts@);
    proof {
        assert(ps.subrange(0, ps.len() as int) =~= ps);
        assert(Seq::<CtnValueM>::empty() + Seq::<CtnValueM>::empty() =~= Seq::<CtnValueM>::empty());
        match items(ps, skip, bound as nat) {
            Ok(x) => {
                assert(values_m(out@) + x =~= x);
            },
            Err(_) => {},
        }
    }
    while i < parts.len()
        invariant
            i <= parts@.len(),
            ps == texts(parts@),
            ps.len() == parts@.len(),
            forall|k: int| 0 <= k < parts@.len() ==> (#[trigger] parts@[k])@.len() < bound,
            items(ps, skip, bound as nat) == joined(
                values_m(out@),
                items(ps.subrange(i as int, ps.len() as int), skip, bound as nat),
            ),
        decreases parts@.len() - i,
    {
        proof {
            lemma_texts_rest(parts@, i as int);
        }
        let ghost tail = ps.subrange(i + 1, ps.len() as int);
        let tp = trim_chars(&parts[i]);
        if skip && tp.len() == 0 {
        } else {
            match parse_inline_expr(&parts[i]) {
                Err(e) => {
                    return Err(e);
                },
                Ok(v) => {
                    proof {
                        lemma_values_push(out@, v);
                        match items(tail, skip, bound as nat) {
                            Ok(x) => {
                                assert(values_m(out@) + (seq![v@] + x) =~= values_m(out@).push(v@) + x);
                            },
                            Err(_) => {},
                        }
                    }
                    out.push(v);
                },
            }
        }
        i = i + 1;
    }
    proof {
        assert(ps.subrange(i as int, ps.len() as int) =~= Seq::<Seq<char>>::empty());
        assert(values_m(out@) + Seq::<CtnValueM>::empty() =~= values_m(out@));
    }
    Ok(out)
}

/// Reads the entries `key => value` of an inline map.
fn parse_pairs(parts: &Vec<Vec<char>>, bound: usize) -> (r: Result<Vec<(CtnValue, CtnValue)>, SurpError>)
    requires
        forall|k: int| 0 <= k < parts@.len() ==> (#[trigger] parts@[k])@.len() < bound,
    ensures
        match pairs(texts(parts@), bound as nat) {
            Ok(vs) => r matches Ok(x) && pairs_m(x@) == vs,
            Err(e) => r matches Err(x) && x@ == e,
        },
    decreases bound, parts@.len(),
{
    let mut out: Vec<(CtnValue, CtnValue)> = Vec::new();
    let mut i: usize = 0;
    let ghost ps = texts(parts@);
    proof {
        assert(ps.subrange(0, ps.len() as int) =~= ps);
        match pairs(ps, bound as nat) {
            Ok(x) => {
                assert(pairs_m(out@) + x =~= x);
            },
            Err(_) => {},
        }
    }
    while i < parts.len()
        invariant
            i <= parts@.len(),
            ps == texts(parts@),
            ps.len() == parts@.len(),
            forall|k: int| 0 <= k < parts@.len() ==> (#[trigger] parts@[k])@.len() < bound,
            pairs(ps, bound as nat) == joined(pairs_m(out@), pairs(ps.subrange(i as int, ps.len() as int), bound as nat)),
        decreases parts@.len() - i,
    {
        proof {
            lemma_texts_rest(parts@, i as int);
            lemma_trimmed_len(parts@[i as int]@);
        }
        let ghost tail = ps.subrange(i + 1, ps.len() as int);
        let tp = trim_chars(&parts[i]);
        if tp.len() > 0 {
            proof {
                lemma_first_pair(tp@, '=', '>', 0);
            }
            match find_pair(&tp, '=', '>') {
                None => {
                    return Err(separator_error("=>", &tp));
                },
                Some(k) => {
                    let lhs = copy_range(&tp, 0, k);
                    let a = match parse_inline_expr(&lhs) {
                        Ok(a) => a,
                        Err(e) => {
                            return Err(e);
                        },
                    };
                    let rhs = copy_range(&tp, k + 2, tp.len());
                    let b = match parse_inline_expr(&rhs) {
                        Ok(b) => b,
                        Err(e) => {
                            return Err(e);
                        },
                    };
                    proof {
                        lemma_pairs_push(out@, (a, b));
                        match pairs(tail, bound as nat) {
                            Ok(x) => {
                                assert(pairs_m(out@) + (seq![(a@, b@)] + x) =~= pairs_m(out@).push((a@, b@)) + x);
                            },
                            Err(_) => {},
                        }
                    }
                    out.push((a, b));
                },
            }
        }
        i = i + 1;
    }
    proof {
        assert(ps.subrange(i as int, ps.len() as int) =~= Seq::<Seq<char>>::empty());
        assert(pairs_m(out@) + Seq::<(CtnValueM, CtnValueM)>::empty() =~= pairs_m(out@));
    }
    Ok(out)
}

/// Reads the fields `name: value` of a struct-like enum payload.
fn parse_fields(parts: &Vec<Vec<char>>, bound: usize) -> (r: Result<Vec<CtnField>, SurpError>)
    requires
        forall|k: int| 0 <= k < parts@.len() ==> (#[trigger] parts@[k])@.len() < bound,
    ensures
        match fields(texts(parts@), bound as nat) {
            Ok(vs) => r matches Ok(x) && fields_m(x@) == vs,
            Err(e) => r matches Err(x) && x@ == e,
        },
    decreases bound, parts@.len(),
{
    let mut out: Vec<CtnField> = Vec::new();
    let mut i: usize = 0;
    let ghost ps = texts(parts@);
    proof {
        assert(ps.subrange(0, ps.len() as int) =~= ps);
        match fields(ps, bound as nat) {
            Ok(x) => {
                assert(fields_m(out@) + x =~= x);
            },
            Err(_) => {},
        }
    }
    while i < parts.len()
        invariant
            i <= parts@.len(),
            ps == texts(parts@),
            ps.len() == parts@.len(),
            forall|k: int| 0 <= k < parts@.len() ==> (#[trigger] parts@[k])@.len() < bound,
            fields(ps, bound as nat) == joined(fields_m(out@), fields(ps.subrange(i as int, ps.len() as int), bound as nat)),
        decreases parts@.len() - i,
    {
        proof {
            lemma_texts_rest(parts@, i as int);
            lemma_first_of(parts@[i as int]@, ':', 0);
        }
        let ghost tail = ps.subrange(i + 1, ps.len() as int);
        let p = &parts[i];
        match find_char(p, ':', 0) {
            None => {
                return Err(separator_error(":", p));
            },
            Some(k) => {
                let val = copy_range(p, k + 1, p.len());
                let v = match parse_inline_expr(&val) {
                    Ok(v) => v,
                    Err(e) => {
                        return Err(e);
                    },
                };
                let raw = copy_range(p, 0, k);
                let nm = trim_chars(&raw);
                let name = text_of(&nm);
                let f = CtnField { name, value: v };
                proof {
                    lemma_fields_push(out@, f);
                    match fields(tail, bound as nat) {
                        Ok(x) => {
                            assert(fields_m(out@) + (seq![(f.name@, f.value@)] + x) =~= fields_m(out@).push((f.name@, f.value@)) + x);
                        },
                        Err(_) => {},
                    }
                }
                out.push(f);
            },
        }
        i = i + 1;
    }
    proof {
        assert(ps.subrange(i as int, ps.len() as int) =~= Seq::<Seq<char>>::empty());
        assert(fields_m(out@) + Seq::<(Seq<char>, CtnValueM)>::empty() =~= fields_m(out@));
    }
    Ok(out)
}

fn scalar(x: CtnScalar) -> (v: CtnValue)
    ensures
        v@ == CtnValueM::Scalar(x@),
{
    CtnValue::Scalar(x)
}

/// Reads the enum variant `Type::Variant`, `Type::Variant(a, b)` or
/// `Type::Variant(x: a, y: b)` in `s`, which holds `::` at `k`.
fn parse_inline_sum(s: &Vec<char>, k: usize) -> (r: Result<CtnValue, SurpError>)
    requires
        first_pair(s@, ':', ':', 0) == Some(k as nat),
        s@.len() > 0,
    ensures
        match inline_sum(s@) {
            Ok(v) => r matches Ok(x) && x@ == v,
            Err(e) => r matches Err(x) && x@ == e,
        },
    decreases s@.len(), 1nat,
{
    proof {
        lemma_first_pair(s@, ':', ':', 0);
    }
    let n = s.len();
    let raw_left = copy_range(s, 0, k);
    let left = trim_chars(&raw_left);
    let label = if left.len() == 0 {
        None
    } else {
        Some(text_of(&left))
    };
    let raw_rhs = copy_range(s, k + 2, n);
    let rhs = trim_chars(&raw_rhs);
    let m = rhs.len();
    proof {
        lemma_trimmed_len(raw_rhs@);
    }
    if m == 0 {
        return Err(SurpError::InvalidData(String::from_str("missing enum variant")));
    }
    proof {
        lemma_first_of(rhs@, '(', 0);
    }
    match find_char(&rhs, '(', 0) {
        None => {
            let v = sum_value(label, text_of(&rhs), CtnPayload::Unit);
            Ok(v)
        },
        Some(open) => {
            if rhs[m - 1] != ')' || open + 1 > m - 1 {
                return Err(SurpError::InvalidData(String::from_str("unterminated enum payload")));
            }
            let raw_variant = copy_range(&rhs, 0, open);
            let variant = trim_chars(&raw_variant);
            let src = copy_range(&rhs, open + 1, m - 1);
            let parts = split_top_level(&src, ',');
            proof {
                lemma_split_short(src@, ',');
                assert forall|j: int| 0 <= j < parts@.len() implies (#[trigger] parts@[j])@.len() < m by {
                    assert(texts(parts@)[j] == parts@[j]@);
                }
            }
            if has_colon(&parts) {
                match parse_fields(&parts, m) {
                    Ok(fs) => Ok(sum_value(label, text_of(&variant), CtnPayload::Struct(fs))),
                    Err(e) => Err(e),
                }
            } else {
                match parse_items(&parts, true, m) {
                    Ok(vs) => Ok(sum_value(label, text_of(&variant), CtnPayload::Tuple(vs))),
                    Err(e) => Err(e),
                }
            }
        },
    }
}

/// Reads a one-line CTN expression: a scalar, a quoted, tagged or
/// triple-quoted string, a byte literal, a reference, a symbol, or an
/// inline sequence, tuple, map or enum variant.
pub fn parse_inline_expr(t: &Vec<char>) -> (r: Result<CtnValue, SurpError>)
    ensures
        match inline_value(t@) {
            Ok(v) => r matches Ok(x) && x@ == v,
            Err(e) => r matches Err(x) && x@ == e,
        },
    decreases t@.len() + 1, 0nat,
{
    let s = trim_chars(t);
    proof {
        lemma_trimmed_len(t@);
    }
    let n = s.len();
    if n == 0 {
        return Err(SurpError::InvalidData(String::from_str("empty inline expression")));
    }
    if is_lit(&s, "null") {
        return Ok(scalar(CtnScalar::Null));
    }
    if is_lit(&s, "unit") {
        return Ok(scalar(CtnScalar::Unit));
    }
    if is_lit(&s, "true") {
        return Ok(scalar(CtnScalar::Bool(true)));
    }
    if is_lit(&s, "false") {
        return Ok(scalar(CtnScalar::Bool(false)));
    }
    if s[0] == '&' {
        let raw = copy_range(&s, 1, n);
        let name = trim_chars(&raw);
        if is_identifier(&name) {
            return Ok(CtnValue::RefBinding(text_of(&name)));
        }
        return Err(quoted_error("invalid reference name '", &name));
    }
    if starts_lit(&s, "ref ") {
        let pv = chars_of("ref ");
        let rest = copy_range(&s, pv.len(), n);
        proof {
            reveal_strlit("ref ");
        }
        return match parse_inline_expr(&rest) {
            Ok(v) => Ok(CtnValue::RefById(Box::new(v))),
            Err(e) => Err(e),
        };
    }
    if starts_lit(&s, "\"\"\"") {
        if ends_lit(&s, "\"\"\"") && n >= 6 {
            return Ok(scalar(CtnScalar::Str(string_of(&s, 3, n - 3))));
        }
        return Err(SurpError::InvalidData(String::from_str("invalid triple-quoted string literal")));
    }
    if s[0] == '"' {
        return match parse_quoted_string(&s) {
            Ok(v) => Ok(scalar(CtnScalar::Str(text_of(&v)))),
            Err(e) => Err(e),
        };
    }
    if starts_lit(&s, "b64\"") {
        if n < 5 || s[n - 1] != '"' {
            return Err(SurpError::InvalidData(String::from_str("unterminated base64 bytes literal")));
        }
        let payload = string_of(&s, 4, n - 1);
        return match base64_decode(payload.as_str()) {
            Ok(b) => Ok(scalar(CtnScalar::Bytes(b))),
            Err(m) => Err(SurpError::InvalidBase64(m)),
        };
    }
    if starts_lit(&s, "b\"") {
        if n < 3 || s[n - 1] != '"' {
            return Err(SurpError::InvalidData(String::from_str("unterminated hex bytes literal")));
        }
        let payload = copy_range(&s, 2, n - 1);
        return match parse_hex_compact(&payload) {
            Ok(b) => Ok(scalar(CtnScalar::Bytes(b))),
            Err(e) => Err(e),
        };
    }
    if s[0] == '<' && s[n - 1] == '>' {
        let payload = copy_range(&s, 1, n - 1);
        return match parse_hex_spaced(&payload) {
            Ok(b) => Ok(scalar(CtnScalar::Bytes(b))),
            Err(e) => Err(e),
        };
    }
    match parse_prefixed(&s) {
        Err(e) => {
            return Err(e);
        },
        Ok(Some((tag, v))) => {
            return Ok(scalar(CtnScalar::Tagged { tag: text_of(&tag), value: text_of(&v) }));
        },
        Ok(None) => {},
    }
    if s[0] == '\'' {
        let sym = copy_range(&s, 1, n);
        if is_identifier(&sym) {
            return Ok(scalar(CtnScalar::Sym(text_of(&sym))));
        }
        return Err(quoted_error("invalid symbol '", &sym));
    }
    proof {
        lemma_first_of(s@, '[', 0);
    }
    let open_bracket = find_char(&s, '[', 0);
    if starts_lit(&s, "map<") && open_bracket.is_some() && s[n - 1] == ']' {
        let open = open_bracket.unwrap();
        let inside = if open + 1 <= n - 1 {
            copy_range(&s, open + 1, n - 1)
        } else {
            Vec::new()
        };
        let parts = split_top_level(&inside, ',');
        proof {
            lemma_first_of(s@, '[', 0);
            lemma_split_short(inside@, ',');
            assert forall|j: int| 0 <= j < parts@.len() implies (#[trigger] parts@[j])@.len() < n by {
                assert(texts(parts@)[j] == parts@[j]@);
            }
        }
        return match parse_pairs(&parts, n) {
            Ok(ps) => Ok(CtnValue::Association(ps)),
            Err(e) => Err(e),
        };
    }
    if s[0] == '[' && s[n - 1] == ']' {
        let inside = copy_range(&s, 1, n - 1);
        let parts = split_top_level(&inside, ',');
        proof {
            lemma_split_short(inside@, ',');
            assert forall|j: int| 0 <= j < parts@.len() implies (#[trigger] parts@[j])@.len() < n by {
                assert(texts(parts@)[j] == parts@[j]@);
            }
        }
        return match parse_items(&parts, true, n) {
            Ok(vs) => Ok(seq_value(vs)),
            Err(e) => Err(e),
        };
    }
    if s[0] == '(' && s[n - 1] == ')' {
        let inside = copy_range(&s, 1, n - 1);
        let ti = trim_chars(&inside);
        if ti.len() == 0 {
            return Ok(seq_value(Vec::new()));
        }
        let parts = split_top_level(&inside, ',');
        proof {
            lemma_split_short(inside@, ',');
            assert forall|j: int| 0 <= j < parts@.len() implies (#[trigger] parts@[j])@.len() < n by {
                assert(texts(parts@)[j] == parts@[j]@);
            }
        }
        return match parse_items(&parts, false, n) {
            Ok(vs) => Ok(seq_value(vs)),
            Err(e) => Err(e),
        };
    }
    proof {
        lemma_first_pair(s@, ':', ':', 0);
    }
    match find_pair(&s, ':', ':') {
        Some(k) => {
            return parse_inline_sum(&s, k);
        },
        None => {},
    }
    match parse_numeric_literal(&s) {
        Err(e) => {
            return Err(e);
        },
        Ok(Some(x)) => {
            return Ok(scalar(x));
        },
        Ok(None) => {},
    }
    if is_identifier_path(&s) {
        return Ok(scalar(CtnScalar::Sym(text_of(&s))));
    }
    Err(quoted_error("unable to parse inline expression '", &s))
}

} // verus!

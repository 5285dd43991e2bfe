//! The reader of CTN documents: the block parser over preprocessed lines,
//! `parse_document` and `parse_value`.

use crate::cql::{copy_range, trim_chars, trimmed};
use crate::ctn::{
    anns_m, fields_m, pairs_m, strings_m, values_m, CtnAnnotation, CtnBinding, CtnDocument, CtnField,
    CtnPayload, CtnTensorData, CtnValue, CtnValueM, TensorDataM,
};
use crate::ctn_expr::{
    is_lit, lemma_fields_push, lemma_pairs_push, lemma_values_push, parse_inline_expr, starts, starts_lit,
    text_of,
};
use crate::ctn_lex::{find_char, find_pair, first_of, first_pair, is_identifier, is_identifier_path, lemma_first_of, lemma_first_pair};
use crate::ctn_lines::{line_error, lines_m, preprocess_lines, Line, LineM};
use crate::ctn_parse::{
    binary_placeholder, block_header, child, entry_loop, field_child, field_loop, generic_type_arg, header,
    internal, item_loop, parse_annotation_line, parse_shape, rhs_value, tensor_header, type_header, value_at,
    map_block, seq_block, struct_block, sum_block, stream_block, tensor_block, tensor_rows, ann_lines,
    number_texts, numbers, AnnM, ctn_document, ctn_value, doc_from, DocM, DocItem,
};
use crate::text::chars_of;
use crate::error::{ErrorModel, SurpError};
use crate::render::push_text;
use crate::cql::push_chars;
use vstd::prelude::*;

verus! {

/// `r` is what the grammar gives, `s`.
pub open spec fn agrees(r: Result<(CtnValue, usize), SurpError>, s: Result<(CtnValueM, nat), ErrorModel>) -> bool {
    match s {
        Ok((v, n)) => r matches Ok((x, m)) && x@ == v && m == n,
        Err(e) => r matches Err(x) && x@ == e,
    }
}

/// `pre` before the items of `r`.
pub open spec fn joined_end<A>(pre: Seq<A>, r: Result<(Seq<A>, nat), ErrorModel>) -> Result<(Seq<A>, nat), ErrorModel> {
    match r {
        Ok((s, e)) => Ok((pre + s, e)),
        Err(e) => Err(e),
    }
}

/// The error `m` at line `number`.
fn line_err(number: usize, m: &str) -> (e: SurpError)
    ensures
        e@ == line_error(number as nat, m@),
{
    let line = if number == 0 {
        1
    } else {
        number
    };
    let mut s = String::new();
    push_text(&mut s, m);
    SurpError::ParseError { line, col: 1, message: s }
}

/// The error `prefix`, `x` and a closing quote at line `number`.
fn line_err_quoted(number: usize, prefix: &str, x: &Vec<char>) -> (e: SurpError)
    ensures
        e@ == line_error(number as nat, prefix@ + x@ + "'"@),
{
    let line = if number == 0 {
        1
    } else {
        number
    };
    let mut s = String::new();
    push_text(&mut s, prefix);
    push_chars(&mut s, x, 0, x.len());
    push_text(&mut s, "'");
    proof {
        assert(x@.subrange(0, x@.len() as int) =~= x@);
        assert(s@ =~= prefix@ + x@ + "'"@);
    }
    SurpError::ParseError { line, col: 1, message: s }
}

fn is_child(ls: &Vec<Line>, idx: usize, ind: usize) -> (r: bool)
    ensures
        r == child(lines_m(ls@), idx as nat, ind as nat),
{
    let n = ls.len();
    idx < n && idx + 1 < n && ls[idx + 1].indent > ind
}

fn is_field_child(ls: &Vec<Line>, idx: usize, ind: usize) -> (r: bool)
    ensures
        r == field_child(lines_m(ls@), idx as nat, ind as nat),
{
    let _n = ls.len();
    if !is_child(ls, idx, ind) {
        return false;
    }
    proof {
        lemma_first_of(ls@[idx + 1].text@, '=', 0);
    }
    find_char(&ls[idx + 1].text, '=', 0).is_some()
}

fn is_type_header(t: &Vec<char>) -> (r: bool)
    ensures
        r == type_header(t@),
{
    is_lit(t, "struct") || is_identifier_path(t)
}

fn is_block_header(h: &Vec<char>) -> (r: bool)
    ensures
        r == block_header(h@),
{
    let s = trim_chars(h);
    proof {
        lemma_first_pair(s@, ':', ':', 0);
    }
    starts_lit(&s, "map<") || starts_lit(&s, "seq<") || starts_lit(&s, "vec<") || starts_lit(&s, "tensor<")
        || starts_lit(&s, "mat<") || starts_lit(&s, "stream<") || find_pair(&s, ':', ':').is_some()
        || is_type_header(&s)
}

/// Reads the value whose header is line `idx`.
#[verifier::spinoff_prover]
#[verifier::rlimit(60)]
fn value_at_x(ls: &Vec<Line>, idx: usize) -> (r: Result<(CtnValue, usize), SurpError>)
    ensures
        agrees(r, value_at(lines_m(ls@), idx as nat)),
    decreases ls@.len() - idx, 3nat,
{
    proof {
        reveal(value_at);
    }
    if idx >= ls.len() {
        return Err(line_err(0, "internal parser index out of bounds"));
    }
    proof {
        assert(lines_m(ls@)[idx as int] == ls@[idx as int]@);
    }
    let t = trim_chars(&ls[idx].text);
    header_x(ls, &t, idx, ls[idx].indent)
}

/// Reads the value on the right of `=` on line `li`.
#[verifier::spinoff_prover]
#[verifier::rlimit(60)]
fn rhs_x(ls: &Vec<Line>, rhs: &Vec<char>, li: usize, ind: usize) -> (r: Result<(CtnValue, usize), SurpError>)
    ensures
        agrees(r, rhs_value(lines_m(ls@), rhs@, li as nat, ind as nat)),
    decreases ls@.len() - li, 3nat,
{
    proof {
        reveal(rhs_value);
    }
    if li >= ls.len() {
        return Err(line_err(0, "internal parser index out of bounds"));
    }
    proof {
        assert(lines_m(ls@)[li as int] == ls@[li as int]@);
        if li + 1 < ls@.len() {
            assert(lines_m(ls@)[li + 1] == ls@[li + 1]@);
        }
    }
    if rhs.len() == 0 {
        if li + 1 >= ls.len() {
            return Err(line_err(ls[li].number, "expected value after '='"));
        }
        if ls[li + 1].indent <= ind {
            return Err(line_err(ls[li].number, "expected indented value after '='"));
        }
        return value_at_x(ls, li + 1);
    }
    if is_child(ls, li, ind) && is_block_header(rhs) {
        return header_x(ls, rhs, li, ind);
    }
    match parse_inline_expr(rhs) {
        Ok(v) => Ok((v, li + 1)),
        Err(e) => Err(e),
    }
}

/// Reads the value whose header text `h` stands on line `li`.
fn header_x(ls: &Vec<Line>, h: &Vec<char>, li: usize, ind: usize) -> (r: Result<(CtnValue, usize), SurpError>)
    ensures
        agrees(r, header(lines_m(ls@), h@, li as nat, ind as nat)),
    decreases ls@.len() - li, 2nat,
{
    proof {
        reveal(header);
    }
    if li >= ls.len() {
        return Err(line_err(0, "internal parser index out of bounds"));
    }
    let t = trim_chars(h);
    let ch = is_child(ls, li, ind);
    proof {
        lemma_first_of(t@, '[', 0);
        lemma_first_of(t@, '(', 0);
        lemma_first_pair(t@, ':', ':', 0);
    }
    if starts_lit(&t, "map<") && find_char(&t, '[', 0).is_none() && ch {
        return map_x(ls, li, ind);
    }
    if starts_lit(&t, "seq<") && ch {
        return seq_x(ls, &t, li, ind);
    }
    if (starts_lit(&t, "vec<") || starts_lit(&t, "tensor<") || starts_lit(&t, "mat<")) && ch {
        return tensor_x(ls, &t, li, ind);
    }
    if starts_lit(&t, "stream<") {
        return stream_x(ls, &t, li, ind);
    }
    if find_pair(&t, ':', ':').is_some() && ch && find_char(&t, '(', 0).is_none() {
        return sum_x(ls, &t, li, ind);
    }
    if is_type_header(&t) && is_field_child(ls, li, ind) {
        return struct_x(ls, &t, li, ind);
    }
    match parse_inline_expr(&t) {
        Ok(v) => Ok((v, li + 1)),
        Err(e) => Err(e),
    }
}

/// Reads the `name = value` lines from `start` on.
#[verifier::spinoff_prover]
#[verifier::rlimit(60)]
fn fields_x(ls: &Vec<Line>, start: usize, parent: usize, cind: usize, sum: bool) -> (r: Result<(Vec<CtnField>, usize), SurpError>)
    requires
        start <= ls@.len(),
    ensures
        match field_loop(lines_m(ls@), start as nat, parent as nat, cind as nat, sum) {
            Ok((fs, end)) => r matches Ok((x, m)) && fields_m(x@) == fs && m == end,
            Err(e) => r matches Err(x) && x@ == e,
        },
    decreases ls@.len() - start, 4nat,
{
    let ghost lm = lines_m(ls@);
    let mut out: Vec<CtnField> = Vec::new();
    let mut idx = start;
    proof {
        match field_loop(lm, start as nat, parent as nat, cind as nat, sum) {
            Ok((x, e)) => {
                assert(fields_m(out@) + x =~= x);
            },
            Err(_) => {},
        }
    }
    while idx < ls.len() && ls[idx].indent > parent
        invariant
            start <= idx <= ls@.len(),
            lm == lines_m(ls@),
            field_loop(lm, start as nat, parent as nat, cind as nat, sum) == joined_end(
                fields_m(out@),
                field_loop(lm, idx as nat, parent as nat, cind as nat, sum),
            ),
        decreases ls@.len() - idx,
    {
        let l = &ls[idx];
        if l.indent != cind {
            return Err(line_err(l.number, if sum {
                "inconsistent indentation in enum payload"
            } else {
                "inconsistent indentation in struct fields"
            }));
        }
        let n = l.text.len();
        proof {
            lemma_first_of(l.text@, '=', 0);
        }
        match find_char(&l.text, '=', 0) {
            None => {
                return Err(line_err_quoted(l.number, "expected separator '=' in '", &l.text));
            },
            Some(k) => {
                let raw = copy_range(&l.text, 0, k);
                let name = trim_chars(&raw);
                if !is_identifier(&name) {
                    return Err(line_err_quoted(l.number, if sum {
                        "invalid payload field '"
                    } else {
                        "invalid field name '"
                    }, &name));
                }
                let rraw = copy_range(&l.text, k + 1, n);
                let rhs = trim_chars(&rraw);
                match rhs_x(ls, &rhs, idx, l.indent) {
                    Err(e) => {
                        return Err(e);
                    },
                    Ok((v, next)) => {
                        if next <= idx || next > ls.len() {
                            return Err(line_err(0, "internal parser index out of bounds"));
                        }
                        let f = CtnField { name: text_of(&name), value: v };
                        proof {
                            lemma_fields_push(out@, f);
                            match field_loop(lm, next as nat, parent as nat, cind as nat, sum) {
                                Ok((x, e)) => {
                                    assert(fields_m(out@) + (seq![(f.name@, f.value@)] + x) =~= fields_m(out@).push((f.name@, f.value@)) + x);
                                },
                                Err(_) => {},
                            }
                        }
                        out.push(f);
                        idx = next;
                    },
                }
            },
        }
    }
    proof {
        assert(fields_m(out@) + Seq::<(Seq<char>, CtnValueM)>::empty() =~= fields_m(out@));
    }
    Ok((out, idx))
}

/// Reads the item lines from `start` on.
#[verifier::spinoff_prover]
#[verifier::rlimit(60)]
fn items_x(ls: &Vec<Line>, start: usize, parent: usize, cind: usize) -> (r: Result<(Vec<CtnValue>, usize), SurpError>)
    requires
        start <= ls@.len(),
    ensures
        match item_loop(lines_m(ls@), start as nat, parent as nat, cind as nat) {
            Ok((vs, end)) => r matches Ok((x, m)) && values_m(x@) == vs && m == end,
            Err(e) => r matches Err(x) && x@ == e,
        },
    decreases ls@.len() - start, 4nat,
{
    let ghost lm = lines_m(ls@);
    let mut out: Vec<CtnValue> = Vec::new();
    let mut idx = start;
    proof {
        match item_loop(lm, start as nat, parent as nat, cind as nat) {
            Ok((x, e)) => {
                assert(values_m(out@) + x =~= x);
            },
            Err(_) => {},
        }
    }
    while idx < ls.len() && ls[idx].indent > parent
        invariant
            start <= idx <= ls@.len(),
            lm == lines_m(ls@),
            item_loop(lm, start as nat, parent as nat, cind as nat) == joined_end(
                values_m(out@),
                item_loop(lm, idx as nat, parent as nat, cind as nat),
            ),
        decreases ls@.len() - idx,
    {
        if ls[idx].indent != cind {
            return Err(line_err(ls[idx].number, "inconsistent indentation in sequence"));
        }
        match value_at_x(ls, idx) {
            Err(e) => {
                return Err(e);
            },
            Ok((v, next)) => {
                if next <= idx || next > ls.len() {
                    return Err(line_err(0, "internal parser index out of bounds"));
                }
                proof {
                    lemma_values_push(out@, v);
                    match item_loop(lm, next as nat, parent as nat, cind as nat) {
                        Ok((x, e)) => {
                            assert(values_m(out@) + (seq![v@] + x) =~= values_m(out@).push(v@) + x);
                        },
                        Err(_) => {},
                    }
                }
                out.push(v);
                idx = next;
            },
        }
    }
    proof {
        assert(values_m(out@) + Seq::<CtnValueM>::empty() =~= values_m(out@));
    }
    Ok((out, idx))
}

/// Reads the `key => value` lines from `start` on.
#[verifier::spinoff_prover]
#[verifier::rlimit(60)]
fn entries_x(ls: &Vec<Line>, start: usize, parent: usize, cind: usize) -> (r: Result<(Vec<(CtnValue, CtnValue)>, usize), SurpError>)
    requires
        start <= ls@.len(),
    ensures
        match entry_loop(lines_m(ls@), start as nat, parent as nat, cind as nat) {
            Ok((ps, end)) => r matches Ok((x, m)) && pairs_m(x@) == ps && m == end,
            Err(e) => r matches Err(x) && x@ == e,
        },
    decreases ls@.len() - start, 4nat,
{
    let ghost lm = lines_m(ls@);
    let mut out: Vec<(CtnValue, CtnValue)> = Vec::new();
    let mut idx = start;
    proof {
        match entry_loop(lm, start as nat, parent as nat, cind as nat) {
            Ok((x, e)) => {
                assert(pairs_m(out@) + x =~= x);
            },
            Err(_) => {},
        }
    }
    while idx < ls.len() && ls[idx].indent > parent
        invariant
            start <= idx <= ls@.len(),
            lm == lines_m(ls@),
            entry_loop(lm, start as nat, parent as nat, cind as nat) == joined_end(
                pairs_m(out@),
                entry_loop(lm, idx as nat, parent as nat, cind as nat),
            ),
        decreases ls@.len() - idx,
    {
        let l = &ls[idx];
        if l.indent != cind {
            return Err(line_err(l.number, "inconsistent indentation in map"));
        }
        let n = l.text.len();
        proof {
            lemma_first_pair(l.text@, '=', '>', 0);
        }
        match find_pair(&l.text, '=', '>') {
            None => {
                return Err(line_err_quoted(l.number, "expected separator '=>' in '", &l.text));
            },
            Some(k) => {
                let lhs = copy_range(&l.text, 0, k);
                let key = match parse_inline_expr(&lhs) {
                    Ok(x) => x,
                    Err(e) => {
                        return Err(e);
                    },
                };
                let rraw = copy_range(&l.text, k + 2, n);
                let rhs = trim_chars(&rraw);
                match rhs_x(ls, &rhs, idx, l.indent) {
                    Err(e) => {
                        return Err(e);
                    },
                    Ok((v, next)) => {
                        if next <= idx || next > ls.len() {
                            return Err(line_err(0, "internal parser index out of bounds"));
                        }
                        proof {
                            lemma_pairs_push(out@, (key, v));
                            match entry_loop(lm, next as nat, parent as nat, cind as nat) {
                                Ok((x, e)) => {
                                    assert(pairs_m(out@) + (seq![(key@, v@)] + x) =~= pairs_m(out@).push((key@, v@)) + x);
                                },
                                Err(_) => {},
                            }
                        }
                        out.push((key, v));
                        idx = next;
                    },
                }
            },
        }
    }
    proof {
        assert(pairs_m(out@) + Seq::<(CtnValueM, CtnValueM)>::empty() =~= pairs_m(out@));
    }
    Ok((out, idx))
}

fn struct_x(ls: &Vec<Line>, t: &Vec<char>, li: usize, ind: usize) -> (r: Result<(CtnValue, usize), SurpError>)
    ensures
        agrees(r, struct_block(lines_m(ls@), t@, li as nat, ind as nat)),
    decreases ls@.len() - li, 1nat,
{
    if li >= ls.len() {
        return Err(line_err(0, "internal parser index out of bounds"));
    }
    if li + 1 >= ls.len() {
        return Err(line_err(ls[li].number, "expected fields"));
    }
    let label = if is_lit(t, "struct") {
        None
    } else {
        Some(text_of(t))
    };
    match fields_x(ls, li + 1, ind, ls[li + 1].indent, false) {
        Ok((fs, next)) => Ok((CtnValue::Product { type_label: label, fields: fs }, next)),
        Err(e) => Err(e),
    }
}

fn sum_x(ls: &Vec<Line>, t: &Vec<char>, li: usize, ind: usize) -> (r: Result<(CtnValue, usize), SurpError>)
    ensures
        agrees(r, sum_block(lines_m(ls@), t@, li as nat, ind as nat)),
    decreases ls@.len() - li, 1nat,
{
    if li >= ls.len() {
        return Err(line_err(0, "internal parser index out of bounds"));
    }
    let n = t.len();
    proof {
        lemma_first_pair(t@, ':', ':', 0);
    }
    let k = match find_pair(t, ':', ':') {
        None => {
            return Err(line_err(0, "internal parser index out of bounds"));
        },
        Some(k) => k,
    };
    let lraw = copy_range(t, 0, k);
    let left = trim_chars(&lraw);
    let label = if left.len() == 0 {
        None
    } else {
        Some(text_of(&left))
    };
    let vraw = copy_range(t, k + 2, n);
    let variant = trim_chars(&vraw);
    if variant.len() == 0 {
        return Err(line_err(ls[li].number, "missing enum variant name"));
    }
    if li + 1 >= ls.len() {
        return Err(line_err(ls[li].number, "expected variant payload"));
    }
    match fields_x(ls, li + 1, ind, ls[li + 1].indent, true) {
        Ok((fs, next)) => Ok((
            CtnValue::Sum { type_label: label, variant: text_of(&variant), payload: CtnPayload::Struct(fs) },
            next,
        )),
        Err(e) => Err(e),
    }
}

fn seq_x(ls: &Vec<Line>, t: &Vec<char>, li: usize, ind: usize) -> (r: Result<(CtnValue, usize), SurpError>)
    ensures
        agrees(r, seq_block(lines_m(ls@), t@, li as nat, ind as nat)),
    decreases ls@.len() - li, 1nat,
{
    if li >= ls.len() {
        return Err(line_err(0, "internal parser index out of bounds"));
    }
    if li + 1 >= ls.len() {
        return Err(line_err(ls[li].number, "expected sequence elements"));
    }
    let elem = match generic_type_arg(t) {
        Some(a) => Some(text_of(&a)),
        None => None,
    };
    match items_x(ls, li + 1, ind, ls[li + 1].indent) {
        Ok((vs, next)) => Ok((CtnValue::Sequence { elem_type: elem, items: vs }, next)),
        Err(e) => Err(e),
    }
}

fn map_x(ls: &Vec<Line>, li: usize, ind: usize) -> (r: Result<(CtnValue, usize), SurpError>)
    ensures
        agrees(r, map_block(lines_m(ls@), li as nat, ind as nat)),
    decreases ls@.len() - li, 1nat,
{
    if li >= ls.len() {
        return Err(line_err(0, "internal parser index out of bounds"));
    }
    if li + 1 >= ls.len() {
        return Err(line_err(ls[li].number, "expected map entries"));
    }
    match entries_x(ls, li + 1, ind, ls[li + 1].indent) {
        Ok((ps, next)) => Ok((CtnValue::Association(ps), next)),
        Err(e) => Err(e),
    }
}

/// `pre` annotations before those of `r`.
pub open spec fn joined_anns(pre: Seq<AnnM>, r: Result<(Seq<AnnM>, nat), ErrorModel>) -> Result<(Seq<AnnM>, nat), ErrorModel> {
    match r {
        Ok((s, e)) => Ok((pre + s, e)),
        Err(e) => Err(e),
    }
}

fn stream_x(ls: &Vec<Line>, t: &Vec<char>, li: usize, ind: usize) -> (r: Result<(CtnValue, usize), SurpError>)
    requires
        li < ls@.len(),
    ensures
        agrees(r, stream_block(lines_m(ls@), t@, li as nat, ind as nat)),
{
    let ghost lm = lines_m(ls@);
    let _n = ls.len();
    let item = match generic_type_arg(t) {
        Some(a) => text_of(&a),
        None => String::from_str("any"),
    };
    let mut out: Vec<CtnAnnotation> = Vec::new();
    let mut idx = li + 1;
    proof {
        match ann_lines(lm, (li + 1) as nat, ind as nat) {
            Ok((x, e)) => {
                assert(anns_m(out@) + x =~= x);
            },
            Err(_) => {},
        }
    }
    while idx < ls.len() && ls[idx].indent > ind
        invariant
            li < idx <= ls@.len(),
            lm == lines_m(ls@),
            ann_lines(lm, (li + 1) as nat, ind as nat) == joined_anns(anns_m(out@), ann_lines(lm, idx as nat, ind as nat)),
        decreases ls@.len() - idx,
    {
        let tt = trim_chars(&ls[idx].text);
        if !starts_lit(&tt, "@") {
            return Err(line_err(ls[idx].number, "stream body currently supports annotations only"));
        }
        let a = match parse_annotation_line(&tt) {
            Ok(a) => a,
            Err(e) => {
                return Err(e);
            },
        };
        proof {
            assert(anns_m(out@.push(a)) =~= anns_m(out@).push(a@));
            match ann_lines(lm, (idx + 1) as nat, ind as nat) {
                Ok((x, e)) => {
                    assert(anns_m(out@) + (seq![a@] + x) =~= anns_m(out@).push(a@) + x);
                },
                Err(_) => {},
            }
        }
        out.push(a);
        idx = idx + 1;
    }
    proof {
        assert(anns_m(out@) + Seq::<AnnM>::empty() =~= anns_m(out@));
    }
    Ok((CtnValue::Stream { item_type: item, annotations: out }, idx))
}

/// What the rest of a tensor body adds to what came before it.
pub open spec fn joined_rows(
    a: Seq<AnnM>,
    d: Seq<Seq<char>>,
    b: Option<nat>,
    r: Result<(Seq<AnnM>, Seq<Seq<char>>, Option<nat>, nat), ErrorModel>,
) -> Result<(Seq<AnnM>, Seq<Seq<char>>, Option<nat>, nat), ErrorModel> {
    match r {
        Ok((a2, d2, b2, e)) => Ok((a + a2, d + d2, if b2 is Some {
            b2
        } else {
            b
        }, e)),
        Err(e) => Err(e),
    }
}

fn append_strings(dense: &mut Vec<String>, xs: &Vec<String>)
    ensures
        strings_m(final(dense)@) == strings_m(old(dense)@) + strings_m(xs@),
{
    let ghost before = strings_m(dense@);
    let mut j: usize = 0;
    while j < xs.len()
        invariant
            j <= xs@.len(),
            strings_m(dense@) == before + strings_m(xs@).subrange(0, j as int),
        decreases xs@.len() - j,
    {
        let c = xs[j].clone();
        let ghost d0 = dense@;
        dense.push(c);
        proof {
            assert(strings_m(dense@) =~= strings_m(d0).push(c@));
            assert(strings_m(xs@)[j as int] == c@);
            assert(strings_m(dense@) =~= before + strings_m(xs@).subrange(0, j + 1));
        }
        j = j + 1;
    }
    proof {
        assert(strings_m(xs@).subrange(0, j as int) =~= strings_m(xs@));
    }
}

enum Row {
    Ann(CtnAnnotation),
    Blob(usize),
    Nums(Vec<String>),
}

/// Reads one line of a tensor body.
fn tensor_row(tt: &Vec<char>) -> (r: Result<Row, SurpError>)
    ensures
        match crate::ctn_parse::row(tt@) {
            Ok(crate::ctn_parse::RowM::Ann(a)) => r matches Ok(Row::Ann(x)) && x@ == a,
            Ok(crate::ctn_parse::RowM::Blob(n)) => r matches Ok(Row::Blob(m)) && m as nat == n,
            Ok(crate::ctn_parse::RowM::Nums(xs)) => r matches Ok(Row::Nums(ys)) && strings_m(ys@) == xs,
            Err(e) => r matches Err(x) && x@ == e,
        },
{
    proof {
        reveal(crate::ctn_parse::row);
    }
    if starts_lit(tt, "@") {
        return match parse_annotation_line(tt) {
            Ok(a) => Ok(Row::Ann(a)),
            Err(e) => Err(e),
        };
    }
    match binary_placeholder(tt) {
        Some(b) => Ok(Row::Blob(b)),
        None => {
            let v = match parse_inline_expr(tt) {
                Ok(v) => v,
                Err(e) => {
                    return Err(e);
                },
            };
            match number_texts(&v) {
                Ok(xs) => Ok(Row::Nums(xs)),
                Err(e) => Err(e),
            }
        },
    }
}

fn zeros(n: usize) -> (v: Vec<u8>)
    ensures
        v@ == Seq::new(n as nat, |i: int| 0u8),
{
    let mut v: Vec<u8> = Vec::new();
    let mut i: usize = 0;
    while i < n
        invariant
            i <= n,
            v@ == Seq::new(i as nat, |j: int| 0u8),
        decreases n - i,
    {
        v.push(0u8);
        i = i + 1;
        proof {
            assert(v@ =~= Seq::new(i as nat, |j: int| 0u8));
        }
    }
    v
}

#[verifier::spinoff_prover]
#[verifier::rlimit(100)]
fn tensor_x(ls: &Vec<Line>, t: &Vec<char>, li: usize, ind: usize) -> (r: Result<(CtnValue, usize), SurpError>)
    requires
        li < ls@.len(),
    ensures
        agrees(r, tensor_block(lines_m(ls@), t@, li as nat, ind as nat)),
{
    let ghost lm = lines_m(ls@);
    let _n = ls.len();
    let et = match generic_type_arg(t) {
        Some(a) => text_of(&a),
        None => String::from_str("f32"),
    };
    let dims_v = match parse_shape(t) {
        Ok(s) => s,
        Err(e) => {
            return Err(e);
        },
    };
    let mut anns: Vec<CtnAnnotation> = Vec::new();
    let mut dense: Vec<String> = Vec::new();
    let mut blob: Option<usize> = None;
    let mut idx = li + 1;
    proof {
        match tensor_rows(lm, (li + 1) as nat, ind as nat) {
            Ok((a2, d2, b2, e)) => {
                assert(anns_m(anns@) + a2 =~= a2);
                assert(strings_m(dense@) + d2 =~= d2);
            },
            Err(_) => {},
        }
    }
    while idx < ls.len() && ls[idx].indent > ind
        invariant
            li < idx <= ls@.len(),
            lm == lines_m(ls@),
            crate::ctn_parse::shape(t@) == Ok::<Seq<Option<u64>>, ErrorModel>(dims_v@),
            tensor_rows(lm, (li + 1) as nat, ind as nat) == joined_rows(
                anns_m(anns@),
                strings_m(dense@),
                match blob {
                    Some(b) => Some(b as nat),
                    None => None,
                },
                tensor_rows(lm, idx as nat, ind as nat),
            ),
        decreases ls@.len() - idx,
    {
        let tt = trim_chars(&ls[idx].text);
        proof {
            assert(lm[idx as int] == ls@[idx as int]@);
        }
        let rw = match tensor_row(&tt) {
            Ok(x) => x,
            Err(e) => {
                return Err(e);
            },
        };
        match rw {
            Row::Ann(a) => {
                proof {
                    assert(anns_m(anns@.push(a)) =~= anns_m(anns@).push(a@));
                    match tensor_rows(lm, (idx + 1) as nat, ind as nat) {
                        Ok((a2, d2, b2, e)) => {
                            assert(anns_m(anns@) + (seq![a@] + a2) =~= anns_m(anns@).push(a@) + a2);
                        },
                        Err(_) => {},
                    }
                }
                anns.push(a);
            },
            Row::Blob(b) => {
                blob = Some(b);
            },
            Row::Nums(xs) => {
                let ghost before = strings_m(dense@);
                append_strings(&mut dense, &xs);
                proof {
                    match tensor_rows(lm, (idx + 1) as nat, ind as nat) {
                        Ok((a2, d2, b2, e)) => {
                            assert(before + (strings_m(xs@) + d2) =~= strings_m(dense@) + d2);
                        },
                        Err(_) => {},
                    }
                }
            },
        }
        idx = idx + 1;
    }
    proof {
        assert(anns_m(anns@) + Seq::<AnnM>::empty() =~= anns_m(anns@));
        assert(strings_m(dense@) + Seq::<Seq<char>>::empty() =~= strings_m(dense@));
    }
    let data = match blob {
        Some(b) => CtnTensorData::BinaryBlob(zeros(b)),
        None => CtnTensorData::DenseF64(dense),
    };
    Ok((CtnValue::Tensor { element_type: et, shape: dims_v, data, annotations: anns }, idx))
}

/// The models of bindings.
pub open spec fn bindings_m(bs: Seq<CtnBinding>) -> Seq<(Seq<char>, CtnValueM)> {
    Seq::new(bs.len(), |i: int| (bs[i].name@, bs[i].value@))
}

/// The model of an optional value.
pub open spec fn opt_value(o: Option<CtnValue>) -> Option<CtnValueM> {
    match o {
        Some(v) => Some(v@),
        None => None,
    }
}

impl View for CtnDocument {
    type V = DocM;

    open spec fn view(&self) -> DocM {
        DocM {
            annotations: anns_m(self.annotations@),
            uses: strings_m(self.uses@),
            bindings: bindings_m(self.bindings@),
            root: opt_value(self.root),
        }
    }
}

/// The document `p` followed by the rest `r`; the later root wins.
pub open spec fn joined_doc(p: DocM, r: Result<DocM, ErrorModel>) -> Result<DocM, ErrorModel> {
    match r {
        Ok(d) => Ok(
            DocM {
                annotations: p.annotations + d.annotations,
                uses: p.uses + d.uses,
                bindings: p.bindings + d.bindings,
                root: if d.root is Some {
                    d.root
                } else {
                    p.root
                },
            },
        ),
        Err(e) => Err(e),
    }
}

enum Item {
    Ann(CtnAnnotation),
    Use(String),
    Bind(CtnBinding),
    Root(CtnValue),
}

/// Reads the item that the top-level line `idx` opens.
#[verifier::spinoff_prover]
#[verifier::rlimit(100)]
fn doc_line_x(ls: &Vec<Line>, idx: usize) -> (r: Result<(Item, usize), SurpError>)
    requires
        idx < ls@.len(),
    ensures
        match crate::ctn_parse::doc_line(lines_m(ls@), idx as nat) {
            Ok((DocItem::Ann(a), n)) => r matches Ok((Item::Ann(x), m)) && x@ == a && m == n,
            Ok((DocItem::Use(u), n)) => r matches Ok((Item::Use(x), m)) && x@ == u && m == n,
            Ok((DocItem::Bind(nm, v), n)) => r matches Ok((Item::Bind(x), m)) && x.name@ == nm && x.value@ == v && m == n,
            Ok((DocItem::Root(v), n)) => r matches Ok((Item::Root(x), m)) && x@ == v && m == n,
            Err(e) => r matches Err(x) && x@ == e,
        },
{
    let _n = ls.len();
    proof {
        reveal(crate::ctn_parse::doc_line);
        reveal_strlit("use ");
        reveal_strlit("let ");
    }
    let l = &ls[idx];
    proof {
        assert(lines_m(ls@)[idx as int] == ls@[idx as int]@);
    }
    let t = trim_chars(&l.text);
    let n = t.len();
    if starts_lit(&t, "@") {
        return match parse_annotation_line(&t) {
            Ok(a) => Ok((Item::Ann(a), idx + 1)),
            Err(e) => Err(e),
        };
    }
    if starts_lit(&t, "use ") {
        let raw = copy_range(&t, 4, n);
        let u = trim_chars(&raw);
        return Ok((Item::Use(text_of(&u)), idx + 1));
    }
    if starts_lit(&t, "let ") {
        let r = copy_range(&t, 4, n);
        let rn = r.len();
        proof {
            lemma_first_of(r@, '=', 0);
        }
        let k = match find_char(&r, '=', 0) {
            None => {
                return Err(line_err_quoted(l.number, "expected separator '=' in '", &r));
            },
            Some(k) => k,
        };
        let nraw = copy_range(&r, 0, k);
        let name = trim_chars(&nraw);
        if !is_identifier(&name) {
            return Err(line_err_quoted(l.number, "invalid binding name '", &name));
        }
        let rraw = copy_range(&r, k + 1, rn);
        let rhs = trim_chars(&rraw);
        return match rhs_x(ls, &rhs, idx, l.indent) {
            Err(e) => Err(e),
            Ok((v, next)) => Ok((Item::Bind(CtnBinding { name: text_of(&name), value: v }), next)),
        };
    }
    match value_at_x(ls, idx) {
        Err(e) => Err(e),
        Ok((v, next)) => Ok((Item::Root(v), next)),
    }
}

/// Parses a complete CTN document: annotations (`@name value`), `use`
/// lines, `let` bindings and a root value, each of which may span an
/// indented block of lines.
pub fn parse_document(input: &str) -> (r: Result<CtnDocument, SurpError>)
    ensures
        match ctn_document(input@) {
            Ok(d) => r matches Ok(x) && x@ == d,
            Err(e) => r matches Err(x) && x@ == e,
        },
{
    let chars = chars_of(input);
    let ls = match preprocess_lines(&chars) {
        Ok(l) => l,
        Err(e) => {
            return Err(e);
        },
    };
    let ghost lm = lines_m(ls@);
    let mut annotations: Vec<CtnAnnotation> = Vec::new();
    let mut uses: Vec<String> = Vec::new();
    let mut bindings: Vec<CtnBinding> = Vec::new();
    let mut root: Option<CtnValue> = None;
    let mut idx: usize = 0;
    proof {
        match doc_from(lm, 0) {
            Ok(d) => {
                assert(anns_m(annotations@) + d.annotations =~= d.annotations);
                assert(strings_m(uses@) + d.uses =~= d.uses);
                assert(bindings_m(bindings@) + d.bindings =~= d.bindings);
            },
            Err(_) => {},
        }
    }
    while idx < ls.len()
        invariant
            idx <= ls@.len(),
            lm == lines_m(ls@),
            ctn_document(input@) == doc_from(lm, 0),
            doc_from(lm, 0) == joined_doc(
                DocM {
                    annotations: anns_m(annotations@),
                    uses: strings_m(uses@),
                    bindings: bindings_m(bindings@),
                    root: opt_value(root),
                },
                doc_from(lm, idx as nat),
            ),
        decreases ls@.len() - idx,
    {
        let (it, next) = match doc_line_x(&ls, idx) {
            Ok(x) => x,
            Err(e) => {
                return Err(e);
            },
        };
        if next <= idx || next > ls.len() {
            return Err(line_err(0, "internal parser index out of bounds"));
        }
        match it {
            Item::Ann(a) => {
                proof {
                    assert(anns_m(annotations@.push(a)) =~= anns_m(annotations@).push(a@));
                    match doc_from(lm, next as nat) {
                        Ok(d) => {
                            assert(anns_m(annotations@) + (seq![a@] + d.annotations) =~= anns_m(annotations@).push(a@) + d.annotations);
                        },
                        Err(_) => {},
                    }
                }
                annotations.push(a);
            },
            Item::Use(us) => {
                proof {
                    assert(strings_m(uses@.push(us)) =~= strings_m(uses@).push(us@));
                    match doc_from(lm, next as nat) {
                        Ok(d) => {
                            assert(strings_m(uses@) + (seq![us@] + d.uses) =~= strings_m(uses@).push(us@) + d.uses);
                        },
                        Err(_) => {},
                    }
                }
                uses.push(us);
            },
            Item::Bind(b) => {
                proof {
                    assert(bindings_m(bindings@.push(b)) =~= bindings_m(bindings@).push((b.name@, b.value@)));
                    match doc_from(lm, next as nat) {
                        Ok(d) => {
                            assert(bindings_m(bindings@) + (seq![(b.name@, b.value@)] + d.bindings) =~= bindings_m(bindings@).push((b.name@, b.value@)) + d.bindings);
                        },
                        Err(_) => {},
                    }
                }
                bindings.push(b);
            },
            Item::Root(v) => {
                root = Some(v);
            },
        }
        idx = next;
    }
    proof {
        assert(anns_m(annotations@) + Seq::<AnnM>::empty() =~= anns_m(annotations@));
        assert(strings_m(uses@) + Seq::<Seq<char>>::empty() =~= strings_m(uses@));
        assert(bindings_m(bindings@) + Seq::<(Seq<char>, CtnValueM)>::empty() =~= bindings_m(bindings@));
    }
    Ok(CtnDocument { annotations, uses, bindings, root })
}

/// Parses CTN text and gives its value: the document's root, or else the
/// value of its last binding.
pub fn parse_value(input: &str) -> (r: Result<CtnValue, SurpError>)
    ensures
        match ctn_value(input@) {
            Ok(v) => r matches Ok(x) && x@ == v,
            Err(e) => r matches Err(x) && x@ == e,
        },
{
    let doc = match parse_document(input) {
        Ok(d) => d,
        Err(e) => {
            return Err(e);
        },
    };
    let CtnDocument { annotations, uses, bindings, root } = doc;
    match root {
        Some(v) => Ok(v),
        None => {
            let mut bs = bindings;
            let ghost before = bs@;
            match bs.pop() {
                Some(b) => {
                    proof {
                        assert(before.last() == b);
                    }
                    Ok(b.value)
                },
                None => Err(SurpError::InvalidData(String::from_str("document has no root value or bindings"))),
            }
        },
    }
}

} // verus!

//! The indentation-oriented grammar of CTN documents: annotations, `use`
//! lines, `let` bindings, and struct, enum, sequence, map, tensor and
//! stream blocks, as functions from lines to values.

use crate::cql::{copy_range, trim_chars, trimmed};
use crate::ctn::{
    anns_m, push_signed, strings_m, values_m, signed_text, CtnAnnotation, CtnScalar, CtnScalarM, CtnValue, CtnValueM,
    TensorDataM,
};
use crate::ctn_expr::{
    inline_value, is_lit, lemma_split_short, opt_text, parse_inline_expr, quoted_error, starts,
    starts_lit, text_of,
};
use crate::ctn_inline::{bad, numeric, parse_numeric_literal, split_top, split_top_level, texts};
use crate::ctn_lex::{find_char, first_of, first_pair, is_ident, is_ident_path, is_identifier, lemma_first_of};
use crate::ctn_lines::{line_error, LineM};
use crate::error::{ErrorModel, SurpError};
use crate::render::{decimal, push_decimal};
use crate::text::{char_is_whitespace, is_whitespace_char};
use vstd::prelude::*;

verus! {

/// An annotation: its name and optional scalar value.
pub type AnnM = (Seq<char>, Option<CtnScalarM>);

/// The last position at or before `j - 1` that holds `c`.
pub open spec fn last_of(s: Seq<char>, c: char, j: nat) -> Option<nat>
    decreases j,
{
    if j == 0 || j > s.len() {
        None
    } else if s[j - 1] == c {
        Some((j - 1) as nat)
    } else {
        last_of(s, c, (j - 1) as nat)
    }
}

/// `s` without all its leading `@`.
pub open spec fn skip_ats(s: Seq<char>, i: nat) -> nat
    decreases s.len() - i,
{
    if i < s.len() && s[i as int] == '@' {
        skip_ats(s, i + 1)
    } else {
        i
    }
}

/// The first whitespace position from `i` on.
pub open spec fn first_ws(s: Seq<char>, i: nat) -> Option<nat>
    decreases s.len() - i,
{
    if i >= s.len() {
        None
    } else if is_whitespace_char(s[i as int]) {
        Some(i)
    } else {
        first_ws(s, i + 1)
    }
}

/// The annotation a line `@name value` stands for.
pub open spec fn ann_line(text: Seq<char>) -> Result<AnnM, ErrorModel> {
    let t = trimmed(text);
    let body = trimmed(t.subrange(skip_ats(t, 0) as int, t.len() as int));
    if body.len() == 0 {
        Err(bad("annotation name missing"@))
    } else {
        let name = match first_ws(body, 0) {
            Some(w) => body.subrange(0, w as int),
            None => body,
        };
        if !is_ident(name) {
            Err(bad("invalid annotation name '"@ + name + "'"@))
        } else {
            match first_ws(body, 0) {
                None => Ok((name, None)),
                Some(w) => {
                    let v = trimmed(body.subrange(w as int + 1, body.len() as int));
                    if v.len() == 0 {
                        Ok((name, None))
                    } else {
                        match inline_value(v) {
                            Err(e) => Err(e),
                            Ok(CtnValueM::Scalar(x)) => Ok((name, Some(x))),
                            Ok(_) => Err(bad("annotation values must be scalar"@)),
                        }
                    }
                },
            }
        }
    }
}

/// The type argument between the first `<` and the last `>`.
pub open spec fn generic_arg(h: Seq<char>) -> Option<Seq<char>> {
    match first_of(h, '<', 0) {
        None => None,
        Some(o) => match last_of(h, '>', h.len()) {
            None => None,
            Some(c) => if c <= o {
                None
            } else {
                Some(trimmed(h.subrange(o as int + 1, c as int)))
            },
        },
    }
}

/// The value of a scalar as a signed 64-bit integer, where it has one.
pub open spec fn scalar_i64(x: CtnScalarM) -> Option<i64> {
    match x {
        CtnScalarM::I64(v) => Some(v),
        CtnScalarM::Vi64(v) => Some(v),
        CtnScalarM::U64(v) => if v <= i64::MAX {
            Some(v as i64)
        } else {
            None
        },
        CtnScalarM::Vu64(v) => if v <= i64::MAX {
            Some(v as i64)
        } else {
            None
        },
        _ => None,
    }
}

/// One dimension of a tensor shape: `_` or a non-negative integer.
pub open spec fn dim(tok: Seq<char>) -> Result<Option<u64>, ErrorModel> {
    if tok == "_"@ {
        Ok(None)
    } else {
        match numeric(tok) {
            Err(e) => Err(e),
            Ok(None) => Err(bad("invalid tensor dimension"@)),
            Ok(Some(x)) => match scalar_i64(x) {
                None => Err(bad("tensor dimensions must be integers"@)),
                Some(raw) => if raw < 0 {
                    Err(bad("tensor dimensions cannot be negative"@))
                } else {
                    Ok(Some(raw as u64))
                },
            },
        }
    }
}

/// The dimensions of the tokens from `k` on.
pub open spec fn dims(toks: Seq<Seq<char>>, k: nat) -> Result<Seq<Option<u64>>, ErrorModel>
    decreases toks.len() - k,
{
    if k >= toks.len() {
        Ok(Seq::empty())
    } else {
        match dim(trimmed(toks[k as int])) {
            Err(e) => Err(e),
            Ok(d) => match dims(toks, k + 1) {
                Err(e) => Err(e),
                Ok(r) => Ok(seq![d] + r),
            },
        }
    }
}

/// The shape in the first `[` ... last `]` of a tensor header.
pub open spec fn shape(h: Seq<char>) -> Result<Seq<Option<u64>>, ErrorModel> {
    match first_of(h, '[', 0) {
        None => Ok(Seq::empty()),
        Some(o) => match last_of(h, ']', h.len()) {
            None => Err(bad("unterminated tensor shape"@)),
            Some(c) => if c <= o {
                Ok(Seq::empty())
            } else {
                let inside = h.subrange(o as int + 1, c as int);
                if trimmed(inside).len() == 0 {
                    Ok(Seq::empty())
                } else {
                    dims(split_top(inside, ','), 0)
                }
            },
        },
    }
}

/// A decimal digit.
pub open spec fn is_dec(c: char) -> bool {
    '0' <= c <= '9'
}

/// The value of the decimal digits `d`.
pub open spec fn dec_value(d: Seq<char>) -> nat
    decreases d.len(),
{
    if d.len() == 0 {
        0
    } else {
        dec_value(d.drop_last()) * 10 + (d.last() as nat - 48) as nat
    }
}

/// `t` without a leading `+`.
pub open spec fn unsigned_digits(t: Seq<char>) -> Seq<char> {
    if t.len() > 0 && t[0] == '+' {
        t.subrange(1, t.len() as int)
    } else {
        t
    }
}

/// The `usize` a text holds as `str::parse` reads it: an optional `+`
/// and at least one decimal digit, within range.
pub open spec fn usize_text(t: Seq<char>) -> Option<nat> {
    let d = unsigned_digits(t);
    if d.len() > 0 && (forall|i: int| 0 <= i < d.len() ==> is_dec(#[trigger] d[i])) && dec_value(d) <= usize::MAX {
        Some(dec_value(d))
    } else {
        None
    }
}

/// The byte count of a placeholder line `<binary: N bytes>`.
pub open spec fn placeholder(text: Seq<char>) -> Option<nat> {
    let b = trimmed(text);
    if !starts(b, "<binary:"@) || b.len() == 0 || b.last() != '>' || b.len() < 9 {
        None
    } else {
        let mid = trimmed(b.subrange(8, b.len() - 1));
        if mid.len() < 5 || mid.subrange(mid.len() - 5, mid.len() as int) != "bytes"@ {
            None
        } else {
            usize_text(trimmed(mid.subrange(0, mid.len() - 5)))
        }
    }
}

/// The text of a numeric scalar as a tensor element.
pub open spec fn number_text(x: CtnScalarM) -> Option<Seq<char>> {
    match x {
        CtnScalarM::F64(t) => Some(t),
        CtnScalarM::F32(t) => Some(t),
        CtnScalarM::I64(v) => Some(signed_text(v)),
        CtnScalarM::Vi64(v) => Some(signed_text(v)),
        CtnScalarM::U64(v) => Some(decimal(v as nat)),
        CtnScalarM::Vu64(v) => Some(decimal(v as nat)),
        _ => None,
    }
}

/// The numbers of a tensor row, in order, as texts.
pub open spec fn numbers(v: CtnValueM) -> Result<Seq<Seq<char>>, ErrorModel>
    decreases v, 1nat, 0nat,
{
    match v {
        CtnValueM::Scalar(x) => match number_text(x) {
            Some(t) => Ok(seq![t]),
            None => Err(bad("tensor literal contains non-numeric scalar"@)),
        },
        CtnValueM::Sequence(_, items) => numbers_of(items, 0),
        _ => Err(bad("tensor literal must contain only numeric sequences"@)),
    }
}

/// The numbers of the items from `k` on.
pub open spec fn numbers_of(items: Seq<CtnValueM>, k: nat) -> Result<Seq<Seq<char>>, ErrorModel>
    decreases items, 0nat, items.len() - k,
{
    if k >= items.len() {
        Ok(Seq::empty())
    } else {
        match numbers(items[k as int]) {
            Err(e) => Err(e),
            Ok(a) => match numbers_of(items, k + 1) {
                Err(e) => Err(e),
                Ok(b) => Ok(a + b),
            },
        }
    }
}

/// The line after `idx` is indented deeper than `ind`.
pub open spec fn child(ls: Seq<LineM>, idx: nat, ind: nat) -> bool {
    idx + 1 < ls.len() && ls[idx as int + 1].indent > ind
}

/// The line after `idx` is indented deeper than `ind` and holds `=`.
pub open spec fn field_child(ls: Seq<LineM>, idx: nat, ind: nat) -> bool {
    child(ls, idx, ind) && first_of(ls[idx as int + 1].text, '=', 0) is Some
}

/// `struct` or a path of identifiers.
pub open spec fn type_header(s: Seq<char>) -> bool {
    s == "struct"@ || is_ident_path(s)
}

/// A header that may open a block of lines.
pub open spec fn block_header(s0: Seq<char>) -> bool {
    let s = trimmed(s0);
    ||| starts(s, "map<"@)
    ||| starts(s, "seq<"@)
    ||| starts(s, "vec<"@)
    ||| starts(s, "tensor<"@)
    ||| starts(s, "mat<"@)
    ||| starts(s, "stream<"@)
    ||| first_pair(s, ':', ':', 0) is Some
    ||| type_header(s)
}

/// A tensor header.
pub open spec fn tensor_header(t: Seq<char>) -> bool {
    starts(t, "vec<"@) || starts(t, "tensor<"@) || starts(t, "mat<"@)
}

/// The error for a line index past the end.
pub open spec fn internal() -> ErrorModel {
    line_error(0, "internal parser index out of bounds"@)
}

/// The value whose header is line `idx`, and the index of the line after
/// it.
#[verifier::opaque]
pub open spec fn value_at(ls: Seq<LineM>, idx: nat) -> Result<(CtnValueM, nat), ErrorModel>
    decreases ls.len() - idx, 3nat,
{
    if idx >= ls.len() {
        Err(internal())
    } else {
        header(ls, trimmed(ls[idx as int].text), idx, ls[idx as int].indent)
    }
}

/// The value on the right of `=` (or `=>`) on line `li`, indented `ind`:
/// inline, a block that starts there, or the indented value below.
#[verifier::opaque]
pub open spec fn rhs_value(ls: Seq<LineM>, rhs: Seq<char>, li: nat, ind: nat) -> Result<(CtnValueM, nat), ErrorModel>
    decreases ls.len() - li, 3nat,
{
    if li >= ls.len() {
        Err(internal())
    } else if rhs.len() == 0 {
        if li + 1 >= ls.len() {
            Err(line_error(ls[li as int].number, "expected value after '='"@))
        } else if ls[li as int + 1].indent <= ind {
            Err(line_error(ls[li as int].number, "expected indented value after '='"@))
        } else {
            value_at(ls, li + 1)
        }
    } else if child(ls, li, ind) && block_header(rhs) {
        header(ls, rhs, li, ind)
    } else {
        match inline_value(rhs) {
            Ok(v) => Ok((v, li + 1)),
            Err(e) => Err(e),
        }
    }
}

/// The value whose header text `h` stands on line `li`, indented `ind`.
#[verifier::opaque]
pub open spec fn header(ls: Seq<LineM>, h: Seq<char>, li: nat, ind: nat) -> Result<(CtnValueM, nat), ErrorModel>
    decreases ls.len() - li, 2nat,
{
    if li >= ls.len() {
        Err(internal())
    } else {
        let t = trimmed(h);
        let ch = child(ls, li, ind);
        if starts(t, "map<"@) && first_of(t, '[', 0) is None && ch {
            map_block(ls, li, ind)
        } else if starts(t, "seq<"@) && ch {
            seq_block(ls, t, li, ind)
        } else if tensor_header(t) && ch {
            tensor_block(ls, t, li, ind)
        } else if starts(t, "stream<"@) {
            stream_block(ls, t, li, ind)
        } else if first_pair(t, ':', ':', 0) is Some && ch && first_of(t, '(', 0) is None {
            sum_block(ls, t, li, ind)
        } else if type_header(t) && field_child(ls, li, ind) {
            struct_block(ls, t, li, ind)
        } else {
            match inline_value(t) {
                Ok(v) => Ok((v, li + 1)),
                Err(e) => Err(e),
            }
        }
    }
}

/// A struct block: `Type` (or `struct`) and indented `name = value` lines.
pub open spec fn struct_block(ls: Seq<LineM>, t: Seq<char>, li: nat, ind: nat) -> Result<(CtnValueM, nat), ErrorModel>
    decreases ls.len() - li, 1nat,
{
    if li >= ls.len() {
        Err(internal())
    } else if li + 1 >= ls.len() {
        Err(line_error(ls[li as int].number, "expected fields"@))
    } else {
        let label = if t == "struct"@ {
            None
        } else {
            Some(t)
        };
        match field_loop(ls, li + 1, ind, ls[li as int + 1].indent, false) {
            Ok((fs, next)) => Ok((CtnValueM::Product(label, fs), next)),
            Err(e) => Err(e),
        }
    }
}

/// An enum block: `Type::Variant` and indented `name = value` lines.
pub open spec fn sum_block(ls: Seq<LineM>, t: Seq<char>, li: nat, ind: nat) -> Result<(CtnValueM, nat), ErrorModel>
    decreases ls.len() - li, 1nat,
{
    if li >= ls.len() {
        Err(internal())
    } else {
        match first_pair(t, ':', ':', 0) {
            None => Err(internal()),
            Some(k) => {
                let label = opt_text(trimmed(t.subrange(0, k as int)));
                let variant = trimmed(t.subrange(k as int + 2, t.len() as int));
                if variant.len() == 0 {
                    Err(line_error(ls[li as int].number, "missing enum variant name"@))
                } else if li + 1 >= ls.len() {
                    Err(line_error(ls[li as int].number, "expected variant payload"@))
                } else {
                    match field_loop(ls, li + 1, ind, ls[li as int + 1].indent, true) {
                        Ok((fs, next)) => Ok((CtnValueM::SumStruct(label, variant, fs), next)),
                        Err(e) => Err(e),
                    }
                }
            },
        }
    }
}

/// A sequence block: `seq<T>` and indented item lines.
pub open spec fn seq_block(ls: Seq<LineM>, t: Seq<char>, li: nat, ind: nat) -> Result<(CtnValueM, nat), ErrorModel>
    decreases ls.len() - li, 1nat,
{
    if li >= ls.len() {
        Err(internal())
    } else if li + 1 >= ls.len() {
        Err(line_error(ls[li as int].number, "expected sequence elements"@))
    } else {
        match item_loop(ls, li + 1, ind, ls[li as int + 1].indent) {
            Ok((vs, next)) => Ok((CtnValueM::Sequence(generic_arg(t), vs), next)),
            Err(e) => Err(e),
        }
    }
}

/// A map block: `map<K, V>` and indented `key => value` lines.
pub open spec fn map_block(ls: Seq<LineM>, li: nat, ind: nat) -> Result<(CtnValueM, nat), ErrorModel>
    decreases ls.len() - li, 1nat,
{
    if li >= ls.len() {
        Err(internal())
    } else if li + 1 >= ls.len() {
        Err(line_error(ls[li as int].number, "expected map entries"@))
    } else {
        match entry_loop(ls, li + 1, ind, ls[li as int + 1].indent) {
            Ok((ps, next)) => Ok((CtnValueM::Association(ps), next)),
            Err(e) => Err(e),
        }
    }
}

/// The `name = value` lines from `idx` on that are indented deeper than
/// `parent`; they must all be indented `cind`.
pub open spec fn field_loop(ls: Seq<LineM>, idx: nat, parent: nat, cind: nat, sum: bool) -> Result<(Seq<(Seq<char>, CtnValueM)>, nat), ErrorModel>
    decreases ls.len() - idx, 4nat,
{
    if idx >= ls.len() || ls[idx as int].indent <= parent {
        Ok((Seq::empty(), idx))
    } else {
        let l = ls[idx as int];
        if l.indent != cind {
            Err(line_error(l.number, if sum {
                "inconsistent indentation in enum payload"@
            } else {
                "inconsistent indentation in struct fields"@
            }))
        } else {
            match first_of(l.text, '=', 0) {
                None => Err(line_error(l.number, "expected separator '=' in '"@ + l.text + "'"@)),
                Some(k) => {
                    let name = trimmed(l.text.subrange(0, k as int));
                    if !is_ident(name) {
                        Err(line_error(l.number, (if sum {
                            "invalid payload field '"@
                        } else {
                            "invalid field name '"@
                        }) + name + "'"@))
                    } else {
                        match rhs_value(ls, trimmed(l.text.subrange(k as int + 1, l.text.len() as int)), idx, l.indent) {
                            Err(e) => Err(e),
                            Ok((v, next)) => if next <= idx || next > ls.len() {
                                Err(internal())
                            } else {
                                match field_loop(ls, next, parent, cind, sum) {
                                    Err(e) => Err(e),
                                    Ok((rest, end)) => Ok((seq![(name, v)] + rest, end)),
                                }
                            },
                        }
                    }
                },
            }
        }
    }
}

/// The item lines from `idx` on that are indented deeper than `parent`.
pub open spec fn item_loop(ls: Seq<LineM>, idx: nat, parent: nat, cind: nat) -> Result<(Seq<CtnValueM>, nat), ErrorModel>
    decreases ls.len() - idx, 4nat,
{
    if idx >= ls.len() || ls[idx as int].indent <= parent {
        Ok((Seq::empty(), idx))
    } else if ls[idx as int].indent != cind {
        Err(line_error(ls[idx as int].number, "inconsistent indentation in sequence"@))
    } else {
        match value_at(ls, idx) {
            Err(e) => Err(e),
            Ok((v, next)) => if next <= idx || next > ls.len() {
                Err(internal())
            } else {
                match item_loop(ls, next, parent, cind) {
                    Err(e) => Err(e),
                    Ok((rest, end)) => Ok((seq![v] + rest, end)),
                }
            },
        }
    }
}

/// The `key => value` lines from `idx` on that are indented deeper than
/// `parent`.
pub open spec fn entry_loop(ls: Seq<LineM>, idx: nat, parent: nat, cind: nat) -> Result<(Seq<(CtnValueM, CtnValueM)>, nat), ErrorModel>
    decreases ls.len() - idx, 4nat,
{
    if idx >= ls.len() || ls[idx as int].indent <= parent {
        Ok((Seq::empty(), idx))
    } else {
        let l = ls[idx as int];
        if l.indent != cind {
            Err(line_error(l.number, "inconsistent indentation in map"@))
        } else {
            match first_pair(l.text, '=', '>', 0) {
                None => Err(line_error(l.number, "expected separator '=>' in '"@ + l.text + "'"@)),
                Some(k) => match inline_value(l.text.subrange(0, k as int)) {
                    Err(e) => Err(e),
                    Ok(key) => match rhs_value(ls, trimmed(l.text.subrange(k as int + 2, l.text.len() as int)), idx, l.indent) {
                        Err(e) => Err(e),
                        Ok((v, next)) => if next <= idx || next > ls.len() {
                            Err(internal())
                        } else {
                            match entry_loop(ls, next, parent, cind) {
                                Err(e) => Err(e),
                                Ok((rest, end)) => Ok((seq![(key, v)] + rest, end)),
                            }
                        },
                    },
                },
            }
        }
    }
}

/// The annotation lines of a stream body from `idx` on.
pub open spec fn ann_lines(ls: Seq<LineM>, idx: nat, parent: nat) -> Result<(Seq<AnnM>, nat), ErrorModel>
    decreases ls.len() - idx,
{
    if idx >= ls.len() || ls[idx as int].indent <= parent {
        Ok((Seq::empty(), idx))
    } else {
        let t = trimmed(ls[idx as int].text);
        if !starts(t, "@"@) {
            Err(line_error(ls[idx as int].number, "stream body currently supports annotations only"@))
        } else {
            match ann_line(t) {
                Err(e) => Err(e),
                Ok(a) => match ann_lines(ls, idx + 1, parent) {
                    Err(e) => Err(e),
                    Ok((rest, end)) => Ok((seq![a] + rest, end)),
                },
            }
        }
    }
}

/// A stream block: `stream<T>` and indented annotation lines.
pub open spec fn stream_block(ls: Seq<LineM>, t: Seq<char>, li: nat, ind: nat) -> Result<(CtnValueM, nat), ErrorModel> {
    let item = match generic_arg(t) {
        Some(a) => a,
        None => "any"@,
    };
    match ann_lines(ls, li + 1, ind) {
        Err(e) => Err(e),
        Ok((anns, end)) => Ok((CtnValueM::Stream(item, anns), end)),
    }
}

/// What one line of a tensor body holds.
pub enum RowM {
    Ann(AnnM),
    Blob(nat),
    Nums(Seq<Seq<char>>),
}

/// What a tensor body line `t` holds: an annotation, a binary
/// placeholder, or a row of numbers.
#[verifier::opaque]
pub open spec fn row(t: Seq<char>) -> Result<RowM, ErrorModel> {
    if starts(t, "@"@) {
        match ann_line(t) {
            Ok(a) => Ok(RowM::Ann(a)),
            Err(e) => Err(e),
        }
    } else if placeholder(t) is Some {
        Ok(RowM::Blob(placeholder(t)->0))
    } else {
        match inline_value(t) {
            Err(e) => Err(e),
            Ok(v) => match numbers(v) {
                Err(e) => Err(e),
                Ok(xs) => Ok(RowM::Nums(xs)),
            },
        }
    }
}

/// The body lines of a tensor from `idx` on: annotations, numbers in
/// order, and the byte count of the last binary placeholder.
pub open spec fn tensor_rows(ls: Seq<LineM>, idx: nat, parent: nat) -> Result<(Seq<AnnM>, Seq<Seq<char>>, Option<nat>, nat), ErrorModel>
    decreases ls.len() - idx,
{
    if idx >= ls.len() || ls[idx as int].indent <= parent {
        Ok((Seq::empty(), Seq::empty(), None, idx))
    } else {
        match row(trimmed(ls[idx as int].text)) {
            Err(e) => Err(e),
            Ok(r) => match tensor_rows(ls, idx + 1, parent) {
                Err(e) => Err(e),
                Ok((anns, dense, blob, end)) => Ok(
                    match r {
                        RowM::Ann(x) => (seq![x] + anns, dense, blob, end),
                        RowM::Blob(n) => (anns, dense, if blob is Some {
                            blob
                        } else {
                            Some(n)
                        }, end),
                        RowM::Nums(xs) => (anns, xs + dense, blob, end),
                    },
                ),
            },
        }
    }
}

/// A tensor block: `tensor<T>[dims]` (or `vec<..>`, `mat<..>`) and
/// indented rows, annotations or a binary placeholder.
pub open spec fn tensor_block(ls: Seq<LineM>, t: Seq<char>, li: nat, ind: nat) -> Result<(CtnValueM, nat), ErrorModel> {
    let et = match generic_arg(t) {
        Some(a) => a,
        None => "f32"@,
    };
    match shape(t) {
        Err(e) => Err(e),
        Ok(dims) => match tensor_rows(ls, li + 1, ind) {
            Err(e) => Err(e),
            Ok((anns, dense, blob, end)) => Ok((
                CtnValueM::Tensor(et, dims, match blob {
                    Some(b) => TensorDataM::BinaryBlob(Seq::new(b, |i: int| 0u8)),
                    None => TensorDataM::DenseF64(dense),
                }, anns),
                end,
            )),
        },
    }
}

/// A document as a mathematical value.
pub struct DocM {
    pub annotations: Seq<AnnM>,
    pub uses: Seq<Seq<char>>,
    pub bindings: Seq<(Seq<char>, CtnValueM)>,
    pub root: Option<CtnValueM>,
}

/// What one top-level line (with the block it opens) adds to a document.
pub enum DocItem {
    Ann(AnnM),
    Use(Seq<char>),
    Bind(Seq<char>, CtnValueM),
    Root(CtnValueM),
}

/// The item that the top-level line `idx` opens, and the index of the
/// line after it.
#[verifier::opaque]
pub open spec fn doc_line(ls: Seq<LineM>, idx: nat) -> Result<(DocItem, nat), ErrorModel> {
    if idx >= ls.len() {
        Err(internal())
    } else {
        let l = ls[idx as int];
        let t = trimmed(l.text);
        if starts(t, "@"@) {
            match ann_line(t) {
                Err(e) => Err(e),
                Ok(a) => Ok((DocItem::Ann(a), idx + 1)),
            }
        } else if starts(t, "use "@) {
            Ok((DocItem::Use(trimmed(t.subrange(4, t.len() as int))), idx + 1))
        } else if starts(t, "let "@) {
            let r = t.subrange(4, t.len() as int);
            match first_of(r, '=', 0) {
                None => Err(line_error(l.number, "expected separator '=' in '"@ + r + "'"@)),
                Some(k) => {
                    let name = trimmed(r.subrange(0, k as int));
                    if !is_ident(name) {
                        Err(line_error(l.number, "invalid binding name '"@ + name + "'"@))
                    } else {
                        match rhs_value(ls, trimmed(r.subrange(k as int + 1, r.len() as int)), idx, l.indent) {
                            Err(e) => Err(e),
                            Ok((v, next)) => Ok((DocItem::Bind(name, v), next)),
                        }
                    }
                },
            }
        } else {
            match value_at(ls, idx) {
                Err(e) => Err(e),
                Ok((v, next)) => Ok((DocItem::Root(v), next)),
            }
        }
    }
}

/// `d` with the item `it` in front; a later root wins.
pub open spec fn add_item(it: DocItem, d: DocM) -> DocM {
    match it {
        DocItem::Ann(a) => DocM { annotations: seq![a] + d.annotations, ..d },
        DocItem::Use(u) => DocM { uses: seq![u] + d.uses, ..d },
        DocItem::Bind(n, v) => DocM { bindings: seq![(n, v)] + d.bindings, ..d },
        DocItem::Root(v) => DocM { root: if d.root is Some {
            d.root
        } else {
            Some(v)
        }, ..d },
    }
}

/// The document that lines from `idx` on make: annotations, `use` lines,
/// `let` bindings, and the last root value.
pub open spec fn doc_from(ls: Seq<LineM>, idx: nat) -> Result<DocM, ErrorModel>
    decreases ls.len() - idx,
{
    if idx >= ls.len() {
        Ok(DocM { annotations: Seq::empty(), uses: Seq::empty(), bindings: Seq::empty(), root: None })
    } else {
        match doc_line(ls, idx) {
            Err(e) => Err(e),
            Ok((it, next)) => if next <= idx || next > ls.len() {
                Err(internal())
            } else {
                match doc_from(ls, next) {
                    Err(e) => Err(e),
                    Ok(d) => Ok(add_item(it, d)),
                }
            },
        }
    }
}

/// The document that CTN text stands for.
pub open spec fn ctn_document(input: Seq<char>) -> Result<DocM, ErrorModel> {
    match crate::ctn_lines::doc_lines(input) {
        Err(e) => Err(e),
        Ok(ls) => doc_from(ls, 0),
    }
}

/// The value a document stands for: its root, else its last binding.
pub open spec fn effective_root(d: DocM) -> Result<CtnValueM, ErrorModel> {
    match d.root {
        Some(v) => Ok(v),
        None => if d.bindings.len() > 0 {
            Ok(d.bindings.last().1)
        } else {
            Err(bad("document has no root value or bindings"@))
        },
    }
}

/// The value that CTN text stands for.
pub open spec fn ctn_value(input: Seq<char>) -> Result<CtnValueM, ErrorModel> {
    match ctn_document(input) {
        Err(e) => Err(e),
        Ok(d) => effective_root(d),
    }
}

/// The last position of `c` in `s`.
fn find_last(s: &Vec<char>, c: char) -> (r: Option<usize>)
    ensures
        match last_of(s@, c, s@.len()) {
            Some(k) => r == Some(k as usize),
            None => r is None,
        },
{
    let mut j: usize = s.len();
    while j > 0
        invariant
            j <= s@.len(),
            last_of(s@, c, s@.len()) == last_of(s@, c, j as nat),
        decreases j,
    {
        if s[j - 1] == c {
            return Some(j - 1);
        }
        j = j - 1;
    }
    None
}

proof fn lemma_last_of(s: Seq<char>, c: char, j: nat)
    ensures
        last_of(s, c, j) matches Some(k) ==> k < j && k < s.len(),
    decreases j,
{
    if j > 0 && j <= s.len() && s[j - 1] != c {
        lemma_last_of(s, c, (j - 1) as nat);
    }
}

/// Reads an annotation line `@name value`.
pub fn parse_annotation_line(text: &Vec<char>) -> (r: Result<CtnAnnotation, SurpError>)
    ensures
        match ann_line(text@) {
            Ok(a) => r matches Ok(x) && x@ == a,
            Err(e) => r matches Err(x) && x@ == e,
        },
{
    let t = trim_chars(text);
    let mut a: usize = 0;
    while a < t.len() && t[a] == '@'
        invariant
            a <= t@.len(),
            skip_ats(t@, 0) == skip_ats(t@, a as nat),
        decreases t@.len() - a,
    {
        a = a + 1;
    }
    let raw = copy_range(&t, a, t.len());
    let body = trim_chars(&raw);
    let n = body.len();
    if n == 0 {
        return Err(SurpError::InvalidData(String::from_str("annotation name missing")));
    }
    let mut w: usize = 0;
    while w < n && !char_is_whitespace(body[w])
        invariant
            w <= n,
            n == body@.len(),
            first_ws(body@, 0) == first_ws(body@, w as nat),
        decreases n - w,
    {
        w = w + 1;
    }
    let name = copy_range(&body, 0, w);
    if w == n {
        proof {
            assert(body@.subrange(0, n as int) =~= body@);
        }
    }
    if !is_identifier(&name) {
        return Err(quoted_error("invalid annotation name '", &name));
    }
    if w == n {
        return Ok(CtnAnnotation { name: text_of(&name), value: None });
    }
    let vraw = copy_range(&body, w + 1, n);
    let v = trim_chars(&vraw);
    if v.len() == 0 {
        return Ok(CtnAnnotation { name: text_of(&name), value: None });
    }
    match parse_inline_expr(&v) {
        Err(e) => Err(e),
        Ok(CtnValue::Scalar(x)) => Ok(CtnAnnotation { name: text_of(&name), value: Some(x) }),
        Ok(_) => Err(SurpError::InvalidData(String::from_str("annotation values must be scalar"))),
    }
}

/// The type argument between the first `<` and the last `>`.
pub fn generic_type_arg(h: &Vec<char>) -> (r: Option<Vec<char>>)
    ensures
        match generic_arg(h@) {
            Some(a) => r matches Some(x) && x@ == a,
            None => r is None,
        },
{
    let _n = h.len();
    proof {
        lemma_first_of(h@, '<', 0);
        lemma_last_of(h@, '>', h@.len());
    }
    let o = match find_char(h, '<', 0) {
        None => {
            return None;
        },
        Some(o) => o,
    };
    let c = match find_last(h, '>') {
        None => {
            return None;
        },
        Some(c) => c,
    };
    if c <= o {
        return None;
    }
    let inside = copy_range(h, o + 1, c);
    Some(trim_chars(&inside))
}

/// A scalar as a signed 64-bit integer, where it is one.
pub fn scalar_as_i64(x: &CtnScalar) -> (r: Option<i64>)
    ensures
        r == scalar_i64(x@),
{
    match x {
        CtnScalar::I64(v) => Some(*v),
        CtnScalar::Vi64(v) => Some(*v),
        CtnScalar::U64(v) => if *v <= 9223372036854775807u64 {
            Some(*v as i64)
        } else {
            None
        },
        CtnScalar::Vu64(v) => if *v <= 9223372036854775807u64 {
            Some(*v as i64)
        } else {
            None
        },
        _ => None,
    }
}

/// Reads the shape of a tensor header.
pub fn parse_shape(h: &Vec<char>) -> (r: Result<Vec<Option<u64>>, SurpError>)
    ensures
        match shape(h@) {
            Ok(d) => r matches Ok(x) && x@ == d,
            Err(e) => r matches Err(x) && x@ == e,
        },
{
    let _n = h.len();
    proof {
        lemma_first_of(h@, '[', 0);
        lemma_last_of(h@, ']', h@.len());
    }
    let o = match find_char(h, '[', 0) {
        None => {
            return Ok(Vec::new());
        },
        Some(o) => o,
    };
    let c = match find_last(h, ']') {
        None => {
            return Err(SurpError::InvalidData(String::from_str("unterminated tensor shape")));
        },
        Some(c) => c,
    };
    if c <= o {
        return Ok(Vec::new());
    }
    let inside = copy_range(h, o + 1, c);
    let ti = trim_chars(&inside);
    if ti.len() == 0 {
        return Ok(Vec::new());
    }
    let toks = split_top_level(&inside, ',');
    let ghost ts = texts(toks@);
    let mut out: Vec<Option<u64>> = Vec::new();
    let mut k: usize = 0;
    proof {
        match dims(ts, 0) {
            Ok(x) => {
                assert(out@ + x =~= x);
            },
            Err(_) => {},
        }
    }
    while k < toks.len()
        invariant
            k <= toks@.len(),
            ts == texts(toks@),
            ts == split_top(inside@, ','),
            shape(h@) == dims(ts, 0),
            dims(ts, 0) == match dims(ts, k as nat) {
                Ok(x) => Ok::<Seq<Option<u64>>, ErrorModel>(out@ + x),
                Err(e) => Err(e),
            },
        decreases toks@.len() - k,
    {
        proof {
            assert(ts[k as int] == toks@[k as int]@);
        }
        let tok = trim_chars(&toks[k]);
        let d: Option<u64> = if is_lit(&tok, "_") {
            None
        } else {
            match parse_numeric_literal(&tok) {
                Err(e) => {
                    return Err(e);
                },
                Ok(None) => {
                    return Err(SurpError::InvalidData(String::from_str("invalid tensor dimension")));
                },
                Ok(Some(x)) => match scalar_as_i64(&x) {
                    None => {
                        return Err(SurpError::InvalidData(String::from_str("tensor dimensions must be integers")));
                    },
                    Some(raw) => {
                        if raw < 0 {
                            return Err(SurpError::InvalidData(String::from_str("tensor dimensions cannot be negative")));
                        }
                        Some(raw as u64)
                    },
                },
            }
        };
        proof {
            match dims(ts, (k + 1) as nat) {
                Ok(x) => {
                    assert(out@.push(d) + x =~= out@ + (seq![d] + x));
                },
                Err(_) => {},
            }
        }
        out.push(d);
        k = k + 1;
    }
    proof {
        assert(out@ + Seq::<Option<u64>>::empty() =~= out@);
    }
    Ok(out)
}

proof fn lemma_dec_mono(d: Seq<char>, i: int, j: int)
    requires
        0 <= i <= j <= d.len(),
        forall|k: int| 0 <= k < d.len() ==> is_dec(#[trigger] d[k]),
    ensures
        dec_value(d.subrange(0, i)) <= dec_value(d.subrange(0, j)),
    decreases j - i,
{
    if i < j {
        lemma_dec_mono(d, i, j - 1);
        assert(d.subrange(0, j).drop_last() =~= d.subrange(0, j - 1));
    }
}

/// Reads a `usize` as `str::parse` does.
fn parse_usize_text(t: &Vec<char>) -> (r: Option<usize>)
    ensures
        match usize_text(t@) {
            Some(v) => r == Some(v as usize),
            None => r is None,
        },
{
    let n = t.len();
    let start: usize = if n > 0 && t[0] == '+' {
        1
    } else {
        0
    };
    let d = copy_range(t, start, n);
    proof {
        if start == 0 {
            assert(t@.subrange(0, n as int) =~= t@);
        }
    }
    let m = d.len();
    if m == 0 {
        return None;
    }
    let ghost dd = if n > 0 && t@[0] == '+' {
        t@.subrange(1, n as int)
    } else {
        t@
    };
    assert(d@ == dd);
    let mut k: usize = 0;
    while k < m
        invariant
            k <= m,
            m == d@.len(),
            d@ == dd,
            dd == unsigned_digits(t@),
            forall|j: int| 0 <= j < k ==> is_dec(#[trigger] d@[j]),
        decreases m - k,
    {
        if !('0' <= d[k] && d[k] <= '9') {
            proof {
                assert(!is_dec(dd[k as int]));
                assert(!(forall|j: int| 0 <= j < dd.len() ==> is_dec(#[trigger] dd[j])));
                assert(usize_text(t@) is None);
            }
            return None;
        }
        k = k + 1;
    }
    let mut acc: usize = 0;
    let mut i: usize = 0;
    proof {
        assert(d@.subrange(0, 0) =~= Seq::<char>::empty());
    }
    while i < m
        invariant
            i <= m,
            m == d@.len(),
            forall|j: int| 0 <= j < m ==> is_dec(#[trigger] d@[j]),
            acc == dec_value(d@.subrange(0, i as int)),
            d@ == dd,
            dd == unsigned_digits(t@),
        decreases m - i,
    {
        let dv = ((d[i] as u32) - 48) as usize;
        proof {
            assert(d@.subrange(0, i + 1).drop_last() =~= d@.subrange(0, i as int));
            assert(is_dec(d@[i as int]));
        }
        if acc > (usize::MAX - dv) / 10 {
            proof {
                assert(acc * 10 + dv > usize::MAX) by (nonlinear_arith)
                    requires
                        acc > (usize::MAX - dv) / 10,
                        dv <= 9,
                ;
                lemma_dec_mono(d@, i + 1, m as int);
                assert(d@.subrange(0, m as int) =~= d@);
            }
            return None;
        }
        proof {
            assert(acc * 10 + dv <= usize::MAX) by (nonlinear_arith)
                requires
                    acc <= (usize::MAX - dv) / 10,
                    dv <= 9,
            ;
        }
        acc = acc * 10 + dv;
        i = i + 1;
    }
    proof {
        assert(d@.subrange(0, m as int) =~= d@);
    }
    Some(acc)
}

/// The byte count of a placeholder line `<binary: N bytes>`.
pub fn binary_placeholder(text: &Vec<char>) -> (r: Option<usize>)
    ensures
        match placeholder(text@) {
            Some(b) => r == Some(b as usize),
            None => r is None,
        },
{
    let b = trim_chars(text);
    let n = b.len();
    if !starts_lit(&b, "<binary:") || n == 0 || b[n - 1] != '>' || n < 9 {
        return None;
    }
    let midraw = copy_range(&b, 8, n - 1);
    let mid = trim_chars(&midraw);
    let m = mid.len();
    if m < 5 {
        return None;
    }
    let tail = copy_range(&mid, m - 5, m);
    if !is_lit(&tail, "bytes") {
        return None;
    }
    let numraw = copy_range(&mid, 0, m - 5);
    let num = trim_chars(&numraw);
    parse_usize_text(&num)
}

pub proof fn lemma_values_m(s: Seq<CtnValue>)
    ensures
        values_m(s).len() == s.len(),
        forall|i: int| 0 <= i < s.len() ==> #[trigger] values_m(s)[i] == s[i]@,
    decreases s.len(),
{
    if s.len() > 0 {
        lemma_values_m(s.drop_last());
        assert(values_m(s) == values_m(s.drop_last()).push(s.last()@));
        assert forall|i: int| 0 <= i < s.len() implies #[trigger] values_m(s)[i] == s[i]@ by {
            if i < s.len() - 1 {
                assert(s.drop_last()[i] == s[i]);
            }
        }
    }
}

/// The text of a numeric scalar as a tensor element.
fn number_of(x: &CtnScalar) -> (r: Option<String>)
    ensures
        match number_text(x@) {
            Some(t) => r matches Some(y) && y@ == t,
            None => r is None,
        },
{
    let mut out = String::new();
    match x {
        CtnScalar::F64(t) => Some(t.clone()),
        CtnScalar::F32(t) => Some(t.clone()),
        CtnScalar::I64(v) => {
            push_signed(&mut out, *v);
            Some(out)
        },
        CtnScalar::Vi64(v) => {
            push_signed(&mut out, *v);
            Some(out)
        },
        CtnScalar::U64(v) => {
            push_decimal(&mut out, *v);
            Some(out)
        },
        CtnScalar::Vu64(v) => {
            push_decimal(&mut out, *v);
            Some(out)
        },
        _ => None,
    }
}

/// The numbers of a tensor row, in order, as texts.
pub(crate) fn number_texts(v: &CtnValue) -> (r: Result<Vec<String>, SurpError>)
    ensures
        match numbers(v@) {
            Ok(xs) => r matches Ok(x) && strings_m(x@) == xs,
            Err(e) => r matches Err(x) && x@ == e,
        },
    decreases v,
{
    match v {
        CtnValue::Scalar(x) => match number_of(x) {
            Some(t) => {
                let mut out: Vec<String> = Vec::new();
                out.push(t);
                proof {
                    assert(strings_m(out@) =~= seq![t@]);
                }
                Ok(out)
            },
            None => Err(SurpError::InvalidData(String::from_str("tensor literal contains non-numeric scalar"))),
        },
        CtnValue::Sequence { elem_type, items } => {
            let ghost ms = values_m(items@);
            proof {
                assert(v@ == CtnValueM::Sequence(crate::ctn::opt_seq(*elem_type), values_m(items@)));
                assert(numbers(v@) == numbers_of(ms, 0));
                lemma_values_m(items@);
                match numbers_of(ms, 0) {
                    Ok(x) => {
                        assert(Seq::<Seq<char>>::empty() + x =~= x);
                    },
                    Err(_) => {},
                }
                assert(strings_m(Seq::<String>::empty()) =~= Seq::<Seq<char>>::empty());
            }
            let mut out: Vec<String> = Vec::new();
            let mut i: usize = 0;
            while i < items.len()
                invariant
                    i <= items@.len(),
                    ms == values_m(items@),
                    ms.len() == items@.len(),
                    forall|j: int| 0 <= j < items@.len() ==> #[trigger] ms[j] == items@[j]@,
                    numbers(v@) == numbers_of(ms, 0),
                    (*v) is Sequence,
                    (*v)->items == *items,
                    numbers_of(ms, 0) == match numbers_of(ms, i as nat) {
                        Ok(x) => Ok::<Seq<Seq<char>>, ErrorModel>(strings_m(out@) + x),
                        Err(e) => Err(e),
                    },
                decreases items@.len() - i,
            {
                proof {
                    assert(decreases_to!(*v => (*v)->items));
                    assert(decreases_to!((*v)->items => (*v)->items[i as int]));
                }
                let got = number_texts(&items[i]);
                match got {
                    Err(e) => {
                        proof {
                            assert(ms[i as int] == items@[i as int]@);
                            assert(numbers_of(ms, i as nat) == Err::<Seq<Seq<char>>, ErrorModel>(e@));
                        }
                        return Err(e);
                    },
                    Ok(xs) => {
                        let ghost before = strings_m(out@);
                        let mut j: usize = 0;
                        while j < xs.len()
                            invariant
                                j <= xs@.len(),
                                strings_m(out@) == before + strings_m(xs@).subrange(0, j as int),
                            decreases xs@.len() - j,
                        {
                            let c = xs[j].clone();
                            let ghost o0 = out@;
                            out.push(c);
                            proof {
                                assert(strings_m(out@) =~= strings_m(o0).push(c@));
                                assert(strings_m(xs@)[j as int] == c@);
                                assert(strings_m(out@) =~= before + strings_m(xs@).subrange(0, j + 1));
                            }
                            j = j + 1;
                        }
                        proof {
                            assert(strings_m(xs@).subrange(0, j as int) =~= strings_m(xs@));
                            assert(ms[i as int] == items@[i as int]@);
                            match numbers_of(ms, (i + 1) as nat) {
                                Ok(x) => {
                                    assert(before + (strings_m(xs@) + x) =~= strings_m(out@) + x);
                                },
                                Err(_) => {},
                            }
                        }
                    },
                }
                i = i + 1;
            }
            proof {
                assert(strings_m(out@) + Seq::<Seq<char>>::empty() =~= strings_m(out@));
            }
            Ok(out)
        },
        _ => Err(SurpError::InvalidData(String::from_str("tensor literal must contain only numeric sequences"))),
    }
}

} // verus!

//! The human-readable Surp text notation: parser and pretty-printer.
//!
//! - Objects are `{ key: value; key2: value2; }`, with `;` ending each field.
//! - Arrays are `[ value, value ]` (`;` is accepted as a separator too).
//! - Strings are double-quoted, with `\n`, `\t`, `\r`, `\\` and `\"` escapes.
//! - Binary data is `b64#` followed by standard base64.
//! - Unsigned integers are bare digits (or `+` digits), signed ones start
//!   with `-`; floats have a decimal point or an exponent; `inf`, `-inf`
//!   and `NaN` are floats too.
//! - `null`, `true` and `false`; optional type annotations `::name`.
//! - Comments: `// line` and `/* block */` (block comments nest).
//!
//! Floats are kept as the text of their literal: turning that text into a
//! binary float, and a binary float into text, is done by the caller.

use base64::Engine;
use crate::error::{ErrorModel, SurpError};
use crate::render::{decimal, push_decimal, push_text, string_push};
use vstd::prelude::*;
use vstd::string::{StrSliceExecFns, StringExecFns};

verus! {

/// Whether `c` has the Unicode `White_Space` property, which is what
/// `char::is_whitespace` tells: tab, line feed, vertical tab, form feed,
/// carriage return, space, next line, no-break space, ogham space mark,
/// the spaces U+2000 to U+200A, line and paragraph separators, narrow
/// no-break space, medium mathematical space and ideographic space.
pub open spec fn is_whitespace_char(c: char) -> bool {
    ('\u{9}' <= c <= '\u{d}') || c == ' ' || c == '\u{85}' || c == '\u{a0}' || c == '\u{1680}'
        || ('\u{2000}' <= c <= '\u{200a}') || c == '\u{2028}' || c == '\u{2029}' || c == '\u{202f}'
        || c == '\u{205f}' || c == '\u{3000}'
}

/// Whether `c` is alphabetic in Unicode terms, as `char::is_alphabetic`
/// tells it.
pub uninterp spec fn is_alphabetic_char(c: char) -> bool;

/// Whether `c` is alphabetic or numeric in Unicode terms, as
/// `char::is_alphanumeric` tells it.
pub uninterp spec fn is_alphanumeric_char(c: char) -> bool;

/// Whether `c` is whitespace, as `char::is_whitespace` tells it.
pub(crate) fn char_is_whitespace(c: char) -> (r: bool)
    ensures
        r == is_whitespace_char(c),
{
    ('\u{9}' <= c && c <= '\u{d}') || c == ' ' || c == '\u{85}' || c == '\u{a0}' || c == '\u{1680}'
        || ('\u{2000}' <= c && c <= '\u{200a}') || c == '\u{2028}' || c == '\u{2029}' || c == '\u{202f}'
        || c == '\u{205f}' || c == '\u{3000}'
}

/// Calls `char::is_alphabetic`; its result is named `is_alphabetic_char`.
#[verifier::external_body]
fn char_is_alphabetic(c: char) -> (r: bool)
    ensures
        r == is_alphabetic_char(c),
{
    c.is_alphabetic()
}

/// Calls `char::is_alphanumeric`; its result is named `is_alphanumeric_char`.
#[verifier::external_body]
fn char_is_alphanumeric(c: char) -> (r: bool)
    ensures
        r == is_alphanumeric_char(c),
{
    c.is_alphanumeric()
}

/// A character that may continue an identifier or a type annotation.
pub open spec fn is_ident_char(c: char) -> bool {
    is_alphanumeric_char(c) || c == '_'
}

/// An ASCII decimal digit.
pub open spec fn is_digit(c: char) -> bool {
    '0' <= c <= '9'
}

/// A character of a base64 payload: ASCII letters and digits, `+`, `/`, `=`.
pub open spec fn is_base64_char(c: char) -> bool {
    ('a' <= c <= 'z') || ('A' <= c <= 'Z') || ('0' <= c <= '9') || c == '+' || c == '/' || c == '='
}

/// Where the parser stands: the index of the next character, and its line
/// and column (both counted from 1).
pub struct PState {
    pub pos: int,
    pub line: int,
    pub col: int,
}

/// The next character, if any.
pub open spec fn peek_at(cs: Seq<char>, st: PState) -> Option<char> {
    if 0 <= st.pos < cs.len() {
        Some(cs[st.pos])
    } else {
        None
    }
}

/// Moving past the next character, if any: a newline starts a new line.
pub open spec fn step(cs: Seq<char>, st: PState) -> PState {
    if 0 <= st.pos < cs.len() {
        if cs[st.pos] == '\n' {
            PState { pos: st.pos + 1, line: st.line + 1, col: 1 }
        } else {
            PState { pos: st.pos + 1, line: st.line, col: st.col + 1 }
        }
    } else {
        st
    }
}

/// Moving past `n` characters (fewer at the end of the input).
pub open spec fn steps(cs: Seq<char>, st: PState, n: nat) -> PState
    decreases n,
{
    if n == 0 {
        st
    } else {
        steps(cs, step(cs, st), (n - 1) as nat)
    }
}

/// The input continues with `lit` at `pos`.
pub open spec fn starts_with(cs: Seq<char>, pos: int, lit: Seq<char>) -> bool {
    0 <= pos && pos + lit.len() <= cs.len() && cs.subrange(pos, pos + lit.len()) == lit
}

/// Skipping the rest of a line comment: up to and including the next
/// newline, or to the end of the input.
pub open spec fn skip_line(cs: Seq<char>, st: PState) -> PState
    decreases cs.len() - st.pos,
{
    if st.pos < 0 || st.pos >= cs.len() {
        st
    } else if cs[st.pos] == '\n' {
        step(cs, st)
    } else {
        skip_line(cs, step(cs, st))
    }
}

/// Skipping the rest of a block comment `depth` levels deep (block
/// comments nest), or to the end of the input.
pub open spec fn skip_block(cs: Seq<char>, st: PState, depth: nat) -> PState
    decreases cs.len() - st.pos,
{
    if depth == 0 || st.pos < 0 || st.pos >= cs.len() {
        st
    } else {
        let c = cs[st.pos];
        let s1 = step(cs, st);
        if c == '*' && peek_at(cs, s1) == Some('/') {
            skip_block(cs, step(cs, s1), (depth - 1) as nat)
        } else if c == '/' && peek_at(cs, s1) == Some('*') {
            skip_block(cs, step(cs, s1), depth + 1)
        } else {
            skip_block(cs, s1, depth)
        }
    }
}

/// Skipping whitespace and comments.
pub open spec fn skip_ws(cs: Seq<char>, st: PState) -> PState
    decreases cs.len() - st.pos,
{
    if st.pos < 0 || st.pos >= cs.len() {
        st
    } else if is_whitespace_char(cs[st.pos]) {
        skip_ws(cs, step(cs, st))
    } else if starts_with(cs, st.pos, seq!['/', '/']) {
        let s1 = skip_line(cs, st);
        if st.pos < s1.pos <= cs.len() {
            skip_ws(cs, s1)
        } else {
            st
        }
    } else if starts_with(cs, st.pos, seq!['/', '*']) {
        let s1 = skip_block(cs, step(cs, step(cs, st)), 1);
        if st.pos < s1.pos <= cs.len() {
            skip_ws(cs, s1)
        } else {
            st
        }
    } else {
        st
    }
}

/// Skipping moves forward, and stays within the input.
pub proof fn lemma_skip_line(cs: Seq<char>, st: PState)
    requires
        0 <= st.pos <= cs.len(),
    ensures
        st.pos <= skip_line(cs, st).pos <= cs.len(),
        st.pos < cs.len() ==> st.pos < skip_line(cs, st).pos,
    decreases cs.len() - st.pos,
{
    if 0 <= st.pos < cs.len() && cs[st.pos] != '\n' {
        lemma_skip_line(cs, step(cs, st));
    }
}

/// Skipping a block comment moves forward and stays within the input.
pub proof fn lemma_skip_block(cs: Seq<char>, st: PState, depth: nat)
    requires
        0 <= st.pos <= cs.len(),
    ensures
        st.pos <= skip_block(cs, st, depth).pos <= cs.len(),
    decreases cs.len() - st.pos,
{
    if depth > 0 && 0 <= st.pos < cs.len() {
        let c = cs[st.pos];
        let s1 = step(cs, st);
        if c == '*' && peek_at(cs, s1) == Some('/') {
            lemma_skip_block(cs, step(cs, s1), (depth - 1) as nat);
        } else if c == '/' && peek_at(cs, s1) == Some('*') {
            lemma_skip_block(cs, step(cs, s1), depth + 1);
        } else {
            lemma_skip_block(cs, s1, depth);
        }
    }
}

/// Skipping whitespace and comments moves forward and stays within the input.
pub proof fn lemma_skip_ws(cs: Seq<char>, st: PState)
    requires
        0 <= st.pos <= cs.len(),
    ensures
        st.pos <= skip_ws(cs, st).pos <= cs.len(),
    decreases cs.len() - st.pos,
{
    if 0 <= st.pos < cs.len() {
        if is_whitespace_char(cs[st.pos]) {
            lemma_skip_ws(cs, step(cs, st));
        } else if starts_with(cs, st.pos, seq!['/', '/']) {
            lemma_skip_line(cs, st);
            let s1 = skip_line(cs, st);
            if st.pos < s1.pos <= cs.len() {
                lemma_skip_ws(cs, s1);
            }
        } else if starts_with(cs, st.pos, seq!['/', '*']) {
            lemma_skip_block(cs, step(cs, step(cs, st)), 1);
            let s1 = skip_block(cs, step(cs, step(cs, st)), 1);
            if st.pos < s1.pos <= cs.len() {
                lemma_skip_ws(cs, s1);
            }
        }
    }
}

/// A value of the text notation, as a mathematical value.
pub enum TextModel {
    Null,
    Bool(bool),
    UInt(u64),
    Int(i64),
    /// A float, as the text of its literal (or `inf`, `-inf`, `NaN`).
    Float(Seq<char>),
    Str(Seq<char>),
    Bytes(Seq<u8>),
    Array(Seq<TextModel>),
    Object(Seq<(Seq<char>, TextModel)>),
}

/// A value of the text notation.
#[derive(Debug, PartialEq)]
pub enum TextValue {
    /// `null`.
    Null,
    /// `true` or `false`.
    Bool(bool),
    /// Bare digits.
    UInt(u64),
    /// Digits after a `-`.
    Int(i64),
    /// A float: the text of a Rust float literal, or `inf`, `-inf`, `NaN`.
    Float(String),
    /// A quoted string.
    Str(String),
    /// `b64#` binary data.
    Bytes(Vec<u8>),
    /// `[ ... ]`.
    Array(Vec<TextValue>),
    /// `{ key: value; ... }`, fields in the order written.
    Object(Vec<(String, TextValue)>),
}

impl View for TextValue {
    type V = TextModel;

    open spec fn view(&self) -> TextModel
        decreases self,
    {
        match self {
            TextValue::Null => TextModel::Null,
            TextValue::Bool(b) => TextModel::Bool(*b),
            TextValue::UInt(n) => TextModel::UInt(*n),
            TextValue::Int(n) => TextModel::Int(*n),
            TextValue::Float(s) => TextModel::Float(s@),
            TextValue::Str(s) => TextModel::Str(s@),
            TextValue::Bytes(b) => TextModel::Bytes(b@),
            TextValue::Array(items) => TextModel::Array(
                Seq::new(
                    items@.len(),
                    |i: int|
                        if 0 <= i < items@.len() {
                            items@[i].view()
                        } else {
                            TextModel::Null
                        },
                ),
            ),
            TextValue::Object(entries) => TextModel::Object(
                Seq::new(
                    entries@.len(),
                    |i: int|
                        if 0 <= i < entries@.len() {
                            (entries@[i].0@, entries@[i].1.view())
                        } else {
                            (Seq::empty(), TextModel::Null)
                        },
                ),
            ),
        }
    }
}

/// A parse error at `st`.
pub open spec fn perr(st: PState, m: Seq<char>) -> ErrorModel {
    ErrorModel::ParseError { line: st.line as usize, col: st.col as usize, message: m }
}

/// Skipping whitespace and comments, then reading the character `c`.
pub open spec fn expect(cs: Seq<char>, st: PState, c: char) -> Result<PState, ErrorModel> {
    let s = skip_ws(cs, st);
    match peek_at(cs, s) {
        Some(ch) => if ch == c {
            Ok(step(cs, s))
        } else {
            Err(perr(step(cs, s), "expected '"@ + seq![c] + "', got '"@ + seq![ch] + "'"@))
        },
        None => Err(perr(s, "expected '"@ + seq![c] + "', got EOF"@)),
    }
}

/// Characters that continue an identifier.
pub open spec fn ident_pred() -> spec_fn(char) -> bool {
    |c: char| is_ident_char(c)
}

/// Characters of a base64 payload.
pub open spec fn base64_pred() -> spec_fn(char) -> bool {
    |c: char| is_base64_char(c)
}

/// Moving past every character that satisfies `p`.
pub open spec fn scan(cs: Seq<char>, st: PState, p: spec_fn(char) -> bool) -> PState
    decreases cs.len() - st.pos,
{
    if 0 <= st.pos < cs.len() && p(cs[st.pos]) {
        scan(cs, step(cs, st), p)
    } else {
        st
    }
}

/// Skipping an optional type annotation `::name`.
pub open spec fn skip_annotation(cs: Seq<char>, st: PState) -> PState {
    if starts_with(cs, st.pos, seq![':', ':']) {
        scan(cs, step(cs, step(cs, st)), ident_pred())
    } else {
        st
    }
}

/// Reading an identifier: a letter or `_`, then letters, digits and `_`.
pub open spec fn identifier(cs: Seq<char>, st: PState) -> Result<(Seq<char>, PState), ErrorModel> {
    match peek_at(cs, st) {
        Some(c) => if is_alphabetic_char(c) || c == '_' {
            let e = scan(cs, step(cs, st), ident_pred());
            Ok((cs.subrange(st.pos, e.pos), e))
        } else {
            Err(perr(st, "expected identifier"@))
        },
        None => Err(perr(st, "expected identifier"@)),
    }
}

/// What an escape `\e` in a quoted string stands for: `\n`, `\t`, `\r`,
/// `\\` and `\"` have their usual meaning; any other is kept as written.
pub open spec fn escaped(e: char) -> Seq<char> {
    if e == 'n' {
        seq!['\n']
    } else if e == 't' {
        seq!['\t']
    } else if e == 'r' {
        seq!['\r']
    } else if e == '\\' {
        seq!['\\']
    } else if e == '"' {
        seq!['"']
    } else {
        seq!['\\', e]
    }
}

/// `p` in front of the text that `r` read, if it read one.
pub open spec fn prepend(p: Seq<char>, r: Result<(Seq<char>, PState), ErrorModel>) -> Result<(Seq<char>, PState), ErrorModel> {
    match r {
        Ok((s, q)) => Ok((p + s, q)),
        Err(e) => Err(e),
    }
}

/// Reading the rest of a quoted string, up to and including its closing quote.
pub open spec fn string_body(cs: Seq<char>, st: PState) -> Result<(Seq<char>, PState), ErrorModel>
    decreases cs.len() - st.pos,
{
    if st.pos < 0 || st.pos >= cs.len() {
        Err(perr(st, "unterminated string"@))
    } else {
        let c = cs[st.pos];
        let s1 = step(cs, st);
        if c == '"' {
            Ok((Seq::empty(), s1))
        } else if c == '\\' {
            if s1.pos >= cs.len() {
                Err(perr(s1, "unterminated string escape"@))
            } else {
                prepend(escaped(cs[s1.pos]), string_body(cs, step(cs, s1)))
            }
        } else {
            prepend(seq![c], string_body(cs, s1))
        }
    }
}

/// Reading a quoted string.
pub open spec fn quoted(cs: Seq<char>, st: PState) -> Result<(Seq<char>, PState), ErrorModel> {
    match expect(cs, st, '"') {
        Ok(s1) => string_body(cs, s1),
        Err(e) => Err(e),
    }
}

/// Reading the key of an object field: a quoted string or an identifier.
pub open spec fn key(cs: Seq<char>, st: PState) -> Result<(Seq<char>, PState), ErrorModel> {
    let s = skip_ws(cs, st);
    if peek_at(cs, s) == Some('"') {
        quoted(cs, s)
    } else {
        identifier(cs, s)
    }
}

/// Moving past the characters of a number: digits, `.`, and `e` or `E`
/// with an optional sign after it.
pub open spec fn scan_number(cs: Seq<char>, st: PState) -> PState
    decreases cs.len() - st.pos,
{
    if 0 <= st.pos < cs.len() {
        let c = cs[st.pos];
        if is_digit(c) || c == '.' {
            scan_number(cs, step(cs, st))
        } else if c == 'e' || c == 'E' {
            let s1 = step(cs, st);
            if peek_at(cs, s1) == Some('+') || peek_at(cs, s1) == Some('-') {
                scan_number(cs, step(cs, s1))
            } else {
                scan_number(cs, s1)
            }
        } else {
            st
        }
    } else {
        st
    }
}

/// `t` without a leading sign.
pub open spec fn unsigned_part(t: Seq<char>) -> Seq<char> {
    if t.len() > 0 && (t[0] == '+' || t[0] == '-') {
        t.drop_first()
    } else {
        t
    }
}

/// Every character of `d` is a decimal digit.
pub open spec fn all_digits(d: Seq<char>) -> bool {
    forall|i: int| 0 <= i < d.len() ==> is_digit(#[trigger] d[i])
}

/// The value of the decimal digits `d`.
pub open spec fn digits_value(d: Seq<char>) -> nat
    decreases d.len(),
{
    if d.len() == 0 {
        0
    } else {
        digits_value(d.drop_last()) * 10 + ((d.last() as int - '0' as int) as nat)
    }
}

/// What `u64::from_str` makes of `t`: an optional `+`, then at least one
/// digit, with a value that fits.
pub open spec fn u64_literal(t: Seq<char>) -> Option<u64> {
    let d = if t.len() > 0 && t[0] == '+' {
        t.drop_first()
    } else {
        t
    };
    if d.len() > 0 && all_digits(d) && digits_value(d) <= u64::MAX {
        Some(digits_value(d) as u64)
    } else {
        None
    }
}

/// What `i64::from_str` makes of `t`: an optional sign, then at least one
/// digit, with a value that fits.
pub open spec fn i64_literal(t: Seq<char>) -> Option<i64> {
    let neg = t.len() > 0 && t[0] == '-';
    let d = unsigned_part(t);
    if d.len() > 0 && all_digits(d) && (if neg {
        digits_value(d) <= 0x8000_0000_0000_0000
    } else {
        digits_value(d) <= i64::MAX
    }) {
        Some(
            (if neg {
                0 - digits_value(d)
            } else {
                digits_value(d) as int
            }) as i64,
        )
    } else {
        None
    }
}

/// The index of the first `e` or `E` in `b` at or after `i` (the length of
/// `b` if there is none).
pub open spec fn exponent_start(b: Seq<char>, i: int) -> int
    decreases b.len() - i,
{
    if i < 0 || i >= b.len() {
        b.len() as int
    } else if b[i] == 'e' || b[i] == 'E' {
        i
    } else {
        exponent_start(b, i + 1)
    }
}

/// A mantissa: digits with at most one `.`, and at least one digit.
pub open spec fn mantissa_ok(m: Seq<char>) -> bool {
    &&& forall|i: int| 0 <= i < m.len() ==> is_digit(#[trigger] m[i]) || m[i] == '.'
    &&& forall|i: int, j: int| 0 <= i < j < m.len() && #[trigger] m[i] == '.' ==> #[trigger] m[j] != '.'
    &&& exists|i: int| 0 <= i < m.len() && is_digit(#[trigger] m[i])
}

/// An exponent: nothing, or `e` or `E`, an optional sign and at least one digit.
pub open spec fn exponent_ok(x: Seq<char>) -> bool {
    x.len() == 0 || ((x[0] == 'e' || x[0] == 'E') && unsigned_part(x.drop_first()).len() > 0
        && all_digits(unsigned_part(x.drop_first())))
}

/// Whether `f64::from_str` accepts `t`, for a `t` made of digits, `.`, `e`,
/// `E` and signs: an optional sign, a mantissa and an optional exponent.
pub open spec fn float_literal(t: Seq<char>) -> bool {
    let b = unsigned_part(t);
    let k = exponent_start(b, 0);
    mantissa_ok(b.subrange(0, k)) && exponent_ok(b.subrange(k, b.len() as int))
}

/// The text of a number holds a `.`, `e` or `E`: it is a float.
pub open spec fn has_float_mark(t: Seq<char>) -> bool {
    exists|i: int| 0 <= i < t.len() && (#[trigger] t[i] == '.' || t[i] == 'e' || t[i] == 'E')
}

/// Reading a number: integers become `UInt` (or `Int` after a `-`), texts
/// with a `.`, `e` or `E` become floats.
pub open spec fn number(cs: Seq<char>, st: PState) -> Result<(TextModel, PState), ErrorModel> {
    let s1 = if peek_at(cs, st) == Some('-') || peek_at(cs, st) == Some('+') {
        step(cs, st)
    } else {
        st
    };
    let e = scan_number(cs, s1);
    let text = cs.subrange(st.pos, e.pos);
    let s2 = skip_annotation(cs, e);
    if has_float_mark(text) {
        if float_literal(text) {
            Ok((TextModel::Float(text), s2))
        } else {
            Err(perr(s2, "invalid float: "@ + text))
        }
    } else if peek_at(cs, st) == Some('-') {
        match i64_literal(text) {
            Some(n) => Ok((TextModel::Int(n), s2)),
            None => Err(perr(s2, "invalid integer: "@ + text)),
        }
    } else {
        match u64_literal(text) {
            Some(n) => Ok((TextModel::UInt(n), s2)),
            None => Err(perr(s2, "invalid integer: "@ + text)),
        }
    }
}

/// What the standard base64 engine (`base64::engine::general_purpose::STANDARD`)
/// decodes `text` to, or the text of its error.
pub uninterp spec fn base64_decode_of(text: Seq<char>) -> Result<Seq<u8>, Seq<char>>;

/// Calls `decode` of the standard base64 engine
/// (`base64::engine::general_purpose::STANDARD`) on `text`. The result is
/// named `base64_decode_of`; an error is carried as the text its `Display`
/// implementation renders.
#[verifier::external_body]
pub(crate) fn base64_decode(text: &str) -> (r: Result<Vec<u8>, String>)
    ensures
        match r {
            Ok(b) => base64_decode_of(text@) == Ok::<Seq<u8>, Seq<char>>(b@),
            Err(m) => base64_decode_of(text@) == Err::<Seq<u8>, Seq<char>>(m@),
        },
{
    match base64::engine::general_purpose::STANDARD.decode(text) {
        Ok(b) => Ok(b),
        Err(e) => Err(e.to_string()),
    }
}

/// Reading binary data: `b64#` and a base64 payload, up to the first
/// character that cannot belong to one.
pub open spec fn bytes(cs: Seq<char>, st: PState) -> Result<(TextModel, PState), ErrorModel> {
    let s1 = steps(cs, st, 4);
    let e = scan(cs, s1, base64_pred());
    let text = cs.subrange(s1.pos, e.pos);
    if text.len() == 0 {
        Err(perr(e, "empty base64 payload"@))
    } else {
        match base64_decode_of(text) {
            Ok(b) => Ok((TextModel::Bytes(b), e)),
            Err(m) => Err(perr(e, "invalid base64: "@ + m)),
        }
    }
}

/// Reading a keyword of `n` characters that stands for `v`, and an optional
/// type annotation after it.
pub open spec fn keyword(cs: Seq<char>, st: PState, n: nat, v: TextModel) -> Result<(TextModel, PState), ErrorModel> {
    Ok((v, skip_annotation(cs, steps(cs, st, n))))
}

/// Putting `a` and then `b` in front is putting `a + b` in front.
pub proof fn lemma_prepend_assoc(a: Seq<char>, b: Seq<char>, r: Result<(Seq<char>, PState), ErrorModel>)
    ensures
        prepend(a, prepend(b, r)) == prepend(a + b, r),
{
    match r {
        Ok((s, q)) => {
            assert(a + (b + s) =~= (a + b) + s);
        },
        Err(_) => {},
    }
}

/// Scanning moves forward and stays within the input.
pub proof fn lemma_scan(cs: Seq<char>, st: PState, p: spec_fn(char) -> bool)
    requires
        0 <= st.pos <= cs.len(),
    ensures
        st.pos <= scan(cs, st, p).pos <= cs.len(),
    decreases cs.len() - st.pos,
{
    if 0 <= st.pos < cs.len() && p(cs[st.pos]) {
        lemma_scan(cs, step(cs, st), p);
    }
}

/// A text has a float mark after a character is added exactly when it had
/// one before or the character is one.
pub proof fn lemma_float_mark_push(t: Seq<char>, c: char)
    ensures
        has_float_mark(t.push(c)) == (has_float_mark(t) || c == '.' || c == 'e' || c == 'E'),
{
    let u = t.push(c);
    if has_float_mark(t) {
        let i = choose|i: int| 0 <= i < t.len() && (#[trigger] t[i] == '.' || t[i] == 'e' || t[i] == 'E');
        assert(u[i] == t[i]);
    }
    if c == '.' || c == 'e' || c == 'E' {
        assert(u[t.len() as int] == c);
    }
    if has_float_mark(u) {
        let i = choose|i: int| 0 <= i < u.len() && (#[trigger] u[i] == '.' || u[i] == 'e' || u[i] == 'E');
        if i < t.len() {
            assert(t[i] == u[i]);
        }
    }
}

/// One more digit: the value is ten times the value so far plus the digit.
pub proof fn lemma_digits_step(t: Seq<char>, a: int, i: int)
    requires
        0 <= a <= i < t.len(),
    ensures
        digits_value(t.subrange(a, i + 1)) == digits_value(t.subrange(a, i)) * 10 + ((t[i] as int - '0' as int) as nat),
{
    assert(t.subrange(a, i + 1).drop_last() =~= t.subrange(a, i));
}

/// The value of a prefix of digits is at most the value of all of them.
pub proof fn lemma_digits_prefix(d: Seq<char>, k: int)
    requires
        all_digits(d),
        0 <= k <= d.len(),
    ensures
        digits_value(d.subrange(0, k)) <= digits_value(d),
    decreases d.len(),
{
    if k < d.len() {
        let e = d.drop_last();
        assert(all_digits(e)) by {
            assert forall|i: int| 0 <= i < e.len() implies is_digit(#[trigger] e[i]) by {
                assert(e[i] == d[i]);
            }
        }
        lemma_digits_prefix(e, k);
        assert(e.subrange(0, k) =~= d.subrange(0, k));
        assert(is_digit(d[d.len() - 1]));
    } else {
        assert(d.subrange(0, k) =~= d);
    }
}

/// Reading an expected character moves forward and stays within the input.
pub proof fn lemma_expect(cs: Seq<char>, st: PState, c: char)
    requires
        0 <= st.pos <= cs.len(),
    ensures
        expect(cs, st, c) matches Ok(q) ==> st.pos < q.pos <= cs.len(),
{
    lemma_skip_ws(cs, st);
}

/// Reading the rest of a quoted string moves forward and stays within the input.
pub proof fn lemma_string_body(cs: Seq<char>, st: PState)
    requires
        0 <= st.pos <= cs.len(),
    ensures
        string_body(cs, st) matches Ok((_, q)) ==> st.pos < q.pos <= cs.len(),
    decreases cs.len() - st.pos,
{
    if 0 <= st.pos < cs.len() {
        let c = cs[st.pos];
        let s1 = step(cs, st);
        if c == '"' {
        } else if c == '\\' {
            if s1.pos < cs.len() {
                lemma_string_body(cs, step(cs, s1));
            }
        } else {
            lemma_string_body(cs, s1);
        }
    }
}

/// Reading a key moves forward and stays within the input.
pub proof fn lemma_key(cs: Seq<char>, st: PState)
    requires
        0 <= st.pos <= cs.len(),
    ensures
        key(cs, st) matches Ok((_, q)) ==> st.pos < q.pos <= cs.len(),
{
    lemma_skip_ws(cs, st);
    let s = skip_ws(cs, st);
    lemma_expect(cs, s, '"');
    if let Ok(s1) = expect(cs, s, '"') {
        lemma_string_body(cs, s1);
    }
    if s.pos < cs.len() {
        lemma_scan(cs, step(cs, s), ident_pred());
    }
}

/// Moving past `n` characters moves forward by `n` while there are that many.
pub proof fn lemma_steps(cs: Seq<char>, st: PState, n: nat)
    requires
        0 <= st.pos <= cs.len(),
    ensures
        st.pos <= steps(cs, st, n).pos <= cs.len(),
        st.pos + n <= cs.len() ==> steps(cs, st, n).pos == st.pos + n,
    decreases n,
{
    if n > 0 {
        lemma_steps(cs, step(cs, st), (n - 1) as nat);
    }
}

/// Moving past a number moves forward, past at least its first digit.
pub proof fn lemma_scan_number(cs: Seq<char>, st: PState)
    requires
        0 <= st.pos <= cs.len(),
    ensures
        st.pos <= scan_number(cs, st).pos <= cs.len(),
        st.pos < cs.len() && is_digit(cs[st.pos]) ==> st.pos < scan_number(cs, st).pos,
    decreases cs.len() - st.pos,
{
    if 0 <= st.pos < cs.len() {
        let c = cs[st.pos];
        if is_digit(c) || c == '.' {
            lemma_scan_number(cs, step(cs, st));
        } else if c == 'e' || c == 'E' {
            let s1 = step(cs, st);
            if peek_at(cs, s1) == Some('+') || peek_at(cs, s1) == Some('-') {
                lemma_scan_number(cs, step(cs, s1));
            } else {
                lemma_scan_number(cs, s1);
            }
        }
    }
}

/// Skipping a type annotation moves forward and stays within the input.
pub proof fn lemma_skip_annotation(cs: Seq<char>, st: PState)
    requires
        0 <= st.pos <= cs.len(),
    ensures
        st.pos <= skip_annotation(cs, st).pos <= cs.len(),
{
    if starts_with(cs, st.pos, seq![':', ':']) {
        lemma_scan(cs, step(cs, step(cs, st)), ident_pred());
    }
}

/// The items of an array after `p`.
pub open spec fn cons_items(p: Seq<TextModel>, r: Result<(Seq<TextModel>, PState), ErrorModel>) -> Result<(Seq<TextModel>, PState), ErrorModel> {
    match r {
        Ok((vs, q)) => Ok((p + vs, q)),
        Err(e) => Err(e),
    }
}

/// The fields of an object after `p`.
pub open spec fn cons_fields(
    p: Seq<(Seq<char>, TextModel)>,
    r: Result<(Seq<(Seq<char>, TextModel)>, PState), ErrorModel>,
) -> Result<(Seq<(Seq<char>, TextModel)>, PState), ErrorModel> {
    match r {
        Ok((fs, q)) => Ok((p + fs, q)),
        Err(e) => Err(e),
    }
}

/// The models of a sequence of values.
pub open spec fn items_view(items: Seq<TextValue>) -> Seq<TextModel> {
    Seq::new(items.len(), |i: int| items[i]@)
}

/// The models of a sequence of fields.
pub open spec fn fields_view(entries: Seq<(String, TextValue)>) -> Seq<(Seq<char>, TextModel)> {
    Seq::new(entries.len(), |i: int| (entries[i].0@, entries[i].1@))
}

/// The model of an array value is the models of its items.
pub proof fn lemma_array_view(items: Vec<TextValue>)
    ensures
        TextValue::Array(items)@ == TextModel::Array(items_view(items@)),
{
    let v = TextValue::Array(items);
    reveal_with_fuel(<TextValue as View>::view, 2);
    if let TextModel::Array(s) = v@ {
        assert(s.len() == items@.len());
        assert forall|i: int| 0 <= i < s.len() implies s[i] == items_view(items@)[i] by {}
        assert(s =~= items_view(items@));
    }
}

/// The model of an object value is the models of its fields.
pub proof fn lemma_object_view(entries: Vec<(String, TextValue)>)
    ensures
        TextValue::Object(entries)@ == TextModel::Object(fields_view(entries@)),
{
    let v = TextValue::Object(entries);
    reveal_with_fuel(<TextValue as View>::view, 2);
    if let TextModel::Object(s) = v@ {
        assert(s.len() == entries@.len());
        assert forall|i: int| 0 <= i < s.len() implies s[i] == fields_view(entries@)[i] by {}
        assert(s =~= fields_view(entries@));
    }
}

/// Reading a string value: a quoted string and an optional type annotation.
pub open spec fn string_value(cs: Seq<char>, st: PState) -> Result<(TextModel, PState), ErrorModel> {
    match quoted(cs, st) {
        Ok((s, q)) => Ok((TextModel::Str(s), skip_annotation(cs, q))),
        Err(e) => Err(e),
    }
}

/// Reading a value, after whitespace and comments.
pub open spec fn value(cs: Seq<char>, st: PState) -> Result<(TextModel, PState), ErrorModel>
    decreases cs.len() - st.pos, 2nat,
    when 0 <= st.pos <= cs.len()
{
    let s = skip_ws(cs, st);
    proof {
        lemma_skip_ws(cs, st);
    }
    match peek_at(cs, s) {
        None => Err(perr(s, "unexpected end of input"@)),
        Some(c) => if c == '{' {
            object(cs, s)
        } else if c == '[' {
            array(cs, s)
        } else if c == '"' {
            string_value(cs, s)
        } else if c == 'b' && starts_with(cs, s.pos, "b64#"@) {
            bytes(cs, s)
        } else if c == 't' && starts_with(cs, s.pos, "true"@) {
            keyword(cs, s, 4, TextModel::Bool(true))
        } else if c == 'f' && starts_with(cs, s.pos, "false"@) {
            keyword(cs, s, 5, TextModel::Bool(false))
        } else if c == 'n' && starts_with(cs, s.pos, "null"@) {
            keyword(cs, s, 4, TextModel::Null)
        } else if c == 'i' && starts_with(cs, s.pos, "inf"@) {
            keyword(cs, s, 3, TextModel::Float("inf"@))
        } else if c == 'N' && starts_with(cs, s.pos, "NaN"@) {
            keyword(cs, s, 3, TextModel::Float("NaN"@))
        } else if c == '-' || c == '+' || is_digit(c) {
            if c == '-' && starts_with(cs, s.pos, "-inf"@) {
                keyword(cs, s, 4, TextModel::Float("-inf"@))
            } else {
                number(cs, s)
            }
        } else {
            Err(perr(s, "unexpected character: '"@ + seq![c] + "'"@))
        },
    }
}

/// Reading an array: `[`, then items up to `]`.
pub open spec fn array(cs: Seq<char>, st: PState) -> Result<(TextModel, PState), ErrorModel>
    decreases cs.len() - st.pos, 1nat,
    when 0 <= st.pos <= cs.len()
{
    match expect(cs, st, '[') {
        Err(e) => Err(e),
        Ok(s1) => {
            proof {
                lemma_expect(cs, st, '[');
            }
            match items(cs, s1) {
                Ok((vs, q)) => Ok((TextModel::Array(vs), q)),
                Err(e) => Err(e),
            }
        },
    }
}

/// Reading the items of an array up to and including its `]`; a `,` or a
/// `;` may follow each item. (A value always moves the read position
/// forward, so the last branch is never taken.)
pub open spec fn items(cs: Seq<char>, st: PState) -> Result<(Seq<TextModel>, PState), ErrorModel>
    decreases cs.len() - st.pos, 3nat,
    when 0 <= st.pos <= cs.len()
{
    let s = skip_ws(cs, st);
    proof {
        lemma_skip_ws(cs, st);
    }
    if peek_at(cs, s) == Some(']') {
        Ok((Seq::empty(), step(cs, s)))
    } else {
        match value(cs, s) {
            Err(e) => Err(e),
            Ok((v, q)) => if s.pos < q.pos <= cs.len() {
                let s2 = skip_ws(cs, q);
                proof {
                    lemma_skip_ws(cs, q);
                }
                let s3 = if peek_at(cs, s2) == Some(',') || peek_at(cs, s2) == Some(';') {
                    step(cs, s2)
                } else {
                    s2
                };
                match items(cs, s3) {
                    Ok((vs, p)) => Ok((seq![v] + vs, p)),
                    Err(e) => Err(e),
                }
            } else {
                Err(perr(q, "unexpected end of input"@))
            },
        }
    }
}

/// Reading an object: `{`, then fields up to `}`.
pub open spec fn object(cs: Seq<char>, st: PState) -> Result<(TextModel, PState), ErrorModel>
    decreases cs.len() - st.pos, 1nat,
    when 0 <= st.pos <= cs.len()
{
    match expect(cs, st, '{') {
        Err(e) => Err(e),
        Ok(s1) => {
            proof {
                lemma_expect(cs, st, '{');
            }
            match fields(cs, s1) {
                Ok((fs, q)) => Ok((TextModel::Object(fs), q)),
                Err(e) => Err(e),
            }
        },
    }
}

/// Reading the fields `key: value;` of an object up to and including its
/// `}`. (A field always moves the read position forward, so the last
/// branch is never taken.)
pub open spec fn fields(cs: Seq<char>, st: PState) -> Result<(Seq<(Seq<char>, TextModel)>, PState), ErrorModel>
    decreases cs.len() - st.pos, 3nat,
    when 0 <= st.pos <= cs.len()
{
    let s = skip_ws(cs, st);
    proof {
        lemma_skip_ws(cs, st);
    }
    if peek_at(cs, s) == Some('}') {
        Ok((Seq::empty(), step(cs, s)))
    } else {
        match key(cs, s) {
            Err(e) => Err(e),
            Ok((k, s2)) => match expect(cs, s2, ':') {
                Err(e) => Err(e),
                Ok(s3) => {
                    proof {
                        lemma_key(cs, s);
                        lemma_expect(cs, s2, ':');
                    }
                    match value(cs, s3) {
                        Err(e) => Err(e),
                        Ok((v, s4)) => match expect(cs, s4, ';') {
                            Err(e) => Err(e),
                            Ok(s5) => if st.pos < s5.pos <= cs.len() {
                                match fields(cs, s5) {
                                    Ok((fs, q)) => Ok((seq![(k, v)] + fs, q)),
                                    Err(e) => Err(e),
                                }
                            } else {
                                Err(perr(s5, "unexpected end of input"@))
                            },
                        },
                    }
                },
            },
        }
    }
}

/// Reading a whole document: one value, optionally followed by `;`, and
/// nothing else but whitespace and comments.
pub open spec fn document(cs: Seq<char>) -> Result<TextModel, ErrorModel> {
    match value(cs, PState { pos: 0, line: 1, col: 1 }) {
        Err(e) => Err(e),
        Ok((v, s1)) => {
            let s2 = skip_ws(cs, s1);
            let s3 = if peek_at(cs, s2) == Some(';') {
                skip_ws(cs, step(cs, s2))
            } else {
                s2
            };
            if s3.pos != cs.len() {
                Err(perr(s3, "unexpected trailing content"@))
            } else {
                Ok(v)
            }
        },
    }
}

/// The characters of `s`, in order.
pub fn chars_of(s: &str) -> (v: Vec<char>)
    ensures
        v@ == s@,
{
    let mut v: Vec<char> = Vec::new();
    for c in it: s.chars()
        invariant
            v@ == it.seq().take(it.index()),
    {
        v.push(c);
    }
    proof {
        assert(v@ =~= s@);
    }
    v
}

/// The value of the digits `t[start..]`, if there is at least one, all are
/// digits and their value is at most `limit`.
fn digits_to_u64(t: &Vec<char>, start: usize, limit: u64) -> (r: Option<u64>)
    requires
        start <= t@.len(),
    ensures
        r == (if start < t@.len() && all_digits(t@.subrange(start as int, t@.len() as int)) && digits_value(
            t@.subrange(start as int, t@.len() as int),
        ) <= limit {
            Some(digits_value(t@.subrange(start as int, t@.len() as int)) as u64)
        } else {
            None
        }),
{
    let ghost d = t@.subrange(start as int, t@.len() as int);
    if start >= t.len() {
        return None;
    }
    let mut acc: u64 = 0;
    let mut i: usize = start;
    proof {
        assert(t@.subrange(start as int, start as int) =~= Seq::<char>::empty());
    }
    while i < t.len()
        invariant
            start <= i <= t@.len(),
            d == t@.subrange(start as int, t@.len() as int),
            acc == digits_value(t@.subrange(start as int, i as int)),
            all_digits(t@.subrange(start as int, i as int)),
            acc <= limit,
        decreases t@.len() - i,
    {
        let c = t[i];
        if !('0' <= c && c <= '9') {
            proof {
                assert(d[i - start] == c);
            }
            return None;
        }
        let dv: u64 = (c as u32 - 48) as u64;
        proof {
            lemma_digits_step(t@, start as int, i as int);
            assert(all_digits(t@.subrange(start as int, i + 1))) by {
                let p = t@.subrange(start as int, i + 1);
                assert forall|j: int| 0 <= j < p.len() implies is_digit(#[trigger] p[j]) by {
                    if j < i - start {
                        assert(p[j] == t@.subrange(start as int, i as int)[j]);
                    }
                }
            }
        }
        let next: u128 = acc as u128 * 10 + dv as u128;
        if next > limit as u128 {
            proof {
                if all_digits(d) {
                    lemma_digits_prefix(d, i + 1 - start);
                    assert(d.subrange(0, i + 1 - start) =~= t@.subrange(start as int, i + 1));
                }
            }
            return None;
        }
        acc = next as u64;
        i = i + 1;
    }
    proof {
        assert(t@.subrange(start as int, i as int) =~= d);
    }
    Some(acc)
}

/// What `u64::from_str` makes of the text `t`.
fn u64_from_text(t: &Vec<char>) -> (r: Option<u64>)
    ensures
        r == u64_literal(t@),
{
    if t.len() > 0 && t[0] == '+' {
        proof {
            assert(t@.drop_first() =~= t@.subrange(1, t@.len() as int));
        }
        digits_to_u64(t, 1, u64::MAX)
    } else {
        proof {
            assert(t@ =~= t@.subrange(0, t@.len() as int));
        }
        digits_to_u64(t, 0, u64::MAX)
    }
}

/// What `i64::from_str` makes of the text `t`, which starts with `-`.
fn neg_i64_from_text(t: &Vec<char>) -> (r: Option<i64>)
    requires
        t@.len() > 0,
        t@[0] == '-',
    ensures
        r == i64_literal(t@),
{
    proof {
        assert(t@.drop_first() =~= t@.subrange(1, t@.len() as int));
    }
    match digits_to_u64(t, 1, 0x8000_0000_0000_0000) {
        Some(v) => {
            if v == 0x8000_0000_0000_0000 {
                Some(i64::MIN)
            } else {
                Some(0 - (v as i64))
            }
        },
        None => None,
    }
}

/// What `i64::from_str` makes of the text `t`.
pub(crate) fn i64_from_text(t: &Vec<char>) -> (r: Option<i64>)
    ensures
        r == i64_literal(t@),
{
    if t.len() > 0 && t[0] == '-' {
        return neg_i64_from_text(t);
    }
    let start: usize = if t.len() > 0 && t[0] == '+' {
        1
    } else {
        0
    };
    proof {
        if t@.len() > 0 && t@[0] == '+' {
            assert(t@.drop_first() =~= t@.subrange(1, t@.len() as int));
        } else {
            assert(t@ =~= t@.subrange(0, t@.len() as int));
        }
    }
    match digits_to_u64(t, start, 0x7FFF_FFFF_FFFF_FFFF) {
        Some(v) => Some(v as i64),
        None => None,
    }
}

/// Whether `t[lo..hi]` is a mantissa.
fn mantissa_check(t: &Vec<char>, lo: usize, hi: usize) -> (r: bool)
    requires
        lo <= hi <= t@.len(),
    ensures
        r == mantissa_ok(t@.subrange(lo as int, hi as int)),
{
    let ghost m = t@.subrange(lo as int, hi as int);
    let mut i: usize = lo;
    let mut seen_dot = false;
    let mut seen_digit = false;
    while i < hi
        invariant
            lo <= i <= hi <= t@.len(),
            m == t@.subrange(lo as int, hi as int),
            forall|j: int| 0 <= j < i - lo ==> is_digit(#[trigger] m[j]) || m[j] == '.',
            forall|a: int, b: int| 0 <= a < b < i - lo && #[trigger] m[a] == '.' ==> #[trigger] m[b] != '.',
            seen_dot == (exists|j: int| 0 <= j < i - lo && #[trigger] m[j] == '.'),
            seen_digit == (exists|j: int| 0 <= j < i - lo && is_digit(#[trigger] m[j])),
        decreases hi - i,
    {
        let c = t[i];
        proof {
            assert(m[i - lo] == c);
        }
        if '0' <= c && c <= '9' {
            seen_digit = true;
        } else if c == '.' {
            if seen_dot {
                proof {
                    let a = choose|j: int| 0 <= j < i - lo && #[trigger] m[j] == '.';
                    assert(m[a] == '.' && m[i - lo] == '.');
                }
                return false;
            }
            seen_dot = true;
        } else {
            return false;
        }
        i = i + 1;
    }
    seen_digit
}

/// Whether `t[j..]` is made of digits only.
fn all_digits_check(t: &Vec<char>, j: usize) -> (r: bool)
    requires
        j <= t@.len(),
    ensures
        r == all_digits(t@.subrange(j as int, t@.len() as int)),
{
    let ghost d = t@.subrange(j as int, t@.len() as int);
    let mut i: usize = j;
    while i < t.len()
        invariant
            j <= i <= t@.len(),
            d == t@.subrange(j as int, t@.len() as int),
            forall|k: int| 0 <= k < i - j ==> is_digit(#[trigger] d[k]),
        decreases t@.len() - i,
    {
        let c = t[i];
        proof {
            assert(d[i - j] == c);
        }
        if !('0' <= c && c <= '9') {
            return false;
        }
        i = i + 1;
    }
    true
}

/// Whether `t[k..]` is an exponent.
fn exponent_check(t: &Vec<char>, k: usize) -> (r: bool)
    requires
        k <= t@.len(),
    ensures
        r == exponent_ok(t@.subrange(k as int, t@.len() as int)),
{
    let ghost x = t@.subrange(k as int, t@.len() as int);
    if k == t.len() {
        return true;
    }
    if t[k] != 'e' && t[k] != 'E' {
        return false;
    }
    let ghost y = x.drop_first();
    proof {
        assert(y =~= t@.subrange(k + 1, t@.len() as int));
    }
    let mut j: usize = k + 1;
    if j < t.len() && (t[j] == '+' || t[j] == '-') {
        j = j + 1;
        proof {
            assert(y.drop_first() =~= t@.subrange(j as int, t@.len() as int));
        }
    }
    proof {
        assert(unsigned_part(y) =~= t@.subrange(j as int, t@.len() as int));
    }
    if j == t.len() {
        return false;
    }
    all_digits_check(t, j)
}

/// Whether `f64::from_str` accepts the text `t` (made of digits, `.`, `e`,
/// `E` and signs).
pub(crate) fn float_literal_check(t: &Vec<char>) -> (r: bool)
    ensures
        r == float_literal(t@),
{
    let start: usize = if t.len() > 0 && (t[0] == '+' || t[0] == '-') {
        1
    } else {
        0
    };
    let ghost b = unsigned_part(t@);
    proof {
        assert(b =~= t@.subrange(start as int, t@.len() as int));
    }
    let mut k: usize = start;
    while k < t.len() && t[k] != 'e' && t[k] != 'E'
        invariant
            start <= k <= t@.len(),
            b == t@.subrange(start as int, t@.len() as int),
            exponent_start(b, k - start) == exponent_start(b, 0),
        decreases t@.len() - k,
    {
        proof {
            assert(b[k - start] == t@[k as int]);
        }
        k = k + 1;
    }
    proof {
        if k < t@.len() {
            assert(b[k - start] == t@[k as int]);
        }
        assert(exponent_start(b, k - start) == k - start);
        assert(b.subrange(0, k - start) =~= t@.subrange(start as int, k as int));
        assert(b.subrange(k - start, b.len() as int) =~= t@.subrange(k as int, t@.len() as int));
    }
    mantissa_check(t, start, k) && exponent_check(t, k)
}

/// A text parser over the characters of its input.
pub struct Parser {
    chars: Vec<char>,
    pos: usize,
    line: usize,
    col: usize,
}

impl Parser {
    /// The characters of the input.
    pub closed spec fn input(&self) -> Seq<char> {
        self.chars@
    }

    /// Where the parser stands.
    pub closed spec fn state(&self) -> PState {
        PState { pos: self.pos as int, line: self.line as int, col: self.col as int }
    }

    /// The parser stands within its input, with line and column numbers
    /// no larger than the input is long (plus one).
    pub closed spec fn wf(&self) -> bool {
        &&& self.pos <= self.chars@.len()
        &&& 1 <= self.line <= self.pos + 1
        &&& 1 <= self.col <= self.pos + 1
        &&& self.chars@.len() < usize::MAX
    }

    /// A parser at the start of `input`, on line 1, column 1.
    pub fn new(input: &str) -> (p: Parser)
        requires
            input@.len() < usize::MAX,
        ensures
            p.wf(),
            p.input() == input@,
            p.state() == (PState { pos: 0, line: 1, col: 1 }),
    {
        Parser { chars: chars_of(input), pos: 0, line: 1, col: 1 }
    }

    /// The next character, if any.
    fn peek(&self) -> (r: Option<char>)
        requires
            self.wf(),
        ensures
            r == peek_at(self.input(), self.state()),
    {
        if self.pos < self.chars.len() {
            Some(self.chars[self.pos])
        } else {
            None
        }
    }

    /// Whether the next character is `c`.
    fn peek_is(&self, c: char) -> (r: bool)
        requires
            self.wf(),
        ensures
            r == (peek_at(self.input(), self.state()) == Some(c)),
    {
        self.pos < self.chars.len() && self.chars[self.pos] == c
    }

    /// Move past the next character, if any, and return it.
    fn advance(&mut self) -> (r: Option<char>)
        requires
            old(self).wf(),
        ensures
            final(self).wf(),
            final(self).input() == old(self).input(),
            final(self).state() == step(old(self).input(), old(self).state()),
            r == peek_at(old(self).input(), old(self).state()),
    {
        if self.pos >= self.chars.len() {
            return None;
        }
        let ch = self.chars[self.pos];
        self.pos = self.pos + 1;
        if ch == '\n' {
            self.line = self.line + 1;
            self.col = 1;
        } else {
            self.col = self.col + 1;
        }
        Some(ch)
    }

    /// Whether the input continues with `lit` at the read position.
    fn starts_with(&self, lit: &str) -> (r: bool)
        requires
            self.wf(),
        ensures
            r == starts_with(self.input(), self.state().pos, lit@),
    {
        let n = lit.unicode_len();
        if n > self.chars.len() - self.pos {
            return false;
        }
        let mut i: usize = 0;
        while i < n
            invariant
                self.wf(),
                i <= n,
                n == lit@.len(),
                self.pos + n <= self.chars@.len(),
                forall|j: int| 0 <= j < i ==> self.chars@[self.pos + j] == lit@[j],
            decreases n - i,
        {
            if self.chars[self.pos + i] != lit.get_char(i) {
                proof {
                    assert(self.chars@.subrange(self.pos as int, self.pos + n)[i as int] != lit@[i as int]);
                }
                return false;
            }
            i = i + 1;
        }
        proof {
            assert(self.chars@.subrange(self.pos as int, self.pos + n) =~= lit@);
        }
        true
    }

    /// Skip whitespace and comments.
    fn skip_whitespace_and_comments(&mut self)
        requires
            old(self).wf(),
        ensures
            final(self).wf(),
            final(self).input() == old(self).input(),
            final(self).state() == skip_ws(old(self).input(), old(self).state()),
    {
        let ghost cs = self.input();
        proof {
            reveal_strlit("//");
            reveal_strlit("/*");
            assert("//"@ =~= seq!['/', '/']);
            assert("/*"@ =~= seq!['/', '*']);
        }
        loop
            invariant
                self.wf(),
                self.input() == cs,
                cs == old(self).input(),
                "//"@ == seq!['/', '/'],
                "/*"@ == seq!['/', '*'],
                skip_ws(cs, self.state()) == skip_ws(cs, old(self).state()),
            decreases cs.len() - self.state().pos,
        {
            let ghost s0 = self.state();
            match self.peek() {
                Some(ch) => {
                    if char_is_whitespace(ch) {
                        self.advance();
                        continue;
                    }
                },
                None => {
                    return;
                },
            }
            if self.starts_with("//") {
                proof {
                    lemma_skip_line(cs, s0);
                }
                loop
                    invariant_except_break
                        skip_line(cs, s0) == skip_line(cs, self.state()),
                    invariant
                        self.wf(),
                        self.input() == cs,
                        s0.pos <= self.state().pos,
                    ensures
                        skip_line(cs, s0) == self.state(),
                    decreases cs.len() - self.state().pos,
                {
                    match self.advance() {
                        Some(ch) => {
                            if ch == '\n' {
                                break;
                            }
                        },
                        None => {
                            break;
                        },
                    }
                }
                continue;
            }
            if self.starts_with("/*") {
                self.advance();
                self.advance();
                let ghost s2 = self.state();
                proof {
                    lemma_skip_block(cs, s2, 1);
                }
                let mut depth: usize = 1;
                while depth > 0
                    invariant
                        self.wf(),
                        self.input() == cs,
                        skip_block(cs, s2, 1) == skip_block(cs, self.state(), depth as nat),
                        depth <= self.state().pos,
                        s2.pos <= self.state().pos,
                    ensures
                        skip_block(cs, s2, 1) == self.state(),
                    decreases cs.len() - self.state().pos,
                {
                    match self.advance() {
                        Some(c) => {
                            if c == '*' && self.peek_is('/') {
                                self.advance();
                                depth = depth - 1;
                            } else if c == '/' && self.peek_is('*') {
                                self.advance();
                                depth = depth + 1;
                            }
                        },
                        None => {
                            break;
                        },
                    }
                }
                continue;
            }
            return;
        }
    }

    /// A parse error at the read position.
    fn error(&self, msg: String) -> (e: SurpError)
        requires
            self.wf(),
        ensures
            e@ == perr(self.state(), msg@),
    {
        SurpError::ParseError { line: self.line, col: self.col, message: msg }
    }

    /// A parse error at the read position, with a message made of a
    /// fixed text and the text `t` after it.
    fn error_with(&self, prefix: &str, t: &str) -> (e: SurpError)
        requires
            self.wf(),
        ensures
            e@ == perr(self.state(), prefix@ + t@),
    {
        let mut m = String::new();
        push_text(&mut m, prefix);
        push_text(&mut m, t);
        self.error(m)
    }

    /// Skip whitespace and comments, then read the character `c`.
    fn expect_char(&mut self, c: char) -> (r: Result<(), SurpError>)
        requires
            old(self).wf(),
        ensures
            final(self).wf(),
            final(self).input() == old(self).input(),
            match r {
                Ok(_) => expect(old(self).input(), old(self).state(), c) == Ok::<PState, ErrorModel>(final(self).state()),
                Err(e) => expect(old(self).input(), old(self).state(), c) == Err::<PState, ErrorModel>(e@),
            },
    {
        self.skip_whitespace_and_comments();
        match self.advance() {
            Some(ch) => {
                if ch == c {
                    Ok(())
                } else {
                    let mut m = String::new();
                    push_text(&mut m, "expected '");
                    string_push(&mut m, c);
                    push_text(&mut m, "', got '");
                    string_push(&mut m, ch);
                    push_text(&mut m, "'");
                    proof {
                        assert(m@ =~= "expected '"@ + seq![c] + "', got '"@ + seq![ch] + "'"@);
                    }
                    Err(self.error(m))
                }
            },
            None => {
                let mut m = String::new();
                push_text(&mut m, "expected '");
                string_push(&mut m, c);
                push_text(&mut m, "', got EOF");
                proof {
                    assert(m@ =~= "expected '"@ + seq![c] + "', got EOF"@);
                }
                Err(self.error(m))
            },
        }
    }

    /// Move past identifier characters, appending them to `out`.
    fn scan_ident(&mut self, out: &mut String)
        requires
            old(self).wf(),
        ensures
            final(self).wf(),
            final(self).input() == old(self).input(),
            final(self).state() == scan(old(self).input(), old(self).state(), ident_pred()),
            final(out)@ == old(out)@ + old(self).input().subrange(old(self).state().pos, final(self).state().pos),
    {
        let ghost cs = self.input();
        loop
            invariant
                self.wf(),
                self.input() == cs,
                cs == old(self).input(),
                old(self).state().pos <= self.state().pos,
                scan(cs, self.state(), ident_pred()) == scan(cs, old(self).state(), ident_pred()),
                out@ == old(out)@ + cs.subrange(old(self).state().pos, self.state().pos),
            ensures
                self.state() == scan(cs, old(self).state(), ident_pred()),
            decreases cs.len() - self.state().pos,
        {
            match self.peek() {
                Some(ch) => {
                    if char_is_alphanumeric(ch) || ch == '_' {
                        let ghost p0 = self.state().pos;
                        string_push(out, ch);
                        self.advance();
                        proof {
                            assert(cs.subrange(old(self).state().pos, p0 + 1) =~= cs.subrange(old(self).state().pos, p0).push(ch));
                        }
                    } else {
                        break;
                    }
                },
                None => {
                    break;
                },
            }
        }
    }

    /// Move past base64 payload characters, appending them to `out`.
    fn scan_base64(&mut self, out: &mut String)
        requires
            old(self).wf(),
        ensures
            final(self).wf(),
            final(self).input() == old(self).input(),
            final(self).state() == scan(old(self).input(), old(self).state(), base64_pred()),
            final(out)@ == old(out)@ + old(self).input().subrange(old(self).state().pos, final(self).state().pos),
    {
        let ghost cs = self.input();
        loop
            invariant
                self.wf(),
                self.input() == cs,
                cs == old(self).input(),
                old(self).state().pos <= self.state().pos,
                scan(cs, self.state(), base64_pred()) == scan(cs, old(self).state(), base64_pred()),
                out@ == old(out)@ + cs.subrange(old(self).state().pos, self.state().pos),
            ensures
                self.state() == scan(cs, old(self).state(), base64_pred()),
            decreases cs.len() - self.state().pos,
        {
            match self.peek() {
                Some(ch) => {
                    if ('a' <= ch && ch <= 'z') || ('A' <= ch && ch <= 'Z') || ('0' <= ch && ch <= '9') || ch == '+'
                        || ch == '/' || ch == '=' {
                        let ghost p0 = self.state().pos;
                        string_push(out, ch);
                        self.advance();
                        proof {
                            assert(cs.subrange(old(self).state().pos, p0 + 1) =~= cs.subrange(old(self).state().pos, p0).push(ch));
                        }
                    } else {
                        break;
                    }
                },
                None => {
                    break;
                },
            }
        }
    }

    /// Skip an optional type annotation `::name`.
    fn skip_type_annotation(&mut self)
        requires
            old(self).wf(),
        ensures
            final(self).wf(),
            final(self).input() == old(self).input(),
            final(self).state() == skip_annotation(old(self).input(), old(self).state()),
    {
        proof {
            reveal_strlit("::");
            assert("::"@ =~= seq![':', ':']);
        }
        if self.starts_with("::") {
            self.advance();
            self.advance();
            let mut name = String::new();
            self.scan_ident(&mut name);
        }
    }

    /// Read an identifier.
    fn parse_identifier(&mut self) -> (r: Result<String, SurpError>)
        requires
            old(self).wf(),
        ensures
            final(self).wf(),
            final(self).input() == old(self).input(),
            match r {
                Ok(s) => identifier(old(self).input(), old(self).state()) == Ok::<(Seq<char>, PState), ErrorModel>((s@, final(self).state())),
                Err(e) => identifier(old(self).input(), old(self).state()) == Err::<(Seq<char>, PState), ErrorModel>(e@),
            },
    {
        let ghost cs = self.input();
        let ghost st = self.state();
        match self.peek() {
            Some(ch) => {
                if char_is_alphabetic(ch) || ch == '_' {
                    let mut s = String::new();
                    string_push(&mut s, ch);
                    self.advance();
                    self.scan_ident(&mut s);
                    proof {
                        lemma_scan(cs, step(cs, st), ident_pred());
                        assert(seq![ch] + cs.subrange(st.pos + 1, self.state().pos) =~= cs.subrange(st.pos, self.state().pos));
                    }
                    Ok(s)
                } else {
                    Err(self.error(String::from_str("expected identifier")))
                }
            },
            None => Err(self.error(String::from_str("expected identifier"))),
        }
    }

    /// Read a quoted string.
    fn parse_quoted_string(&mut self) -> (r: Result<String, SurpError>)
        requires
            old(self).wf(),
        ensures
            final(self).wf(),
            final(self).input() == old(self).input(),
            match r {
                Ok(s) => quoted(old(self).input(), old(self).state()) == Ok::<(Seq<char>, PState), ErrorModel>((s@, final(self).state()))
                    && old(self).state().pos < final(self).state().pos,
                Err(e) => quoted(old(self).input(), old(self).state()) == Err::<(Seq<char>, PState), ErrorModel>(e@),
            },
    {
        let ghost cs = self.input();
        let ghost st = self.state();
        match self.expect_char('"') {
            Ok(_) => {},
            Err(e) => {
                return Err(e);
            },
        }
        let ghost s1 = self.state();
        proof {
            lemma_skip_ws(cs, st);
            assert(st.pos < s1.pos);
        }
        let mut s = String::new();
        loop
            invariant
                self.wf(),
                self.input() == cs,
                cs == old(self).input(),
                st == old(self).state(),
                quoted(cs, st) == string_body(cs, s1),
                st.pos < s1.pos <= self.state().pos,
                string_body(cs, s1) == prepend(s@, string_body(cs, self.state())),
            decreases cs.len() - self.state().pos,
        {
            let ghost sb = self.state();
            match self.advance() {
                Some(c) => {
                    if c == '"' {
                        proof {
                            assert(s@ + Seq::<char>::empty() =~= s@);
                        }
                        return Ok(s);
                    } else if c == '\\' {
                        match self.advance() {
                            Some(e) => {
                                let ghost before = s@;
                                if e == 'n' {
                                    string_push(&mut s, '\n');
                                } else if e == 't' {
                                    string_push(&mut s, '\t');
                                } else if e == 'r' {
                                    string_push(&mut s, '\r');
                                } else if e == '\\' {
                                    string_push(&mut s, '\\');
                                } else if e == '"' {
                                    string_push(&mut s, '"');
                                } else {
                                    string_push(&mut s, '\\');
                                    string_push(&mut s, e);
                                }
                                proof {
                                    assert(s@ =~= before + escaped(e));
                                    lemma_prepend_assoc(before, escaped(e), string_body(cs, self.state()));
                                }
                            },
                            None => {
                                return Err(self.error(String::from_str("unterminated string escape")));
                            },
                        }
                    } else {
                        let ghost before = s@;
                        string_push(&mut s, c);
                        proof {
                            assert(s@ =~= before + seq![c]);
                            lemma_prepend_assoc(before, seq![c], string_body(cs, self.state()));
                        }
                    }
                },
                None => {
                    return Err(self.error(String::from_str("unterminated string")));
                },
            }
        }
    }

    /// Read the key of an object field.
    fn parse_key(&mut self) -> (r: Result<String, SurpError>)
        requires
            old(self).wf(),
        ensures
            final(self).wf(),
            final(self).input() == old(self).input(),
            match r {
                Ok(s) => key(old(self).input(), old(self).state()) == Ok::<(Seq<char>, PState), ErrorModel>((s@, final(self).state())),
                Err(e) => key(old(self).input(), old(self).state()) == Err::<(Seq<char>, PState), ErrorModel>(e@),
            },
    {
        self.skip_whitespace_and_comments();
        if self.peek_is('"') {
            self.parse_quoted_string()
        } else {
            self.parse_identifier()
        }
    }

    /// Move past `n` characters (fewer at the end of the input).
    fn advance_by(&mut self, n: usize)
        requires
            old(self).wf(),
        ensures
            final(self).wf(),
            final(self).input() == old(self).input(),
            final(self).state() == steps(old(self).input(), old(self).state(), n as nat),
    {
        let ghost cs = self.input();
        let mut i: usize = 0;
        while i < n
            invariant
                self.wf(),
                self.input() == cs,
                cs == old(self).input(),
                i <= n,
                steps(cs, old(self).state(), n as nat) == steps(cs, self.state(), (n - i) as nat),
            decreases n - i,
        {
            self.advance();
            i = i + 1;
        }
    }

    /// Read a keyword of `n` characters that stands for `v`.
    fn parse_keyword(&mut self, n: usize, v: TextValue) -> (r: Result<TextValue, SurpError>)
        requires
            old(self).wf(),
        ensures
            final(self).wf(),
            final(self).input() == old(self).input(),
            r matches Ok(w) && keyword(old(self).input(), old(self).state(), n as nat, v@) == Ok::<(TextModel, PState), ErrorModel>((w@, final(self).state())),
    {
        self.advance_by(n);
        self.skip_type_annotation();
        Ok(v)
    }

    /// Read a number.
    fn parse_number(&mut self) -> (r: Result<TextValue, SurpError>)
        requires
            old(self).wf(),
        ensures
            final(self).wf(),
            final(self).input() == old(self).input(),
            match r {
                Ok(v) => number(old(self).input(), old(self).state()) == Ok::<(TextModel, PState), ErrorModel>((v@, final(self).state())),
                Err(e) => number(old(self).input(), old(self).state()) == Err::<(TextModel, PState), ErrorModel>(e@),
            },
    {
        let ghost cs = self.input();
        let ghost st = self.state();
        let mut text: Vec<char> = Vec::new();
        let mut s = String::new();
        let mut is_negative = false;
        let mut is_float = false;
        if self.peek_is('-') {
            is_negative = true;
            text.push('-');
            string_push(&mut s, '-');
            self.advance();
        } else if self.peek_is('+') {
            text.push('+');
            string_push(&mut s, '+');
            self.advance();
        }
        let ghost s1 = self.state();
        proof {
            assert(text@ =~= cs.subrange(st.pos, s1.pos));
            lemma_float_mark_push(Seq::<char>::empty(), '+');
            lemma_float_mark_push(Seq::<char>::empty(), '-');
            assert(Seq::<char>::empty().push('+') =~= seq!['+']);
            assert(Seq::<char>::empty().push('-') =~= seq!['-']);
        }
        loop
            invariant
                self.wf(),
                self.input() == cs,
                cs == old(self).input(),
                st == old(self).state(),
                s1 == (if peek_at(cs, st) == Some('-') || peek_at(cs, st) == Some('+') {
                    step(cs, st)
                } else {
                    st
                }),
                st.pos <= s1.pos <= self.state().pos,
                scan_number(cs, self.state()) == scan_number(cs, s1),
                text@ == cs.subrange(st.pos, self.state().pos),
                s@ == text@,
                is_float == has_float_mark(text@),
                is_negative == (peek_at(cs, st) == Some('-')),
            ensures
                self.state() == scan_number(cs, s1),
            decreases cs.len() - self.state().pos,
        {
            match self.peek() {
                Some(ch) => {
                    if ('0' <= ch && ch <= '9') || ch == '.' || ch == 'e' || ch == 'E' {
                        if ch == '.' || ch == 'e' || ch == 'E' {
                            is_float = true;
                        }
                        let ghost p0 = self.state().pos;
                        proof {
                            lemma_float_mark_push(text@, ch);
                        }
                        text.push(ch);
                        string_push(&mut s, ch);
                        self.advance();
                        proof {
                            assert(cs.subrange(st.pos, p0 + 1) =~= cs.subrange(st.pos, p0).push(ch));
                        }
                        if ch == 'e' || ch == 'E' {
                            match self.peek() {
                                Some(sg) => {
                                    if sg == '+' || sg == '-' {
                                        let ghost p1 = self.state().pos;
                                        proof {
                                            lemma_float_mark_push(text@, sg);
                                        }
                                        text.push(sg);
                                        string_push(&mut s, sg);
                                        self.advance();
                                        proof {
                                            assert(cs.subrange(st.pos, p1 + 1) =~= cs.subrange(st.pos, p1).push(sg));
                                        }
                                    }
                                },
                                None => {},
                            }
                        }
                    } else {
                        break;
                    }
                },
                None => {
                    break;
                },
            }
        }
        self.skip_type_annotation();
        if is_float {
            if float_literal_check(&text) {
                Ok(TextValue::Float(s))
            } else {
                Err(self.error_with("invalid float: ", s.as_str()))
            }
        } else if is_negative {
            match neg_i64_from_text(&text) {
                Some(n) => Ok(TextValue::Int(n)),
                None => Err(self.error_with("invalid integer: ", s.as_str())),
            }
        } else {
            match u64_from_text(&text) {
                Some(n) => Ok(TextValue::UInt(n)),
                None => Err(self.error_with("invalid integer: ", s.as_str())),
            }
        }
    }

    /// Read binary data: `b64#` and a base64 payload.
    fn parse_bytes(&mut self) -> (r: Result<TextValue, SurpError>)
        requires
            old(self).wf(),
        ensures
            final(self).wf(),
            final(self).input() == old(self).input(),
            match r {
                Ok(v) => bytes(old(self).input(), old(self).state()) == Ok::<(TextModel, PState), ErrorModel>((v@, final(self).state())),
                Err(e) => bytes(old(self).input(), old(self).state()) == Err::<(TextModel, PState), ErrorModel>(e@),
            },
    {
        let ghost cs = self.input();
        self.advance_by(4);
        let ghost s1 = self.state();
        let start = self.pos;
        let mut payload = String::new();
        self.scan_base64(&mut payload);
        proof {
            lemma_scan(cs, s1, base64_pred());
            assert(payload@ =~= cs.subrange(s1.pos, self.state().pos));
        }
        if self.pos == start {
            proof {
                assert(payload@.len() == 0);
            }
            return Err(self.error(String::from_str("empty base64 payload")));
        }
        match base64_decode(payload.as_str()) {
            Ok(b) => Ok(TextValue::Bytes(b)),
            Err(m) => Err(self.error_with("invalid base64: ", m.as_str())),
        }
    }

    /// Read a string value.
    fn parse_string_value(&mut self) -> (r: Result<TextValue, SurpError>)
        requires
            old(self).wf(),
        ensures
            final(self).wf(),
            final(self).input() == old(self).input(),
            match r {
                Ok(v) => string_value(old(self).input(), old(self).state()) == Ok::<(TextModel, PState), ErrorModel>((v@, final(self).state()))
                    && old(self).state().pos < final(self).state().pos,
                Err(e) => string_value(old(self).input(), old(self).state()) == Err::<(TextModel, PState), ErrorModel>(e@),
            },
    {
        let s = match self.parse_quoted_string() {
            Ok(s) => s,
            Err(e) => {
                return Err(e);
            },
        };
        let ghost q = self.state();
        self.skip_type_annotation();
        proof {
            lemma_skip_annotation(self.input(), q);
        }
        Ok(TextValue::Str(s))
    }

    /// Read a value.
    fn parse_value(&mut self) -> (r: Result<TextValue, SurpError>)
        requires
            old(self).wf(),
        ensures
            final(self).wf(),
            final(self).input() == old(self).input(),
            match r {
                Ok(v) => value(old(self).input(), old(self).state()) == Ok::<(TextModel, PState), ErrorModel>((v@, final(self).state()))
                    && old(self).state().pos < final(self).state().pos,
                Err(e) => value(old(self).input(), old(self).state()) == Err::<(TextModel, PState), ErrorModel>(e@),
            },
        decreases old(self).input().len() - old(self).state().pos, 2nat,
    {
        let ghost cs = self.input();
        let ghost st = self.state();
        self.skip_whitespace_and_comments();
        let ghost s = self.state();
        proof {
            lemma_skip_ws(cs, st);
            lemma_steps(cs, s, 3);
            lemma_steps(cs, s, 4);
            lemma_steps(cs, s, 5);
            lemma_skip_annotation(cs, steps(cs, s, 3));
            lemma_skip_annotation(cs, steps(cs, s, 4));
            lemma_skip_annotation(cs, steps(cs, s, 5));
        }
        match self.peek() {
            None => Err(self.error(String::from_str("unexpected end of input"))),
            Some(c) => {
                if c == '{' {
                    self.parse_object()
                } else if c == '[' {
                    self.parse_array()
                } else if c == '"' {
                    self.parse_string_value()
                } else if c == 'b' && self.starts_with("b64#") {
                    proof {
                        reveal_strlit("b64#");
                        lemma_scan(cs, steps(cs, s, 4), base64_pred());
                    }
                    self.parse_bytes()
                } else if c == 't' && self.starts_with("true") {
                    proof {
                        reveal_strlit("true");
                    }
                    self.parse_keyword(4, TextValue::Bool(true))
                } else if c == 'f' && self.starts_with("false") {
                    proof {
                        reveal_strlit("false");
                    }
                    self.parse_keyword(5, TextValue::Bool(false))
                } else if c == 'n' && self.starts_with("null") {
                    proof {
                        reveal_strlit("null");
                    }
                    self.parse_keyword(4, TextValue::Null)
                } else if c == 'i' && self.starts_with("inf") {
                    proof {
                        reveal_strlit("inf");
                    }
                    self.parse_keyword(3, TextValue::Float(String::from_str("inf")))
                } else if c == 'N' && self.starts_with("NaN") {
                    proof {
                        reveal_strlit("NaN");
                    }
                    self.parse_keyword(3, TextValue::Float(String::from_str("NaN")))
                } else if c == '-' || c == '+' || ('0' <= c && c <= '9') {
                    if c == '-' && self.starts_with("-inf") {
                        proof {
                            reveal_strlit("-inf");
                        }
                        self.parse_keyword(4, TextValue::Float(String::from_str("-inf")))
                    } else {
                        proof {
                            let s1 = if c == '-' || c == '+' {
                                step(cs, s)
                            } else {
                                s
                            };
                            lemma_scan_number(cs, s1);
                            lemma_skip_annotation(cs, scan_number(cs, s1));
                        }
                        self.parse_number()
                    }
                } else {
                    let mut m = String::new();
                    push_text(&mut m, "unexpected character: '");
                    string_push(&mut m, c);
                    push_text(&mut m, "'");
                    proof {
                        assert(m@ =~= "unexpected character: '"@ + seq![c] + "'"@);
                    }
                    Err(self.error(m))
                }
            },
        }
    }

    /// Read an array.
    fn parse_array(&mut self) -> (r: Result<TextValue, SurpError>)
        requires
            old(self).wf(),
        ensures
            final(self).wf(),
            final(self).input() == old(self).input(),
            match r {
                Ok(v) => array(old(self).input(), old(self).state()) == Ok::<(TextModel, PState), ErrorModel>((v@, final(self).state()))
                    && old(self).state().pos < final(self).state().pos,
                Err(e) => array(old(self).input(), old(self).state()) == Err::<(TextModel, PState), ErrorModel>(e@),
            },
        decreases old(self).input().len() - old(self).state().pos, 1nat,
    {
        let ghost cs = self.input();
        let ghost st = self.state();
        match self.expect_char('[') {
            Ok(_) => {},
            Err(e) => {
                return Err(e);
            },
        }
        let ghost s1 = self.state();
        proof {
            lemma_expect(cs, st, '[');
        }
        let mut vals: Vec<TextValue> = Vec::new();
        proof {
            assert(cons_items(items_view(vals@), items(cs, s1)) == items(cs, s1)) by {
                if let Ok((vs, q)) = items(cs, s1) {
                    assert(items_view(vals@) + vs =~= vs);
                }
            }
        }
        loop
            invariant
                self.wf(),
                self.input() == cs,
                cs == old(self).input(),
                st == old(self).state(),
                expect(cs, st, '[') == Ok::<PState, ErrorModel>(s1),
                st.pos < s1.pos <= self.state().pos,
                items(cs, s1) == cons_items(items_view(vals@), items(cs, self.state())),
            decreases cs.len() - self.state().pos,
        {
            let ghost sa = self.state();
            self.skip_whitespace_and_comments();
            let ghost s = self.state();
            proof {
                lemma_skip_ws(cs, sa);
            }
            if self.peek_is(']') {
                self.advance();
                proof {
                    lemma_array_view(vals);
                    assert(items_view(vals@) + Seq::<TextModel>::empty() =~= items_view(vals@));
                }
                return Ok(TextValue::Array(vals));
            }
            let v = match self.parse_value() {
                Ok(v) => v,
                Err(e) => {
                    return Err(e);
                },
            };
            let ghost q = self.state();
            self.skip_whitespace_and_comments();
            proof {
                lemma_skip_ws(cs, q);
            }
            if self.peek_is(',') || self.peek_is(';') {
                self.advance();
            }
            proof {
                let r = items(cs, self.state());
                assert(items(cs, sa) == cons_items(seq![v@], r));
                assert(items_view(vals@.push(v)) =~= items_view(vals@).push(v@));
                if let Ok((vs, p)) = r {
                    assert(items_view(vals@) + (seq![v@] + vs) =~= items_view(vals@).push(v@) + vs);
                }
            }
            vals.push(v);
        }
    }

    /// Read an object.
    fn parse_object(&mut self) -> (r: Result<TextValue, SurpError>)
        requires
            old(self).wf(),
        ensures
            final(self).wf(),
            final(self).input() == old(self).input(),
            match r {
                Ok(v) => object(old(self).input(), old(self).state()) == Ok::<(TextModel, PState), ErrorModel>((v@, final(self).state()))
                    && old(self).state().pos < final(self).state().pos,
                Err(e) => object(old(self).input(), old(self).state()) == Err::<(TextModel, PState), ErrorModel>(e@),
            },
        decreases old(self).input().len() - old(self).state().pos, 1nat,
    {
        let ghost cs = self.input();
        let ghost st = self.state();
        match self.expect_char('{') {
            Ok(_) => {},
            Err(e) => {
                return Err(e);
            },
        }
        let ghost s1 = self.state();
        proof {
            lemma_expect(cs, st, '{');
        }
        let mut entries: Vec<(String, TextValue)> = Vec::new();
        proof {
            assert(cons_fields(fields_view(entries@), fields(cs, s1)) == fields(cs, s1)) by {
                if let Ok((fs, q)) = fields(cs, s1) {
                    assert(fields_view(entries@) + fs =~= fs);
                }
            }
        }
        loop
            invariant
                self.wf(),
                self.input() == cs,
                cs == old(self).input(),
                st == old(self).state(),
                expect(cs, st, '{') == Ok::<PState, ErrorModel>(s1),
                st.pos < s1.pos <= self.state().pos,
                fields(cs, s1) == cons_fields(fields_view(entries@), fields(cs, self.state())),
            decreases cs.len() - self.state().pos,
        {
            let ghost sa = self.state();
            self.skip_whitespace_and_comments();
            let ghost s = self.state();
            proof {
                lemma_skip_ws(cs, sa);
            }
            if self.peek_is('}') {
                self.advance();
                proof {
                    lemma_object_view(entries);
                    assert(fields_view(entries@) + Seq::<(Seq<char>, TextModel)>::empty() =~= fields_view(entries@));
                }
                return Ok(TextValue::Object(entries));
            }
            let k = match self.parse_key() {
                Ok(k) => k,
                Err(e) => {
                    return Err(e);
                },
            };
            let ghost s2 = self.state();
            match self.expect_char(':') {
                Ok(_) => {},
                Err(e) => {
                    return Err(e);
                },
            }
            proof {
                lemma_key(cs, s);
                lemma_expect(cs, s2, ':');
            }
            let v = match self.parse_value() {
                Ok(v) => v,
                Err(e) => {
                    return Err(e);
                },
            };
            let ghost s4 = self.state();
            match self.expect_char(';') {
                Ok(_) => {},
                Err(e) => {
                    return Err(e);
                },
            }
            proof {
                lemma_expect(cs, s4, ';');
                let r = fields(cs, self.state());
                assert(fields(cs, sa) == cons_fields(seq![(k@, v@)], r));
                assert(fields_view(entries@.push((k, v))) =~= fields_view(entries@).push((k@, v@)));
                if let Ok((fs, p)) = r {
                    assert(fields_view(entries@) + (seq![(k@, v@)] + fs) =~= fields_view(entries@).push((k@, v@)) + fs);
                }
            }
            entries.push((k, v));
        }
    }
}

/// Parse a text document into a value.
///
/// The input holds one value, optionally followed by `;`, and nothing else
/// but whitespace and comments; anything else is a `ParseError` at the
/// line and column where reading stopped. (The length bound holds of every
/// string: it has fewer characters than bytes.)
pub fn parse(input: &str) -> (r: Result<TextValue, SurpError>)
    requires
        input@.len() < usize::MAX,
    ensures
        match r {
            Ok(v) => document(input@) == Ok::<TextModel, ErrorModel>(v@),
            Err(e) => document(input@) == Err::<TextModel, ErrorModel>(e@),
        },
{
    let mut parser = Parser::new(input);
    let value = match parser.parse_value() {
        Ok(v) => v,
        Err(e) => {
            return Err(e);
        },
    };
    parser.skip_whitespace_and_comments();
    if parser.peek_is(';') {
        parser.advance();
        parser.skip_whitespace_and_comments();
    }
    if parser.pos != parser.chars.len() {
        return Err(parser.error(String::from_str("unexpected trailing content")));
    }
    Ok(value)
}

/// What the standard base64 engine (`base64::engine::general_purpose::STANDARD`,
/// with padding) encodes `b` to.
pub uninterp spec fn base64_encode_of(b: Seq<u8>) -> Seq<char>;

/// Calls `encode` of the standard base64 engine on `b`. The result is named
/// `base64_encode_of`.
#[verifier::external_body]
pub(crate) fn base64_encode(b: &[u8]) -> (r: String)
    ensures
        r@ == base64_encode_of(b@),
{
    base64::engine::general_purpose::STANDARD.encode(b)
}

/// A value that a simple (one-line) array may hold: no bytes, arrays or objects.
pub open spec fn is_simple(v: TextModel) -> bool {
    !(v is Bytes || v is Array || v is Object)
}

/// An array short and flat enough to be written on one line.
pub open spec fn simple_array(items: Seq<TextModel>) -> bool {
    items.len() <= 8 && forall|i: int| 0 <= i < items.len() ==> is_simple(#[trigger] items[i])
}

/// A key that can be written without quotes: a letter or `_`, then
/// letters, digits and `_`.
pub open spec fn valid_identifier(s: Seq<char>) -> bool {
    &&& s.len() > 0
    &&& is_alphabetic_char(s[0]) || s[0] == '_'
    &&& forall|i: int| 1 <= i < s.len() ==> is_ident_char(#[trigger] s[i])
}

/// How a character of a string is written between quotes.
pub open spec fn escape_char(c: char) -> Seq<char> {
    if c == '"' {
        seq!['\\', '"']
    } else if c == '\\' {
        seq!['\\', '\\']
    } else if c == '\n' {
        seq!['\\', 'n']
    } else if c == '\r' {
        seq!['\\', 'r']
    } else if c == '\t' {
        seq!['\\', 't']
    } else {
        seq![c]
    }
}

/// How a string is written between quotes.
pub open spec fn escape_text(s: Seq<char>) -> Seq<char>
    decreases s.len(),
{
    if s.len() == 0 {
        Seq::empty()
    } else {
        escape_text(s.drop_last()) + escape_char(s.last())
    }
}

/// How a float is written: its text, with `.0` added when it has neither
/// `.`, `e` nor `E` (so that it reads back as a float), except for `NaN`,
/// `inf` and `-inf`.
pub open spec fn float_text(t: Seq<char>) -> Seq<char> {
    if has_float_mark(t) || t == "NaN"@ || t == "inf"@ || t == "-inf"@ {
        t
    } else {
        t + ".0"@
    }
}

/// How a signed integer is written; zero is written `-0`, so that it reads
/// back as a signed integer.
pub open spec fn int_text(n: i64) -> Seq<char> {
    if n == 0 {
        "-0"@
    } else if n < 0 {
        seq!['-'] + decimal((0 - n) as nat)
    } else {
        decimal(n as nat)
    }
}

/// How a key is written: bare if it is an identifier, else between quotes.
pub open spec fn key_text(k: Seq<char>) -> Seq<char> {
    if valid_identifier(k) {
        k
    } else {
        seq!['"'] + k + seq!['"']
    }
}

/// `n` spaces.
pub open spec fn spaces(n: nat) -> Seq<char> {
    Seq::new(n, |i: int| ' ')
}

/// The text of `v`, with `unit` as one level of indentation and `ind` as
/// the indentation of the line it starts on.
pub open spec fn render(v: TextModel, unit: Seq<char>, ind: Seq<char>) -> Seq<char>
    decreases v,
{
    match v {
        TextModel::Null => "null"@,
        TextModel::Bool(b) => if b {
            "true"@
        } else {
            "false"@
        },
        TextModel::UInt(n) => decimal(n as nat),
        TextModel::Int(n) => int_text(n),
        TextModel::Float(t) => float_text(t),
        TextModel::Str(s) => seq!['"'] + escape_text(s) + seq!['"'],
        TextModel::Bytes(b) => "b64#"@ + base64_encode_of(b),
        TextModel::Array(items) => if items.len() == 0 {
            "[]"@
        } else if simple_array(items) {
            seq!['['] + inline_items(items, unit, ind, true) + seq![']']
        } else {
            "[\n"@ + block_items(items, unit, ind) + ind + seq![']']
        },
        TextModel::Object(fs) => if fs.len() == 0 {
            "{}"@
        } else {
            "{\n"@ + block_fields(fs, unit, ind) + ind + seq!['}']
        },
    }
}

/// The items of a simple array on one line, separated by `, `.
pub open spec fn inline_items(items: Seq<TextModel>, unit: Seq<char>, ind: Seq<char>, first: bool) -> Seq<char>
    decreases items,
{
    if items.len() == 0 {
        Seq::empty()
    } else {
        (if first {
            Seq::empty()
        } else {
            ", "@
        }) + render(items[0], unit, ind) + inline_items(items.subrange(1, items.len() as int), unit, ind, false)
    }
}

/// The items of an array, one per line, indented one level deeper, with
/// a `,` after each but the last.
pub open spec fn block_items(items: Seq<TextModel>, unit: Seq<char>, ind: Seq<char>) -> Seq<char>
    decreases items,
{
    if items.len() == 0 {
        Seq::empty()
    } else {
        (ind + unit) + render(items[0], unit, ind + unit) + (if items.len() > 1 {
            seq![',']
        } else {
            Seq::empty()
        }) + seq!['\n'] + block_items(items.subrange(1, items.len() as int), unit, ind)
    }
}

/// The fields of an object, one `key: value;` per line, indented one level
/// deeper.
pub open spec fn block_fields(fs: Seq<(Seq<char>, TextModel)>, unit: Seq<char>, ind: Seq<char>) -> Seq<char>
    decreases fs,
{
    if fs.len() == 0 {
        Seq::empty()
    } else {
        (ind + unit) + key_text(fs[0].0) + ": "@ + render(fs[0].1, unit, ind + unit) + ";\n"@ + block_fields(
            fs.subrange(1, fs.len() as int),
            unit,
            ind,
        )
    }
}

/// The text of `v`, indented by `indent` spaces per level.
pub open spec fn pretty(v: TextModel, indent: nat) -> Seq<char> {
    render(v, spaces(indent), Seq::empty())
}

/// Whether a simple array can hold `v`.
fn is_simple_value(v: &TextValue) -> (r: bool)
    ensures
        r == is_simple(v@),
{
    match v {
        TextValue::Bytes(_) | TextValue::Array(_) | TextValue::Object(_) => false,
        _ => true,
    }
}

/// Whether the array `items` is written on one line.
fn simple_array_check(items: &Vec<TextValue>) -> (r: bool)
    ensures
        r == simple_array(items_view(items@)),
{
    if items.len() > 8 {
        return false;
    }
    let mut i: usize = 0;
    while i < items.len()
        invariant
            i <= items@.len() <= 8,
            forall|j: int| 0 <= j < i ==> is_simple(#[trigger] items_view(items@)[j]),
        decreases items@.len() - i,
    {
        if !is_simple_value(&items[i]) {
            proof {
                assert(items_view(items@)[i as int] == items@[i as int]@);
            }
            return false;
        }
        i = i + 1;
    }
    true
}

/// Whether `k` can be written without quotes.
fn valid_identifier_check(k: &String) -> (r: bool)
    ensures
        r == valid_identifier(k@),
{
    let cs = chars_of(k.as_str());
    if cs.len() == 0 {
        return false;
    }
    if !(char_is_alphabetic(cs[0]) || cs[0] == '_') {
        return false;
    }
    let mut i: usize = 1;
    while i < cs.len()
        invariant
            1 <= i <= cs@.len(),
            cs@ == k@,
            forall|j: int| 1 <= j < i ==> is_ident_char(#[trigger] cs@[j]),
        decreases cs@.len() - i,
    {
        if !(char_is_alphanumeric(cs[i]) || cs[i] == '_') {
            return false;
        }
        i = i + 1;
    }
    true
}

/// Whether the characters `cs` hold a `.`, `e` or `E`.
fn float_mark_check(cs: &Vec<char>) -> (r: bool)
    ensures
        r == has_float_mark(cs@),
{
    let mut i: usize = 0;
    while i < cs.len()
        invariant
            i <= cs@.len(),
            forall|j: int| 0 <= j < i ==> !(#[trigger] cs@[j] == '.' || cs@[j] == 'e' || cs@[j] == 'E'),
        decreases cs@.len() - i,
    {
        if cs[i] == '.' || cs[i] == 'e' || cs[i] == 'E' {
            return true;
        }
        i = i + 1;
    }
    false
}

/// Appends `s` as it is written between quotes.
pub(crate) fn push_escaped(out: &mut String, s: &String)
    ensures
        final(out)@ == old(out)@ + escape_text(s@),
{
    let cs = chars_of(s.as_str());
    let mut i: usize = 0;
    proof {
        assert(cs@.subrange(0, 0) =~= Seq::<char>::empty());
        assert(old(out)@ + Seq::<char>::empty() =~= old(out)@);
    }
    while i < cs.len()
        invariant
            i <= cs@.len(),
            cs@ == s@,
            out@ == old(out)@ + escape_text(cs@.subrange(0, i as int)),
        decreases cs@.len() - i,
    {
        let c = cs[i];
        let ghost before = out@;
        if c == '"' {
            string_push(out, '\\');
            string_push(out, '"');
        } else if c == '\\' {
            string_push(out, '\\');
            string_push(out, '\\');
        } else if c == '\n' {
            string_push(out, '\\');
            string_push(out, 'n');
        } else if c == '\r' {
            string_push(out, '\\');
            string_push(out, 'r');
        } else if c == '\t' {
            string_push(out, '\\');
            string_push(out, 't');
        } else {
            string_push(out, c);
        }
        proof {
            assert(out@ =~= before + escape_char(c));
            assert(cs@.subrange(0, i + 1).drop_last() =~= cs@.subrange(0, i as int));
            assert(old(out)@ + escape_text(cs@.subrange(0, i + 1)) =~= old(out)@ + escape_text(cs@.subrange(0, i as int))
                + escape_char(c));
        }
        i = i + 1;
    }
    proof {
        assert(cs@.subrange(0, i as int) =~= s@);
    }
}

/// Appends the text of `value`, with `unit` as one level of indentation
/// and `ind` as the indentation of the line it starts on.
fn write_value(out: &mut String, value: &TextValue, unit: &str, ind: &str)
    ensures
        final(out)@ == old(out)@ + render(value@, unit@, ind@),
    decreases value,
{
    match value {
        TextValue::Null => push_text(out, "null"),
        TextValue::Bool(b) => {
            if *b {
                push_text(out, "true")
            } else {
                push_text(out, "false")
            }
        },
        TextValue::UInt(n) => push_decimal(out, *n),
        TextValue::Int(n) => {
            if *n == 0 {
                push_text(out, "-0");
            } else if *n < 0 {
                let m: u64 = if *n == i64::MIN {
                    0x8000_0000_0000_0000
                } else {
                    (0 - *n) as u64
                };
                let ghost before = out@;
                string_push(out, '-');
                push_decimal(out, m);
                proof {
                    assert(out@ =~= before + (seq!['-'] + decimal(m as nat)));
                }
            } else {
                push_decimal(out, *n as u64);
            }
        },
        TextValue::Float(t) => {
            let cs = chars_of(t.as_str());
            let mark = float_mark_check(&cs);
            if mark || *t == String::from_str("NaN") || *t == String::from_str("inf") || *t == String::from_str("-inf") {
                push_text(out, t.as_str());
            } else {
                push_text(out, t.as_str());
                push_text(out, ".0");
                proof {
                    assert(old(out)@ + t@ + ".0"@ =~= old(out)@ + (t@ + ".0"@));
                }
            }
        },
        TextValue::Str(s) => {
            let ghost before = out@;
            string_push(out, '"');
            push_escaped(out, s);
            string_push(out, '"');
            proof {
                assert(out@ =~= before + (seq!['"'] + escape_text(s@) + seq!['"']));
            }
        },
        TextValue::Bytes(b) => {
            let ghost before = out@;
            push_text(out, "b64#");
            let enc = base64_encode(b.as_slice());
            push_text(out, enc.as_str());
            proof {
                assert(out@ =~= before + ("b64#"@ + base64_encode_of(b@)));
            }
        },
        TextValue::Array(items) => {
            proof {
                lemma_array_view(*items);
            }
            let ghost all = items_view(items@);
            if items.len() == 0 {
                push_text(out, "[]");
            } else if simple_array_check(items) {
                let ghost before = out@;
                string_push(out, '[');
                let ghost start = out@;
                let mut i: usize = 0;
                proof {
                    assert(all.subrange(0, all.len() as int) =~= all);
                }
                while i < items.len()
                    invariant
                        i <= items@.len(),
                        all == items_view(items@),
                        *value == TextValue::Array(*items),
                        start + inline_items(all, unit@, ind@, true) == out@ + inline_items(
                            all.subrange(i as int, all.len() as int),
                            unit@,
                            ind@,
                            i == 0,
                        ),
                    decreases items@.len() - i,
                {
                    let ghost rest = all.subrange(i as int, all.len() as int);
                    let ghost o1 = out@;
                    if i > 0 {
                        push_text(out, ", ");
                    }
                    proof {
                        assert(decreases_to!(*value => value->Array_0));
                        assert(decreases_to!(*items => items@));
                        assert(decreases_to!(items@ => items@[i as int]));
                    }
                    write_value(out, &items[i], unit, ind);
                    proof {
                        assert(rest.subrange(1, rest.len() as int) =~= all.subrange(i + 1, all.len() as int));
                        assert(rest[0] == items@[i as int]@);
                        let sep = if i == 0 {
                            Seq::<char>::empty()
                        } else {
                            ", "@
                        };
                        assert(out@ =~= o1 + sep + render(rest[0], unit@, ind@));
                        assert(o1 + inline_items(rest, unit@, ind@, i == 0) =~= out@ + inline_items(
                            all.subrange(i + 1, all.len() as int),
                            unit@,
                            ind@,
                            false,
                        ));
                    }
                    i = i + 1;
                }
                string_push(out, ']');
                proof {
                    assert(all.subrange(i as int, all.len() as int) =~= Seq::<TextModel>::empty());
                    assert(out@ =~= before + (seq!['['] + inline_items(all, unit@, ind@, true) + seq![']']));
                }
            } else {
                let ghost before = out@;
                push_text(out, "[\n");
                let ghost start = out@;
                let mut inner = String::from_str(ind);
                inner.append(unit);
                let mut i: usize = 0;
                proof {
                    assert(all.subrange(0, all.len() as int) =~= all);
                }
                while i < items.len()
                    invariant
                        i <= items@.len(),
                        all == items_view(items@),
                        *value == TextValue::Array(*items),
                        inner@ == ind@ + unit@,
                        start + block_items(all, unit@, ind@) == out@ + block_items(
                            all.subrange(i as int, all.len() as int),
                            unit@,
                            ind@,
                        ),
                    decreases items@.len() - i,
                {
                    let ghost rest = all.subrange(i as int, all.len() as int);
                    let ghost o1 = out@;
                    push_text(out, inner.as_str());
                    proof {
                        assert(decreases_to!(*value => value->Array_0));
                        assert(decreases_to!(*items => items@));
                        assert(decreases_to!(items@ => items@[i as int]));
                    }
                    write_value(out, &items[i], unit, inner.as_str());
                    if i + 1 < items.len() {
                        string_push(out, ',');
                    }
                    string_push(out, '\n');
                    proof {
                        assert(rest.subrange(1, rest.len() as int) =~= all.subrange(i + 1, all.len() as int));
                        assert(rest[0] == items@[i as int]@);
                        let comma = if rest.len() > 1 {
                            seq![',']
                        } else {
                            Seq::<char>::empty()
                        };
                        assert(out@ =~= o1 + (ind@ + unit@) + render(rest[0], unit@, ind@ + unit@) + comma + seq!['\n']);
                        assert(o1 + block_items(rest, unit@, ind@) =~= out@ + block_items(
                            all.subrange(i + 1, all.len() as int),
                            unit@,
                            ind@,
                        ));
                    }
                    i = i + 1;
                }
                push_text(out, ind);
                string_push(out, ']');
                proof {
                    assert(all.subrange(i as int, all.len() as int) =~= Seq::<TextModel>::empty());
                    assert(out@ =~= before + ("[\n"@ + block_items(all, unit@, ind@) + ind@ + seq![']']));
                }
            }
        },
        TextValue::Object(entries) => {
            proof {
                lemma_object_view(*entries);
            }
            let ghost all = fields_view(entries@);
            if entries.len() == 0 {
                push_text(out, "{}");
            } else {
                let ghost before = out@;
                push_text(out, "{\n");
                let ghost start = out@;
                let mut inner = String::from_str(ind);
                inner.append(unit);
                let mut i: usize = 0;
                proof {
                    assert(all.subrange(0, all.len() as int) =~= all);
                }
                while i < entries.len()
                    invariant
                        i <= entries@.len(),
                        all == fields_view(entries@),
                        *value == TextValue::Object(*entries),
                        inner@ == ind@ + unit@,
                        start + block_fields(all, unit@, ind@) == out@ + block_fields(
                            all.subrange(i as int, all.len() as int),
                            unit@,
                            ind@,
                        ),
                    decreases entries@.len() - i,
                {
                    let ghost rest = all.subrange(i as int, all.len() as int);
                    let ghost o1 = out@;
                    push_text(out, inner.as_str());
                    let k = &entries[i].0;
                    if valid_identifier_check(k) {
                        push_text(out, k.as_str());
                    } else {
                        let ghost o2 = out@;
                        string_push(out, '"');
                        push_text(out, k.as_str());
                        string_push(out, '"');
                        proof {
                            assert(out@ =~= o2 + (seq!['"'] + k@ + seq!['"']));
                        }
                    }
                    push_text(out, ": ");
                    proof {
                        assert(decreases_to!(*value => value->Object_0));
                        assert(decreases_to!(*entries => entries@));
                        assert(decreases_to!(entries@ => entries@[i as int]));
                        assert(decreases_to!(entries@[i as int] => entries@[i as int].1));
                    }
                    write_value(out, &entries[i].1, unit, inner.as_str());
                    push_text(out, ";\n");
                    proof {
                        assert(rest.subrange(1, rest.len() as int) =~= all.subrange(i + 1, all.len() as int));
                        assert(rest[0] == (entries@[i as int].0@, entries@[i as int].1@));
                        assert(out@ =~= o1 + (ind@ + unit@) + key_text(rest[0].0) + ": "@ + render(rest[0].1, unit@, ind@ + unit@)
                            + ";\n"@);
                        assert(o1 + block_fields(rest, unit@, ind@) =~= out@ + block_fields(
                            all.subrange(i + 1, all.len() as int),
                            unit@,
                            ind@,
                        ));
                    }
                    i = i + 1;
                }
                push_text(out, ind);
                string_push(out, '}');
                proof {
                    assert(all.subrange(i as int, all.len() as int) =~= Seq::<(Seq<char>, TextModel)>::empty());
                    assert(out@ =~= before + ("{\n"@ + block_fields(all, unit@, ind@) + ind@ + seq!['}']));
                }
            }
        },
    }
}

/// The text of `value`, indented by `indent` spaces per level.
///
/// The output is deterministic: the same value always gives the same text.
pub fn pretty_print(value: &TextValue, indent: usize) -> (r: String)
    ensures
        r@ == pretty(value@, indent as nat),
{
    let mut unit = String::new();
    let mut i: usize = 0;
    while i < indent
        invariant
            i <= indent,
            unit@ == spaces(i as nat),
        decreases indent - i,
    {
        string_push(&mut unit, ' ');
        i = i + 1;
        proof {
            assert(unit@ =~= spaces(i as nat));
        }
    }
    let mut out = String::new();
    let top = String::new();
    write_value(&mut out, value, unit.as_str(), top.as_str());
    proof {
        assert(out@ =~= render(value@, spaces(indent as nat), Seq::empty()));
    }
    out
}


proof fn lemma_scan_ident_run(cs: Seq<char>, st: PState, n: int)
    requires
        0 <= st.pos <= n <= cs.len(),
        forall|i: int| st.pos <= i < n ==> is_ident_char(#[trigger] cs[i]),
        n < cs.len() ==> !is_ident_char(cs[n]),
    ensures
        scan(cs, st, ident_pred()).pos == n,
    decreases cs.len() - st.pos,
{
    if st.pos < n {
        assert(ident_pred()(cs[st.pos]));
        lemma_scan_ident_run(cs, step(cs, st), n);
    } else if st.pos < cs.len() {
        assert(!ident_pred()(cs[st.pos]));
    }
}

proof fn lemma_string_body_plain(cs: Seq<char>, st: PState, n: int)
    requires
        0 <= st.pos <= n < cs.len(),
        cs[n] == '"',
        forall|i: int| st.pos <= i < n ==> #[trigger] cs[i] != '"' && cs[i] != '\\',
    ensures
        string_body(cs, st) is Ok,
        string_body(cs, st)->Ok_0.0 == cs.subrange(st.pos, n),
        string_body(cs, st)->Ok_0.1.pos == n + 1,
    decreases n - st.pos,
{
    if st.pos < n {
        let s1 = step(cs, st);
        lemma_string_body_plain(cs, s1, n);
        assert(seq![cs[st.pos]] + cs.subrange(s1.pos, n) =~= cs.subrange(st.pos, n));
    } else {
        assert(cs.subrange(st.pos, n) =~= Seq::<char>::empty());
    }
}

/// A key that the pretty printer writes reads back as the same key: the
/// parser's key rule, run on the key's text followed by anything that
/// cannot continue an identifier (such as the `: ` the printer writes
/// next), reads exactly the key's text and gives the key. So a key is
/// written bare only when the parser's identifier rule reads all of it.
/// Keys holding `"` or `\` are left out: they are written between quotes
/// as they are, without escapes, and so do not read back.
pub proof fn law_key_reads_back(k: Seq<char>, rest: Seq<char>, line: int, col: int)
    requires
        forall|i: int| 0 <= i < k.len() ==> #[trigger] k[i] != '"' && k[i] != '\\',
        k.len() > 0 ==> !is_whitespace_char(k[0]) && k[0] != '/',
        rest.len() > 0 ==> !is_ident_char(rest[0]),
    ensures
        key(key_text(k) + rest, PState { pos: 0, line, col }) is Ok,
        key(key_text(k) + rest, PState { pos: 0, line, col })->Ok_0.0 == k,
        key(key_text(k) + rest, PState { pos: 0, line, col })->Ok_0.1.pos == key_text(k).len(),
{
    let cs = key_text(k) + rest;
    let st = PState { pos: 0, line, col };
    if valid_identifier(k) {
        assert(cs[0] == k[0]);
        assert(!starts_with(cs, 0, seq!['/', '/']));
        assert(!starts_with(cs, 0, seq!['/', '*']));
        assert(skip_ws(cs, st) == st);
        assert(peek_at(cs, st) == Some(k[0]));
        let s1 = step(cs, st);
        assert forall|i: int| s1.pos <= i < k.len() implies is_ident_char(#[trigger] cs[i]) by {
            assert(cs[i] == k[i]);
        }
        if k.len() < cs.len() {
            assert(cs[k.len() as int] == rest[0]);
        }
        lemma_scan_ident_run(cs, s1, k.len() as int);
        assert(cs.subrange(0, k.len() as int) =~= k);
    } else {
        assert(cs[0] == '"');
        assert(!starts_with(cs, 0, seq!['/', '/']));
        assert(!starts_with(cs, 0, seq!['/', '*']));
        assert(skip_ws(cs, st) == st);
        let s1 = step(cs, st);
        assert(expect(cs, st, '"') == Ok::<PState, ErrorModel>(s1));
        let n: int = k.len() as int + 1;
        assert(cs[n] == '"');
        assert forall|i: int| s1.pos <= i < n implies #[trigger] cs[i] != '"' && cs[i] != '\\' by {
            assert(cs[i] == k[i - 1]);
        }
        lemma_string_body_plain(cs, s1, n);
        assert(cs.subrange(1, n) =~= k);
    }
}

} // verus!

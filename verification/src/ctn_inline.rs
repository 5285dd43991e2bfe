//! Reading the one-line expressions of the CTN notation: scalars, quoted
//! and tagged strings, byte literals, references, symbols, and inline
//! sequences, maps and enum variants.

use crate::cql::{copy_range, push_chars, string_of, trim_chars, trimmed};
use crate::text::{float_literal, float_literal_check, has_float_mark, is_digit};
use crate::render::push_text;
use crate::ctn::{CtnField, CtnPayload, CtnScalar, CtnScalarM, CtnValue, CtnValueM};
use crate::error::{ErrorModel, SurpError};
use crate::render::string_push;
use vstd::prelude::*;

verus! {

/// `n - 1`, or 0 when `n` is 0.
pub open spec fn dec_sat(n: nat) -> nat {
    if n == 0 {
        0
    } else {
        (n - 1) as nat
    }
}

/// The nesting state of the top-level splitter: open parentheses,
/// brackets and angle brackets, and whether it is inside a quoted string
/// (and right after a backslash there).
pub struct SplitState {
    pub paren: nat,
    pub bracket: nat,
    pub angle: nat,
    pub in_str: bool,
    pub esc: bool,
}

/// The state after reading `c` outside a string.
pub open spec fn split_step(s: SplitState, c: char) -> SplitState {
    if c == '"' {
        SplitState { in_str: true, ..s }
    } else if c == '(' {
        SplitState { paren: s.paren + 1, ..s }
    } else if c == ')' {
        SplitState { paren: dec_sat(s.paren), ..s }
    } else if c == '[' {
        SplitState { bracket: s.bracket + 1, ..s }
    } else if c == ']' {
        SplitState { bracket: dec_sat(s.bracket), ..s }
    } else if c == '<' {
        SplitState { angle: s.angle + 1, ..s }
    } else if c == '>' {
        SplitState { angle: dec_sat(s.angle), ..s }
    } else {
        s
    }
}

/// The parts of `t[start..]` split at the occurrences of `delim` from
/// position `i` on that lie outside strings and brackets, each trimmed.
pub open spec fn split_from(t: Seq<char>, delim: char, i: nat, start: nat, s: SplitState) -> Seq<Seq<char>>
    decreases t.len() - i,
{
    if i >= t.len() {
        seq![trimmed(t.subrange(start as int, t.len() as int))]
    } else {
        let c = t[i as int];
        if s.in_str {
            if s.esc {
                split_from(t, delim, i + 1, start, SplitState { esc: false, ..s })
            } else if c == '\\' {
                split_from(t, delim, i + 1, start, SplitState { esc: true, ..s })
            } else if c == '"' {
                split_from(t, delim, i + 1, start, SplitState { in_str: false, ..s })
            } else {
                split_from(t, delim, i + 1, start, s)
            }
        } else {
            let s2 = split_step(s, c);
            if c == delim && s2.paren == 0 && s2.bracket == 0 && s2.angle == 0 {
                seq![trimmed(t.subrange(start as int, i as int))] + split_from(t, delim, i + 1, i + 1, s2)
            } else {
                split_from(t, delim, i + 1, start, s2)
            }
        }
    }
}

/// The parts of `t` split at `delim` where it stands outside strings,
/// parentheses, brackets and angle brackets, each trimmed.
pub open spec fn split_top(t: Seq<char>, delim: char) -> Seq<Seq<char>> {
    split_from(t, delim, 0, 0, SplitState { paren: 0, bracket: 0, angle: 0, in_str: false, esc: false })
}

/// The models of character vectors.
pub open spec fn texts(v: Seq<Vec<char>>) -> Seq<Seq<char>> {
    v.map_values(|x: Vec<char>| x@)
}

/// Splits `t` at `delim` where it stands outside strings, parentheses,
/// brackets and angle brackets; each part is trimmed.
pub fn split_top_level(t: &Vec<char>, delim: char) -> (r: Vec<Vec<char>>)
    ensures
        texts(r@) == split_top(t@, delim),
{
    let mut parts: Vec<Vec<char>> = Vec::new();
    let mut start: usize = 0;
    let mut paren: usize = 0;
    let mut bracket: usize = 0;
    let mut angle: usize = 0;
    let mut in_str = false;
    let mut esc = false;
    let mut i: usize = 0;
    proof {
        assert(texts(parts@) =~= Seq::<Seq<char>>::empty());
        assert(Seq::<Seq<char>>::empty() + split_top(t@, delim) =~= split_top(t@, delim));
    }
    while i < t.len()
        invariant
            i <= t@.len(),
            start <= i,
            paren <= i,
            bracket <= i,
            angle <= i,
            texts(parts@) + split_from(
                t@,
                delim,
                i as nat,
                start as nat,
                SplitState { paren: paren as nat, bracket: bracket as nat, angle: angle as nat, in_str, esc },
            ) == split_top(t@, delim),
        decreases t@.len() - i,
    {
        let c = t[i];
        if in_str {
            if esc {
                esc = false;
            } else if c == '\\' {
                esc = true;
            } else if c == '"' {
                in_str = false;
            }
        } else {
            if c == '"' {
                in_str = true;
            } else if c == '(' {
                paren = paren + 1;
            } else if c == ')' {
                paren = if paren > 0 { paren - 1 } else { 0 };
            } else if c == '[' {
                bracket = bracket + 1;
            } else if c == ']' {
                bracket = if bracket > 0 { bracket - 1 } else { 0 };
            } else if c == '<' {
                angle = angle + 1;
            } else if c == '>' {
                angle = if angle > 0 { angle - 1 } else { 0 };
            }
            if c == delim && paren == 0 && bracket == 0 && angle == 0 {
                let raw = copy_range(t, start, i);
                let part = trim_chars(&raw);
                let ghost before = texts(parts@);
                parts.push(part);
                proof {
                    assert(texts(parts@) =~= before.push(part@));
                    let rest = split_from(
                        t@,
                        delim,
                        (i + 1) as nat,
                        (i + 1) as nat,
                        SplitState { paren: paren as nat, bracket: bracket as nat, angle: angle as nat, in_str, esc },
                    );
                    assert(before + (seq![part@] + rest) =~= texts(parts@) + rest);
                }
                start = i + 1;
            }
        }
        i = i + 1;
    }
    let raw = copy_range(t, start, t.len());
    let part = trim_chars(&raw);
    let ghost before = texts(parts@);
    parts.push(part);
    proof {
        assert(texts(parts@) =~= before.push(part@));
        assert(before + seq![part@] =~= texts(parts@));
    }
    parts
}

/// A hexadecimal digit.
pub open spec fn is_hex(c: char) -> bool {
    ('0' <= c <= '9') || ('a' <= c <= 'f') || ('A' <= c <= 'F')
}

/// The value of a hexadecimal digit.
pub open spec fn hex_val(c: char) -> nat {
    if '0' <= c <= '9' {
        (c as int - 48) as nat
    } else if 'a' <= c <= 'f' {
        (c as int - 87) as nat
    } else {
        (c as int - 55) as nat
    }
}

/// The value of the hexadecimal digits `d`.
pub open spec fn hex_value(d: Seq<char>) -> nat
    decreases d.len(),
{
    if d.len() == 0 {
        0
    } else {
        hex_value(d.drop_last()) * 16 + hex_val(d.last())
    }
}

/// Every character of `d` is a hexadecimal digit.
pub open spec fn all_hex(d: Seq<char>) -> bool {
    forall|i: int| 0 <= i < d.len() ==> is_hex(#[trigger] d[i])
}

/// What `u32::from_str_radix(h, 16)` makes of `h`: an optional `+`, then
/// at least one hexadecimal digit, with a value that fits.
pub open spec fn hex_u32(h: Seq<char>) -> Option<u32> {
    let d = if h.len() > 0 && h[0] == '+' {
        h.drop_first()
    } else {
        h
    };
    if d.len() > 0 && all_hex(d) && hex_value(d) <= u32::MAX {
        Some(hex_value(d) as u32)
    } else {
        None
    }
}

/// A Unicode scalar value: at most 0x10FFFF and not a surrogate.
pub open spec fn is_scalar_value(code: u32) -> bool {
    code <= 0x10FFFF && !(0xD800 <= code <= 0xDFFF)
}

/// Calls `char::from_u32`, which, as its documentation says, gives the
/// character with code point `code` when `code` is a Unicode scalar value
/// (at most 0x10FFFF and outside the surrogates 0xD800 to 0xDFFF), and
/// `None` otherwise.
#[verifier::external_body]
fn char_from_u32(code: u32) -> (r: Option<char>)
    ensures
        r == (if is_scalar_value(code) {
            Some(code as char)
        } else {
            None
        }),
{
    char::from_u32(code)
}

/// `c` in front of the characters of `r`, or the error of `r`.
pub open spec fn cons_char(c: char, r: Result<Seq<char>, ErrorModel>) -> Result<Seq<char>, ErrorModel> {
    match r {
        Ok(x) => Ok(seq![c] + x),
        Err(e) => Err(e),
    }
}

/// The first position at or after `i` holding `}` (the length of `b` if
/// none does).
pub open spec fn close_brace(b: Seq<char>, i: nat) -> nat
    decreases b.len() - i,
{
    if i >= b.len() {
        b.len()
    } else if b[i as int] == '}' {
        i
    } else {
        close_brace(b, i + 1)
    }
}

pub proof fn lemma_close_brace(b: Seq<char>, i: nat)
    requires
        i <= b.len(),
    ensures
        i <= close_brace(b, i) <= b.len(),
    decreases b.len() - i,
{
    if i < b.len() && b[i as int] != '}' {
        lemma_close_brace(b, i + 1);
    }
}

/// The error with message `m`.
pub open spec fn bad(m: Seq<char>) -> ErrorModel {
    ErrorModel::InvalidData(m)
}

/// The character that the escape `\e` stands for, for the one-letter
/// escapes.
pub open spec fn simple_escape(e: char) -> Option<char> {
    if e == 'n' {
        Some('\n')
    } else if e == 'r' {
        Some('\r')
    } else if e == 't' {
        Some('\t')
    } else if e == 'b' {
        Some('\u{8}')
    } else if e == 'f' {
        Some('\u{c}')
    } else if e == '\\' {
        Some('\\')
    } else if e == '"' {
        Some('"')
    } else {
        None
    }
}

/// The characters that the body `b` of a quoted string stands for, from
/// position `i` on, with its escapes replaced.
pub open spec fn unescape(b: Seq<char>, i: nat) -> Result<Seq<char>, ErrorModel>
    decreases b.len() - i,
{
    if i >= b.len() {
        Ok(Seq::empty())
    } else if b[i as int] != '\\' {
        cons_char(b[i as int], unescape(b, i + 1))
    } else if i + 1 >= b.len() {
        Err(bad("unterminated escape sequence"@))
    } else {
        let e = b[i + 1 as int];
        match simple_escape(e) {
            Some(c) => cons_char(c, unescape(b, i + 2)),
            None => if e == 'u' {
                if i + 2 >= b.len() || b[i + 2 as int] != '{' {
                    Err(bad("expected '{' in unicode escape"@))
                } else {
                    let k = close_brace(b, i + 3);
                    proof {
                        lemma_close_brace(b, i + 3);
                    }
                    match hex_u32(b.subrange(i + 3 as int, k as int)) {
                        None => Err(bad("invalid unicode escape"@)),
                        Some(code) => if is_scalar_value(code) {
                            cons_char(
                                code as char,
                                unescape(
                                    b,
                                    if k < b.len() {
                                        k + 1
                                    } else {
                                        k
                                    },
                                ),
                            )
                        } else {
                            Err(bad("invalid unicode scalar value"@))
                        },
                    }
                }
            } else {
                Err(bad("unsupported escape sequence \\"@ + seq![e]))
            },
        }
    }
}

/// The string a quoted literal `t` stands for.
pub open spec fn quoted(t: Seq<char>) -> Result<Seq<char>, ErrorModel> {
    if t.len() < 2 || t[0] != '"' || t.last() != '"' {
        Err(bad("invalid quoted string literal"@))
    } else {
        unescape(t.subrange(1, t.len() - 1), 0)
    }
}

/// Every prefix of a run of hexadecimal digits has a value at most that of
/// the whole run.
proof fn lemma_hex_prefix(d: Seq<char>, k: int)
    requires
        0 <= k <= d.len(),
    ensures
        hex_value(d.subrange(0, k)) <= hex_value(d),
    decreases d.len(),
{
    if k < d.len() {
        lemma_hex_prefix(d.drop_last(), k);
        assert(d.drop_last().subrange(0, k) =~= d.subrange(0, k));
    } else {
        assert(d.subrange(0, k) =~= d);
    }
}

/// The value of the hexadecimal digits `t[lo..hi]`, if there is at least
/// one and they fit in a `u32`.
fn hex_to_u32(t: &Vec<char>, lo: usize, hi: usize) -> (r: Option<u32>)
    requires
        lo <= hi <= t@.len(),
    ensures
        r == hex_u32(t@.subrange(lo as int, hi as int)),
{
    let ghost h = t@.subrange(lo as int, hi as int);
    let start: usize = if lo < hi && t[lo] == '+' {
        lo + 1
    } else {
        lo
    };
    let ghost d = t@.subrange(start as int, hi as int);
    proof {
        if lo < hi && t@[lo as int] == '+' {
            assert(h.drop_first() =~= d);
        } else {
            assert(h =~= d);
        }
    }
    if start >= hi {
        return None;
    }
    let mut acc: u64 = 0;
    let mut i: usize = start;
    proof {
        assert(t@.subrange(start as int, start as int) =~= Seq::<char>::empty());
    }
    while i < hi
        invariant
            start <= i <= hi <= t@.len(),
            d == t@.subrange(start as int, hi as int),
            start < hi,
            hex_u32(t@.subrange(lo as int, hi as int)) == (if d.len() > 0 && all_hex(d) && hex_value(d) <= u32::MAX {
                Some(hex_value(d) as u32)
            } else {
                None
            }),
            acc == hex_value(t@.subrange(start as int, i as int)),
            all_hex(t@.subrange(start as int, i as int)),
            acc <= u32::MAX,
        decreases hi - i,
    {
        let c = t[i];
        let v: u64 = if '0' <= c && c <= '9' {
            (c as u32 - 48) as u64
        } else if 'a' <= c && c <= 'f' {
            (c as u32 - 87) as u64
        } else if 'A' <= c && c <= 'F' {
            (c as u32 - 55) as u64
        } else {
            proof {
                assert(d[i - start] == c);
            }
            return None;
        };
        let ghost p = t@.subrange(start as int, i + 1);
        proof {
            assert(p.drop_last() =~= t@.subrange(start as int, i as int));
            assert(all_hex(p)) by {
                assert forall|j: int| 0 <= j < p.len() implies is_hex(#[trigger] p[j]) by {
                    if j < i - start {
                        assert(p[j] == t@.subrange(start as int, i as int)[j]);
                    }
                }
            }
        }
        assert(v == hex_val(c));
        assert(p.last() == c);
        let next: u64 = acc * 16 + v;
        assert(next == hex_value(p));
        if next > 0xFFFF_FFFF {
            proof {
                if all_hex(d) {
                    lemma_hex_prefix(d, i + 1 - start);
                    assert(d.subrange(0, i + 1 - start) =~= p);
                }
            }
            return None;
        }
        acc = next;
        i = i + 1;
    }
    proof {
        assert(t@.subrange(start as int, i as int) =~= d);
    }
    Some(acc as u32)
}

/// The string a quoted literal `t` stands for, or why it is not one.
pub fn parse_quoted_string(t: &Vec<char>) -> (r: Result<Vec<char>, SurpError>)
    ensures
        match quoted(t@) {
            Ok(x) => r matches Ok(v) && v@ == x,
            Err(e) => r matches Err(x) && x@ == e,
        },
{
    let n = t.len();
    if n < 2 || t[0] != '"' || t[n - 1] != '"' {
        return Err(SurpError::InvalidData(String::from_str("invalid quoted string literal")));
    }
    let b = copy_range(t, 1, n - 1);
    let m = b.len();
    let mut out: Vec<char> = Vec::new();
    let mut i: usize = 0;
    proof {
        assert(out@ + Seq::<char>::empty() =~= out@);
    }
    while i < m
        invariant
            i <= m,
            m == b@.len(),
            b@ == t@.subrange(1, n - 1),
            n == t@.len(),
            n >= 2,
            quoted(t@) == match unescape(b@, i as nat) {
                Ok(x) => Ok(out@ + x),
                Err(e) => Err::<Seq<char>, ErrorModel>(e),
            },
        decreases m - i,
    {
        let c = b[i];
        let ghost before = out@;
        if c != '\\' {
            out.push(c);
            proof {
                match unescape(b@, (i + 1) as nat) {
                    Ok(x) => {
                        assert(before + (seq![c] + x) =~= out@ + x);
                    },
                    Err(_) => {},
                }
            }
            i = i + 1;
        } else {
            if i + 1 >= m {
                return Err(SurpError::InvalidData(String::from_str("unterminated escape sequence")));
            }
            let e = b[i + 1];
            let simple: Option<char> = if e == 'n' {
                Some('\n')
            } else if e == 'r' {
                Some('\r')
            } else if e == 't' {
                Some('\t')
            } else if e == 'b' {
                Some('\u{8}')
            } else if e == 'f' {
                Some('\u{c}')
            } else if e == '\\' {
                Some('\\')
            } else if e == '"' {
                Some('"')
            } else {
                None
            };
            match simple {
                Some(x) => {
                    out.push(x);
                    proof {
                        match unescape(b@, (i + 2) as nat) {
                            Ok(y) => {
                                assert(before + (seq![x] + y) =~= out@ + y);
                            },
                            Err(_) => {},
                        }
                    }
                    i = i + 2;
                },
                None => {
                    if e != 'u' {
                        let mut msg = String::new();
                        crate::render::push_text(&mut msg, "unsupported escape sequence \\");
                        string_push(&mut msg, e);
                        proof {
                            assert(msg@ =~= "unsupported escape sequence \\"@ + seq![e]);
                        }
                        return Err(SurpError::InvalidData(msg));
                    }
                    if i + 2 >= m || b[i + 2] != '{' {
                        return Err(SurpError::InvalidData(String::from_str("expected '{' in unicode escape")));
                    }
                    let mut k: usize = i + 3;
                    proof {
                        lemma_close_brace(b@, (i + 3) as nat);
                    }
                    while k < m && b[k] != '}'
                        invariant
                            i + 3 <= k <= m,
                            m == b@.len(),
                            close_brace(b@, (i + 3) as nat) == close_brace(b@, k as nat),
                        decreases m - k,
                    {
                        k = k + 1;
                    }
                    let code = match hex_to_u32(&b, i + 3, k) {
                        Some(x) => x,
                        None => {
                            return Err(SurpError::InvalidData(String::from_str("invalid unicode escape")));
                        },
                    };
                    let ch = match char_from_u32(code) {
                        Some(x) => x,
                        None => {
                            return Err(SurpError::InvalidData(String::from_str("invalid unicode scalar value")));
                        },
                    };
                    out.push(ch);
                    let next = if k < m {
                        k + 1
                    } else {
                        k
                    };
                    proof {
                        match unescape(b@, next as nat) {
                            Ok(y) => {
                                assert(before + (seq![ch] + y) =~= out@ + y);
                            },
                            Err(_) => {},
                        }
                    }
                    i = next;
                }
            }
        }
    }
    proof {
        assert(out@ + Seq::<char>::empty() =~= out@);
    }
    Ok(out)
}

/// The type suffixes a numeric literal may carry, in the order they are
/// tried: `dec128`, `dec64`, `dec32`, `bf16`, `f128`, `f64`, `f32`, `f16`,
/// `vi64`, `vi32`, `vu64`, `vu32`, `i128`, `i64`, `i32`, `i16`, `i8`,
/// `u128`, `u64`, `u32`, `u16`, `u8`.
pub open spec fn suffix_lit(k: int) -> Seq<char> {
    if k == 0 {
        seq!['d', 'e', 'c', '1', '2', '8']
    } else     if k == 1 {
        seq!['d', 'e', 'c', '6', '4']
    } else     if k == 2 {
        seq!['d', 'e', 'c', '3', '2']
    } else     if k == 3 {
        seq!['b', 'f', '1', '6']
    } else     if k == 4 {
        seq!['f', '1', '2', '8']
    } else     if k == 5 {
        seq!['f', '6', '4']
    } else     if k == 6 {
        seq!['f', '3', '2']
    } else     if k == 7 {
        seq!['f', '1', '6']
    } else     if k == 8 {
        seq!['v', 'i', '6', '4']
    } else     if k == 9 {
        seq!['v', 'i', '3', '2']
    } else     if k == 10 {
        seq!['v', 'u', '6', '4']
    } else     if k == 11 {
        seq!['v', 'u', '3', '2']
    } else     if k == 12 {
        seq!['i', '1', '2', '8']
    } else     if k == 13 {
        seq!['i', '6', '4']
    } else     if k == 14 {
        seq!['i', '3', '2']
    } else     if k == 15 {
        seq!['i', '1', '6']
    } else     if k == 16 {
        seq!['i', '8']
    } else     if k == 17 {
        seq!['u', '1', '2', '8']
    } else     if k == 18 {
        seq!['u', '6', '4']
    } else     if k == 19 {
        seq!['u', '3', '2']
    } else     if k == 20 {
        seq!['u', '1', '6']
    } else {
        seq!['u', '8']
    }
}

/// The suffix characters of suffix `k`.
fn suffix_chars(k: usize) -> (r: Vec<char>)
    requires
        k < 22,
    ensures
        r@ == suffix_lit(k as int),
{
    if k == 0 {
        vec!['d', 'e', 'c', '1', '2', '8']
    } else     if k == 1 {
        vec!['d', 'e', 'c', '6', '4']
    } else     if k == 2 {
        vec!['d', 'e', 'c', '3', '2']
    } else     if k == 3 {
        vec!['b', 'f', '1', '6']
    } else     if k == 4 {
        vec!['f', '1', '2', '8']
    } else     if k == 5 {
        vec!['f', '6', '4']
    } else     if k == 6 {
        vec!['f', '3', '2']
    } else     if k == 7 {
        vec!['f', '1', '6']
    } else     if k == 8 {
        vec!['v', 'i', '6', '4']
    } else     if k == 9 {
        vec!['v', 'i', '3', '2']
    } else     if k == 10 {
        vec!['v', 'u', '6', '4']
    } else     if k == 11 {
        vec!['v', 'u', '3', '2']
    } else     if k == 12 {
        vec!['i', '1', '2', '8']
    } else     if k == 13 {
        vec!['i', '6', '4']
    } else     if k == 14 {
        vec!['i', '3', '2']
    } else     if k == 15 {
        vec!['i', '1', '6']
    } else     if k == 16 {
        vec!['i', '8']
    } else     if k == 17 {
        vec!['u', '1', '2', '8']
    } else     if k == 18 {
        vec!['u', '6', '4']
    } else     if k == 19 {
        vec!['u', '3', '2']
    } else     if k == 20 {
        vec!['u', '1', '6']
    } else {
        vec!['u', '8']
    }
}

/// `s` ends with `x`.
pub open spec fn ends_with(s: Seq<char>, x: Seq<char>) -> bool {
    x.len() <= s.len() && s.subrange(s.len() - x.len(), s.len() as int) == x
}

/// The first suffix, from `k` on, that `s` ends with (22 if none).
pub open spec fn suffix_from(s: Seq<char>, k: nat) -> nat
    decreases 22 - k,
{
    if k >= 22 {
        22
    } else if ends_with(s, suffix_lit(k as int)) {
        k
    } else {
        suffix_from(s, k + 1)
    }
}

/// A character a plain numeric literal may hold.
pub open spec fn num_char(c: char) -> bool {
    is_digit(c) || c == '+' || c == '-' || c == '.' || c == 'e' || c == 'E' || c == '_'
}

/// `b` starts with `0x`, `0b` or `0o`, optionally after a sign.
pub open spec fn radix_prefixed(b: Seq<char>) -> bool {
    let u = if b.len() > 0 && (b[0] == '+' || b[0] == '-') {
        b.drop_first()
    } else {
        b
    };
    u.len() >= 2 && u[0] == '0' && (u[1] == 'x' || u[1] == 'b' || u[1] == 'o')
}

/// `NaN`.
pub open spec fn nan_word() -> Seq<char> {
    seq!['N', 'a', 'N']
}

/// `Inf`.
pub open spec fn inf_word() -> Seq<char> {
    seq!['I', 'n', 'f']
}

/// Whether `b` looks like a number: `NaN`, `Inf` with an optional sign, a
/// radix prefix, or a digit, sign or `.` followed only by digits, signs,
/// `.`, `e`, `E` and `_`.
pub open spec fn looks_numeric(b: Seq<char>) -> bool {
    &&& b.len() > 0
    &&& {
        ||| b == nan_word()
        ||| b == inf_word()
        ||| b == seq!['+'] + inf_word()
        ||| b == seq!['-'] + inf_word()
        ||| radix_prefixed(b)
        ||| (is_digit(b[0]) || b[0] == '+' || b[0] == '-' || b[0] == '.') && forall|i: int|
            0 <= i < b.len() ==> num_char(#[trigger] b[i])
    }
}

/// `t` without its underscores.
pub open spec fn strip_us(t: Seq<char>) -> Seq<char>
    decreases t.len(),
{
    if t.len() == 0 {
        Seq::empty()
    } else {
        strip_us(t.drop_last()) + if t.last() == '_' {
            Seq::empty()
        } else {
            seq![t.last()]
        }
    }
}

/// The value of `c` as a digit in base `radix`, if it is one.
pub open spec fn radix_digit(c: char, radix: nat) -> Option<nat> {
    let v: int = if '0' <= c <= '9' {
        c as int - 48
    } else if 'a' <= c <= 'z' {
        c as int - 87
    } else if 'A' <= c <= 'Z' {
        c as int - 55
    } else {
        99
    };
    if 0 <= v < radix {
        Some(v as nat)
    } else {
        None
    }
}

/// Every character of `d` is a digit in base `radix`.
pub open spec fn all_radix(d: Seq<char>, radix: nat) -> bool {
    forall|i: int| 0 <= i < d.len() ==> (#[trigger] radix_digit(d[i], radix)) is Some
}

/// The value of the base-`radix` digits `d`.
pub open spec fn radix_value(d: Seq<char>, radix: nat) -> nat
    decreases d.len(),
{
    if d.len() == 0 {
        0
    } else {
        radix_value(d.drop_last(), radix) * radix + match radix_digit(d.last(), radix) {
            Some(v) => v,
            None => 0,
        }
    }
}

/// What `i128::from_str_radix(h, radix)` makes of `h`: an optional sign,
/// then at least one digit, with a value that fits.
pub open spec fn i128_radix(h: Seq<char>, radix: nat) -> Option<int> {
    let neg = h.len() > 0 && h[0] == '-';
    let d = if h.len() > 0 && (h[0] == '+' || h[0] == '-') {
        h.drop_first()
    } else {
        h
    };
    let m = radix_value(d, radix);
    if d.len() > 0 && all_radix(d, radix) && (if neg {
        m <= 0x8000_0000_0000_0000_0000_0000_0000_0000
    } else {
        m <= 0x7FFF_FFFF_FFFF_FFFF_FFFF_FFFF_FFFF_FFFF
    }) {
        Some(
            if neg {
                0 - m
            } else {
                m as int
            },
        )
    } else {
        None
    }
}

/// The value of an integer literal `b`: an optional sign, an optional
/// `0x`, `0b` or `0o` prefix, and digits with `_` as separators.
pub open spec fn int_text(b: Seq<char>) -> Result<int, ErrorModel> {
    let sg: int = if b.len() > 0 && b[0] == '-' {
        -1
    } else {
        1
    };
    let s1 = if b.len() > 0 && (b[0] == '-' || b[0] == '+') {
        b.drop_first()
    } else {
        b
    };
    let pre = s1.len() >= 2 && s1[0] == '0' && (s1[1] == 'x' || s1[1] == 'b' || s1[1] == 'o');
    let radix: nat = if pre && s1[1] == 'x' {
        16
    } else if pre && s1[1] == 'b' {
        2
    } else if pre {
        8
    } else {
        10
    };
    let d = strip_us(
        if pre {
            s1.subrange(2, s1.len() as int)
        } else {
            s1
        },
    );
    let msg = bad("invalid integer literal '"@ + b + "'"@);
    if d.len() == 0 {
        Err(msg)
    } else {
        match i128_radix(d, radix) {
            None => Err(msg),
            Some(m) => Ok(sg * m),
        }
    }
}

/// The scalar a numeric literal `s` stands for: `None` when it does not
/// look like a number. Floats are kept as their literal text (without
/// `_`), and the text must be one that `f64::from_str` accepts; `NaN`,
/// `Inf` and `-Inf` are kept as `NaN`, `inf` and `-inf`. Suffixes pick the
/// kind: `f32`, `f16` and `bf16` give 32-bit floats, `f64` and `f128` (or
/// no suffix on a literal with `.`, `e` or `E`) 64-bit floats, the `dec`
/// suffixes tagged text, unsigned suffixes unsigned integers (`vu` ones
/// varints), signed suffixes signed integers, and `vi` suffixes or none
/// signed varints. (A text that looks like a number is `nan` or `inf` in
/// some mix of case only when it is `NaN` or `Inf`.)
pub open spec fn numeric(s: Seq<char>) -> Result<Option<CtnScalarM>, ErrorModel> {
    let k = suffix_from(s, 0);
    let b = trimmed(
        if k < 22 {
            s.subrange(0, s.len() - suffix_lit(k as int).len())
        } else {
            s
        },
    );
    let c = strip_us(b);
    if !looks_numeric(b) {
        Ok(None)
    } else if b == nan_word() {
        Ok(Some(if k == 6 { CtnScalarM::F32("NaN"@) } else { CtnScalarM::F64("NaN"@) }))
    } else if b == inf_word() || b == seq!['+'] + inf_word() {
        Ok(Some(if k == 6 { CtnScalarM::F32("inf"@) } else { CtnScalarM::F64("inf"@) }))
    } else if b == seq!['-'] + inf_word() {
        Ok(Some(if k == 6 { CtnScalarM::F32("-inf"@) } else { CtnScalarM::F64("-inf"@) }))
    } else if k <= 2 {
        Ok(Some(CtnScalarM::Tagged(suffix_lit(k as int), b)))
    } else if has_float_mark(b) || (3 <= k <= 7) {
        if !float_literal(c) {
            Err(bad("invalid float literal '"@ + b + "'"@))
        } else if k == 3 || k == 6 || k == 7 {
            Ok(Some(CtnScalarM::F32(c)))
        } else if k == 4 || k == 5 || k == 22 {
            Ok(Some(CtnScalarM::F64(c)))
        } else {
            Ok(Some(CtnScalarM::Tagged(suffix_lit(k as int), b)))
        }
    } else {
        match int_text(b) {
            Err(e) => Err(e),
            Ok(v) => if 10 <= k <= 11 || 17 <= k <= 21 {
                if v < 0 {
                    Err(bad("unsigned literal cannot be negative: "@ + s))
                } else if v > u64::MAX {
                    Err(bad("unsigned literal out of range: "@ + s))
                } else if k <= 11 {
                    Ok(Some(CtnScalarM::Vu64(v as u64)))
                } else {
                    Ok(Some(CtnScalarM::U64(v as u64)))
                }
            } else if i64::MIN <= v <= i64::MAX {
                if 12 <= k <= 16 {
                    Ok(Some(CtnScalarM::I64(v as i64)))
                } else {
                    Ok(Some(CtnScalarM::Vi64(v as i64)))
                }
            } else {
                Err(bad("signed literal out of range: "@ + s))
            },
        }
    }
}

/// Whether `s` ends with `x`.
fn ends_with_chars(s: &Vec<char>, x: &Vec<char>) -> (r: bool)
    ensures
        r == ends_with(s@, x@),
{
    if x.len() > s.len() {
        return false;
    }
    let off = s.len() - x.len();
    let mut i: usize = 0;
    while i < x.len()
        invariant
            i <= x@.len(),
            off + x@.len() == s@.len(),
            s@.len() <= usize::MAX,
            forall|j: int| 0 <= j < i ==> s@[off + j] == x@[j],
        decreases x@.len() - i,
    {
        if s[off + i] != x[i] {
            proof {
                assert(s@.subrange(off as int, s@.len() as int)[i as int] != x@[i as int]);
            }
            return false;
        }
        i = i + 1;
    }
    proof {
        assert(s@.subrange(off as int, s@.len() as int) =~= x@);
    }
    true
}

/// Whether `a` and `b` hold the same characters.
pub(crate) fn same_chars(a: &Vec<char>, b: &Vec<char>) -> (r: bool)
    ensures
        r == (a@ == b@),
{
    if a.len() != b.len() {
        return false;
    }
    let mut i: usize = 0;
    while i < a.len()
        invariant
            i <= a@.len(),
            a@.len() == b@.len(),
            forall|j: int| 0 <= j < i ==> a@[j] == b@[j],
        decreases a@.len() - i,
    {
        if a[i] != b[i] {
            return false;
        }
        i = i + 1;
    }
    proof {
        assert(a@ =~= b@);
    }
    true
}

/// Whether `b` looks like a number.
fn looks_numeric_check(b: &Vec<char>) -> (r: bool)
    ensures
        r == looks_numeric(b@),
{
    let n = b.len();
    if n == 0 {
        return false;
    }
    let nan = vec!['N', 'a', 'N'];
    let inf = vec!['I', 'n', 'f'];
    let pinf = vec!['+', 'I', 'n', 'f'];
    let minf = vec!['-', 'I', 'n', 'f'];
    proof {
        assert(nan@ =~= nan_word());
        assert(inf@ =~= inf_word());
        assert(pinf@ =~= seq!['+'] + inf_word());
        assert(minf@ =~= seq!['-'] + inf_word());
    }
    if same_chars(b, &nan) || same_chars(b, &inf) || same_chars(b, &pinf) || same_chars(b, &minf) {
        return true;
    }
    let o: usize = if b[0] == '+' || b[0] == '-' {
        1
    } else {
        0
    };
    proof {
        let u = if b@[0] == '+' || b@[0] == '-' {
            b@.drop_first()
        } else {
            b@
        };
        assert(u =~= b@.subrange(o as int, n as int));
    }
    if o + 2 <= n && b[o] == '0' && (b[o + 1] == 'x' || b[o + 1] == 'b' || b[o + 1] == 'o') {
        return true;
    }
    let c0 = b[0];
    if !(('0' <= c0 && c0 <= '9') || c0 == '+' || c0 == '-' || c0 == '.') {
        return false;
    }
    let mut i: usize = 0;
    while i < n
        invariant
            i <= n,
            n == b@.len(),
            n > 0,
            !(b@ == nan_word() || b@ == inf_word() || b@ == seq!['+'] + inf_word() || b@ == seq!['-'] + inf_word()
                || radix_prefixed(b@)),
            forall|j: int| 0 <= j < i ==> num_char(#[trigger] b@[j]),
        decreases n - i,
    {
        let c = b[i];
        if !(('0' <= c && c <= '9') || c == '+' || c == '-' || c == '.' || c == 'e' || c == 'E' || c == '_') {
            return false;
        }
        i = i + 1;
    }
    true
}

/// `t` without its underscores.
pub(crate) fn strip_underscores(t: &Vec<char>) -> (r: Vec<char>)
    ensures
        r@ == strip_us(t@),
{
    let mut r: Vec<char> = Vec::new();
    let mut i: usize = 0;
    proof {
        assert(t@.subrange(0, 0) =~= Seq::<char>::empty());
    }
    while i < t.len()
        invariant
            i <= t@.len(),
            r@ == strip_us(t@.subrange(0, i as int)),
        decreases t@.len() - i,
    {
        if t[i] != '_' {
            r.push(t[i]);
        }
        proof {
            assert(t@.subrange(0, i + 1).drop_last() =~= t@.subrange(0, i as int));
            assert(t@.subrange(0, i + 1).last() == t@[i as int]);
            if t@[i as int] == '_' {
                assert(r@ =~= strip_us(t@.subrange(0, i as int)) + Seq::<char>::empty());
            }
        }
        i = i + 1;
    }
    proof {
        assert(t@.subrange(0, i as int) =~= t@);
    }
    r
}

/// Every prefix of a run of digits has a value at most that of the run.
proof fn lemma_radix_prefix(d: Seq<char>, k: int, radix: nat)
    requires
        0 <= k <= d.len(),
        radix >= 1,
    ensures
        radix_value(d.subrange(0, k), radix) <= radix_value(d, radix),
    decreases d.len(),
{
    if k < d.len() {
        lemma_radix_prefix(d.drop_last(), k, radix);
        assert(d.drop_last().subrange(0, k) =~= d.subrange(0, k));
        let a = radix_value(d.drop_last(), radix);
        assert(a * radix >= a) by (nonlinear_arith)
            requires
                radix >= 1,
        {
        }
    } else {
        assert(d.subrange(0, k) =~= d);
    }
}

/// The value of `c` as a digit in base `radix`, if it is one.
fn digit_of(c: char, radix: u32) -> (r: Option<u128>)
    requires
        2 <= radix <= 16,
    ensures
        match radix_digit(c, radix as nat) {
            Some(v) => r == Some(v as u128),
            None => r is None,
        },
{
    let v: u32 = if '0' <= c && c <= '9' {
        c as u32 - 48
    } else if 'a' <= c && c <= 'z' {
        c as u32 - 87
    } else if 'A' <= c && c <= 'Z' {
        c as u32 - 55
    } else {
        99
    };
    if v < radix {
        Some(v as u128)
    } else {
        None
    }
}

/// What `i128::from_str_radix(d, radix)` makes of `d`: its sign and
/// magnitude.
fn radix_parse(d: &Vec<char>, radix: u32) -> (r: Option<(bool, u128)>)
    requires
        2 <= radix <= 16,
    ensures
        match i128_radix(d@, radix as nat) {
            Some(v) => r matches Some((neg, m)) && v == (if neg {
                0 - m
            } else {
                m as int
            }),
            None => r is None,
        },
{
    let n = d.len();
    let neg = n > 0 && d[0] == '-';
    let start: usize = if n > 0 && (d[0] == '+' || d[0] == '-') {
        1
    } else {
        0
    };
    let ghost dd = d@.subrange(start as int, n as int);
    proof {
        if n > 0 && (d@[0] == '+' || d@[0] == '-') {
            assert(d@.drop_first() =~= dd);
        } else {
            assert(d@ =~= dd);
        }
    }
    if start >= n {
        return None;
    }
    let limit: u128 = if neg {
        0x8000_0000_0000_0000_0000_0000_0000_0000
    } else {
        0x7FFF_FFFF_FFFF_FFFF_FFFF_FFFF_FFFF_FFFF
    };
    let mut acc: u128 = 0;
    let mut i: usize = start;
    proof {
        assert(d@.subrange(start as int, start as int) =~= Seq::<char>::empty());
    }
    while i < n
        invariant
            start <= i <= n,
            n == d@.len(),
            start < n,
            dd == d@.subrange(start as int, n as int),
            i128_radix(d@, radix as nat) == (if dd.len() > 0 && all_radix(dd, radix as nat) && radix_value(dd, radix as nat) <= limit {
                Some(
                    if neg {
                        0 - radix_value(dd, radix as nat)
                    } else {
                        radix_value(dd, radix as nat) as int
                    },
                )
            } else {
                None::<int>
            }),
            2 <= radix <= 16,
            acc == radix_value(d@.subrange(start as int, i as int), radix as nat),
            all_radix(d@.subrange(start as int, i as int), radix as nat),
            acc <= limit,
        decreases n - i,
    {
        let c = d[i];
        let v = match digit_of(c, radix) {
            Some(v) => v,
            None => {
                proof {
                    assert(dd[i - start] == c);
                }
                return None;
            },
        };
        let ghost p = d@.subrange(start as int, i + 1);
        proof {
            assert(p.drop_last() =~= d@.subrange(start as int, i as int));
            assert(p.last() == c);
            assert(all_radix(p, radix as nat)) by {
                assert forall|j: int| 0 <= j < p.len() implies (#[trigger] radix_digit(p[j], radix as nat)) is Some by {
                    if j < i - start {
                        assert(p[j] == d@.subrange(start as int, i as int)[j]);
                    }
                }
            }
        }
        let big = match acc.checked_mul(radix as u128) {
            Some(x) => x,
            None => {
                proof {
                    assert(radix_value(p, radix as nat) >= acc * radix) by (nonlinear_arith)
                        requires
                            radix_value(p, radix as nat) == acc * radix + v,
                            v >= 0,
                    {
                    }
                    if all_radix(dd, radix as nat) {
                        lemma_radix_prefix(dd, i + 1 - start, radix as nat);
                        assert(dd.subrange(0, i + 1 - start) =~= p);
                    }
                }
                return None;
            },
        };
        let next = match big.checked_add(v) {
            Some(x) => x,
            None => {
                proof {
                    if all_radix(dd, radix as nat) {
                        lemma_radix_prefix(dd, i + 1 - start, radix as nat);
                        assert(dd.subrange(0, i + 1 - start) =~= p);
                    }
                }
                return None;
            },
        };
        proof {
            assert(next == radix_value(p, radix as nat));
        }
        if next > limit {
            proof {
                if all_radix(dd, radix as nat) {
                    lemma_radix_prefix(dd, i + 1 - start, radix as nat);
                    assert(dd.subrange(0, i + 1 - start) =~= p);
                }
            }
            return None;
        }
        acc = next;
        i = i + 1;
    }
    proof {
        assert(d@.subrange(start as int, i as int) =~= dd);
    }
    Some((neg, acc))
}

/// The error for an integer literal `b` that does not read.
fn bad_integer(b: &Vec<char>) -> (e: SurpError)
    ensures
        e@ == bad("invalid integer literal '"@ + b@ + "'"@),
{
    let mut m = String::new();
    push_text(&mut m, "invalid integer literal '");
    push_chars(&mut m, b, 0, b.len());
    push_text(&mut m, "'");
    proof {
        assert(b@.subrange(0, b@.len() as int) =~= b@);
        assert(m@ =~= "invalid integer literal '"@ + b@ + "'"@);
    }
    SurpError::InvalidData(m)
}

/// The value of an integer literal: its sign and magnitude.
fn int_text_value(b: &Vec<char>) -> (r: Result<(bool, u128), SurpError>)
    ensures
        match int_text(b@) {
            Ok(v) => r matches Ok((neg, m)) && v == (if neg {
                0 - m
            } else {
                m as int
            }),
            Err(e) => r matches Err(x) && x@ == e,
        },
{
    let n = b.len();
    let sg_neg = n > 0 && b[0] == '-';
    let o: usize = if n > 0 && (b[0] == '-' || b[0] == '+') {
        1
    } else {
        0
    };
    let ghost s1 = b@.subrange(o as int, n as int);
    proof {
        if n > 0 && (b@[0] == '-' || b@[0] == '+') {
            assert(b@.drop_first() =~= s1);
        } else {
            assert(b@ =~= s1);
        }
    }
    let pre = o + 2 <= n && b[o] == '0' && (b[o + 1] == 'x' || b[o + 1] == 'b' || b[o + 1] == 'o');
    let radix: u32 = if pre && b[o + 1] == 'x' {
        16
    } else if pre && b[o + 1] == 'b' {
        2
    } else if pre {
        8
    } else {
        10
    };
    let start = if pre {
        o + 2
    } else {
        o
    };
    proof {
        if pre {
            assert(s1.subrange(2, s1.len() as int) =~= b@.subrange(start as int, n as int));
            assert(s1[0] == b@[o as int] && s1[1] == b@[o + 1]);
        } else {
            assert(s1 =~= b@.subrange(start as int, n as int));
            if s1.len() >= 2 {
                assert(s1[0] == b@[o as int] && s1[1] == b@[o + 1]);
            }
        }
    }
    let dg = copy_range(b, start, n);
    let d = strip_underscores(&dg);
    if d.len() == 0 {
        return Err(bad_integer(b));
    }
    match radix_parse(&d, radix) {
        None => Err(bad_integer(b)),
        Some((neg, m)) => {
            let fneg = if sg_neg {
                !neg
            } else {
                neg
            };
            proof {
                let inner: int = if neg {
                    0 - m
                } else {
                    m as int
                };
                let sg: int = if sg_neg {
                    -1
                } else {
                    1
                };
                if sg_neg {
                    assert(sg * inner == 0 - inner) by (nonlinear_arith)
                        requires
                            sg == -1,
                    {
                    }
                } else {
                    assert(sg * inner == inner) by (nonlinear_arith)
                        requires
                            sg == 1,
                    {
                    }
                }
            }
            Ok((fneg, m))
        },
    }
}

/// Appends the error text `prefix` followed by `s`.
fn bad_with(prefix: &str, s: &Vec<char>) -> (e: SurpError)
    ensures
        e@ == bad(prefix@ + s@),
{
    let mut m = String::new();
    push_text(&mut m, prefix);
    push_chars(&mut m, s, 0, s.len());
    proof {
        assert(s@.subrange(0, s@.len() as int) =~= s@);
        assert(m@ =~= prefix@ + s@);
    }
    SurpError::InvalidData(m)
}

/// The scalar a numeric literal `s` stands for, `None` when it does not
/// look like a number, or why it does not read.
pub fn parse_numeric_literal(s: &Vec<char>) -> (r: Result<Option<CtnScalar>, SurpError>)
    ensures
        match numeric(s@) {
            Ok(None) => r matches Ok(None),
            Ok(Some(x)) => r matches Ok(Some(y)) && y@ == x,
            Err(e) => r matches Err(x) && x@ == e,
        },
{
    let n = s.len();
    let mut k: usize = 0;
    let mut found = false;
    let mut cut: usize = n;
    while k < 22 && !found
        invariant
            k <= 22,
            n == s@.len(),
            !found ==> suffix_from(s@, 0) == suffix_from(s@, k as nat),
            found ==> k < 22 && suffix_from(s@, 0) == k && cut == n - suffix_lit(k as int).len() && cut <= n,
            !found ==> cut == n,
        decreases 22 - k + (if found { 0int } else { 1int }),
    {
        let lit = suffix_chars(k);
        if ends_with_chars(s, &lit) {
            found = true;
            cut = n - lit.len();
        } else {
            k = k + 1;
        }
    }
    let ghost kk: nat = suffix_from(s@, 0);
    proof {
        if !found {
            assert(kk == 22);
            assert(s@.subrange(0, n as int) =~= s@);
        }
    }
    let raw = copy_range(s, 0, cut);
    let b = trim_chars(&raw);
    proof {
        assert(b@ == trimmed(
            if kk < 22 {
                s@.subrange(0, s@.len() - suffix_lit(kk as int).len())
            } else {
                s@
            },
        ));
    }
    if !looks_numeric_check(&b) {
        return Ok(None);
    }
    let f32_kind = found && k == 6;
    let nan = vec!['N', 'a', 'N'];
    let inf = vec!['I', 'n', 'f'];
    let pinf = vec!['+', 'I', 'n', 'f'];
    let minf = vec!['-', 'I', 'n', 'f'];
    proof {
        assert(nan@ =~= nan_word());
        assert(inf@ =~= inf_word());
        assert(pinf@ =~= seq!['+'] + inf_word());
        assert(minf@ =~= seq!['-'] + inf_word());
    }
    if same_chars(&b, &nan) {
        let t = String::from_str("NaN");
        return Ok(Some(if f32_kind { CtnScalar::F32(t) } else { CtnScalar::F64(t) }));
    }
    if same_chars(&b, &inf) || same_chars(&b, &pinf) {
        let t = String::from_str("inf");
        return Ok(Some(if f32_kind { CtnScalar::F32(t) } else { CtnScalar::F64(t) }));
    }
    if same_chars(&b, &minf) {
        let t = String::from_str("-inf");
        return Ok(Some(if f32_kind { CtnScalar::F32(t) } else { CtnScalar::F64(t) }));
    }
    if found && k <= 2 {
        let lit = suffix_chars(k);
        let tag = string_of(&lit, 0, lit.len());
        let value = string_of(&b, 0, b.len());
        proof {
            assert(lit@.subrange(0, lit@.len() as int) =~= lit@);
            assert(b@.subrange(0, b@.len() as int) =~= b@);
        }
        return Ok(Some(CtnScalar::Tagged { tag, value }));
    }
    let c = strip_underscores(&b);
    let mut mark = false;
    let mut j: usize = 0;
    while j < b.len()
        invariant
            j <= b@.len(),
            mark == exists|q: int| 0 <= q < j && (#[trigger] b@[q] == '.' || b@[q] == 'e' || b@[q] == 'E'),
        decreases b@.len() - j,
    {
        if b[j] == '.' || b[j] == 'e' || b[j] == 'E' {
            mark = true;
        }
        j = j + 1;
    }
    let float_kind = found && 3 <= k && k <= 7;
    if mark || float_kind {
        if !float_literal_check(&c) {
            let mut m = String::new();
            push_text(&mut m, "invalid float literal '");
            push_chars(&mut m, &b, 0, b.len());
            push_text(&mut m, "'");
            proof {
                assert(b@.subrange(0, b@.len() as int) =~= b@);
                assert(m@ =~= "invalid float literal '"@ + b@ + "'"@);
            }
            return Err(SurpError::InvalidData(m));
        }
        let ct = string_of(&c, 0, c.len());
        proof {
            assert(c@.subrange(0, c@.len() as int) =~= c@);
        }
        if found && (k == 3 || k == 6 || k == 7) {
            return Ok(Some(CtnScalar::F32(ct)));
        } else if !found || k == 4 || k == 5 {
            return Ok(Some(CtnScalar::F64(ct)));
        } else {
            let lit = suffix_chars(k);
            let tag = string_of(&lit, 0, lit.len());
            let value = string_of(&b, 0, b.len());
            proof {
                assert(lit@.subrange(0, lit@.len() as int) =~= lit@);
                assert(b@.subrange(0, b@.len() as int) =~= b@);
            }
            return Ok(Some(CtnScalar::Tagged { tag, value }));
        }
    }
    let (neg, m) = match int_text_value(&b) {
        Ok(x) => x,
        Err(e) => {
            return Err(e);
        },
    };
    if found && ((10 <= k && k <= 11) || (17 <= k && k <= 21)) {
        if neg && m > 0 {
            return Err(bad_with("unsigned literal cannot be negative: ", s));
        }
        if m > 0xFFFF_FFFF_FFFF_FFFF {
            return Err(bad_with("unsigned literal out of range: ", s));
        }
        let v = m as u64;
        if k <= 11 {
            return Ok(Some(CtnScalar::Vu64(v)));
        } else {
            return Ok(Some(CtnScalar::U64(v)));
        }
    }
    let fits = if neg {
        m <= 0x8000_0000_0000_0000
    } else {
        m <= 0x7FFF_FFFF_FFFF_FFFF
    };
    if !fits {
        return Err(bad_with("signed literal out of range: ", s));
    }
    let v: i64 = if neg {
        if m == 0x8000_0000_0000_0000 {
            i64::MIN
        } else {
            0 - (m as i64)
        }
    } else {
        m as i64
    };
    if found && 12 <= k && k <= 16 {
        Ok(Some(CtnScalar::I64(v)))
    } else {
        Ok(Some(CtnScalar::Vi64(v)))
    }
}

} // verus!

//! Small lexical pieces of the CTN notation: identifiers and paths,
//! searching for separators, and hexadecimal byte literals.

use crate::cql::{copy_range, lemma_ws_back_le, trimmed};
use crate::ctn_inline::{bad, hex_val, is_hex, strip_underscores, strip_us};
use crate::error::{ErrorModel, SurpError};
use crate::text::{char_is_whitespace, is_whitespace_char};
use vstd::prelude::*;

verus! {

/// A character that may start an identifier.
pub open spec fn ident_start(c: char) -> bool {
    ('a' <= c <= 'z') || ('A' <= c <= 'Z') || c == '_'
}

/// A character that may continue an identifier.
pub open spec fn ident_char(c: char) -> bool {
    ident_start(c) || ('0' <= c <= '9')
}

/// An identifier: an ASCII letter or `_`, then ASCII letters, digits and
/// `_`.
pub open spec fn is_ident(s: Seq<char>) -> bool {
    s.len() > 0 && ident_start(s[0]) && forall|i: int| 1 <= i < s.len() ==> ident_char(#[trigger] s[i])
}

/// The first position at or after `i` that holds `c`.
pub open spec fn first_of(s: Seq<char>, c: char, i: nat) -> Option<nat>
    decreases s.len() - i,
{
    if i >= s.len() {
        None
    } else if s[i as int] == c {
        Some(i)
    } else {
        first_of(s, c, i + 1)
    }
}

/// The first position at or after `i` where `a` is followed by `b`.
pub open spec fn first_pair(s: Seq<char>, a: char, b: char, i: nat) -> Option<nat>
    decreases s.len() - i,
{
    if i + 1 >= s.len() {
        None
    } else if s[i as int] == a && s[i as int + 1] == b {
        Some(i)
    } else {
        first_pair(s, a, b, i + 1)
    }
}

pub proof fn lemma_first_of(s: Seq<char>, c: char, i: nat)
    ensures
        first_of(s, c, i) matches Some(k) ==> i <= k < s.len() && s[k as int] == c,
        first_of(s, c, i) is None ==> forall|j: int| i <= j < s.len() ==> s[j] != c,
        first_of(s, c, i) matches Some(k) ==> forall|j: int| i <= j < k ==> s[j] != c,
    decreases s.len() - i,
{
    if i < s.len() && s[i as int] != c {
        lemma_first_of(s, c, i + 1);
    }
}

pub proof fn lemma_first_pair(s: Seq<char>, a: char, b: char, i: nat)
    ensures
        first_pair(s, a, b, i) matches Some(k) ==> i <= k && k + 1 < s.len() && s[k as int] == a && s[k as int + 1] == b,
        first_pair(s, a, b, i) is None ==> forall|j: int| i <= j && j + 1 < s.len() ==> !(#[trigger] s[j] == a && s[j + 1] == b),
    decreases s.len() - i,
{
    if i + 1 < s.len() && !(s[i as int] == a && s[i as int + 1] == b) {
        lemma_first_pair(s, a, b, i + 1);
    }
}

/// A path of identifiers joined by `::`.
pub open spec fn is_ident_path(s: Seq<char>) -> bool
    decreases s.len(),
{
    match first_of(s, ':', 0) {
        None => is_ident(s),
        Some(k) => {
            &&& k + 1 < s.len()
            &&& is_ident(s.subrange(0, k as int))
            &&& s[k as int + 1] == ':'
            &&& is_ident_path(s.subrange(k as int + 2, s.len() as int))
        },
    }
}

/// Trimming never lengthens.
pub proof fn lemma_trimmed_len(t: Seq<char>)
    ensures
        trimmed(t).len() <= t.len(),
{
    lemma_ws_back_le(t, t.len());
}

/// Whether `t` is an identifier.
pub fn is_identifier(t: &Vec<char>) -> (r: bool)
    ensures
        r == is_ident(t@),
{
    let n = t.len();
    if n == 0 {
        return false;
    }
    let c = t[0];
    if !(('a' <= c && c <= 'z') || ('A' <= c && c <= 'Z') || c == '_') {
        return false;
    }
    let mut i: usize = 1;
    while i < n
        invariant
            1 <= i <= n,
            n == t@.len(),
            forall|j: int| 1 <= j < i ==> ident_char(#[trigger] t@[j]),
        decreases n - i,
    {
        let d = t[i];
        if !(('a' <= d && d <= 'z') || ('A' <= d && d <= 'Z') || d == '_' || ('0' <= d && d <= '9')) {
            return false;
        }
        i = i + 1;
    }
    true
}

/// The first position at or after `i` of `c` in `t`.
pub fn find_char(t: &Vec<char>, c: char, i: usize) -> (r: Option<usize>)
    requires
        i <= t@.len(),
    ensures
        match first_of(t@, c, i as nat) {
            Some(k) => r == Some(k as usize),
            None => r is None,
        },
{
    let mut j: usize = i;
    while j < t.len()
        invariant
            i <= j <= t@.len(),
            first_of(t@, c, i as nat) == first_of(t@, c, j as nat),
        decreases t@.len() - j,
    {
        if t[j] == c {
            return Some(j);
        }
        j = j + 1;
    }
    None
}

/// The first position in `t` where `a` is followed by `b`.
pub fn find_pair(t: &Vec<char>, a: char, b: char) -> (r: Option<usize>)
    ensures
        match first_pair(t@, a, b, 0) {
            Some(k) => r == Some(k as usize),
            None => r is None,
        },
{
    let mut j: usize = 0;
    while t.len() > 1 && j < t.len() - 1
        invariant
            j <= t@.len(),
            first_pair(t@, a, b, 0) == first_pair(t@, a, b, j as nat),
        decreases t@.len() - j,
    {
        if t[j] == a && t[j + 1] == b {
            return Some(j);
        }
        j = j + 1;
    }
    None
}

/// Whether `t` is a path of identifiers joined by `::`.
pub fn is_identifier_path(t: &Vec<char>) -> (r: bool)
    ensures
        r == is_ident_path(t@),
    decreases t@.len(),
{
    proof {
        lemma_first_of(t@, ':', 0);
    }
    match find_char(t, ':', 0) {
        None => is_identifier(t),
        Some(k) => {
            let n = t.len();
            if k + 1 >= n {
                return false;
            }
            let head = copy_range(t, 0, k);
            if !is_identifier(&head) {
                return false;
            }
            if t[k + 1] != ':' {
                return false;
            }
            let rest = copy_range(t, k + 2, t.len());
            is_identifier_path(&rest)
        },
    }
}

/// The number of bytes of `c` in UTF-8.
pub open spec fn utf8_width(c: char) -> nat {
    if (c as u32) < 0x80 {
        1
    } else if (c as u32) < 0x800 {
        2
    } else if (c as u32) < 0x10000 {
        3
    } else {
        4
    }
}

/// The number of bytes of `s` in UTF-8.
pub open spec fn utf8_total(s: Seq<char>) -> nat
    decreases s.len(),
{
    if s.len() == 0 {
        0
    } else {
        utf8_total(s.drop_last()) + utf8_width(s.last())
    }
}

/// Every character of `s` is ASCII.
pub open spec fn all_ascii(s: Seq<char>) -> bool {
    forall|i: int| 0 <= i < s.len() ==> (#[trigger] s[i] as u32) < 0x80
}

/// The byte that two characters stand for in base 16: two hexadecimal
/// digits, or `+` and one digit.
pub open spec fn hex_pair(a: char, b: char) -> Option<u8> {
    if is_hex(a) && is_hex(b) {
        Some((16 * hex_val(a) + hex_val(b)) as u8)
    } else if a == '+' && is_hex(b) {
        Some(hex_val(b) as u8)
    } else {
        None
    }
}

/// The bytes of consecutive pairs of characters.
pub open spec fn hex_pairs(p: Seq<char>) -> Option<Seq<u8>>
    decreases p.len(),
{
    if p.len() < 2 {
        Some(Seq::empty())
    } else {
        match hex_pair(p[0], p[1]) {
            None => None,
            Some(b) => match hex_pairs(p.subrange(2, p.len() as int)) {
                None => None,
                Some(r) => Some(seq![b] + r),
            },
        }
    }
}

/// The bytes of a compact hexadecimal literal (the text between `b"` and
/// `"`); underscores are ignored.
pub open spec fn hex_compact(h: Seq<char>) -> Result<Seq<u8>, ErrorModel> {
    let p = strip_us(h);
    if utf8_total(p) % 2 != 0 {
        Err(bad("hex bytes literal must have even length"@))
    } else if !all_ascii(p) {
        Err(bad("invalid hex bytes literal"@))
    } else {
        match hex_pairs(p) {
            Some(b) => Ok(b),
            None => Err(bad("invalid hex bytes literal"@)),
        }
    }
}

fn char_width(c: char) -> (w: usize)
    ensures
        w == utf8_width(c),
{
    let x = c as u32;
    if x < 0x80 {
        1
    } else if x < 0x800 {
        2
    } else if x < 0x10000 {
        3
    } else {
        4
    }
}

/// Whether the UTF-8 length of `t` is even.
fn utf8_even(t: &Vec<char>) -> (r: bool)
    ensures
        r == (utf8_total(t@) % 2 == 0),
{
    let mut odd = false;
    let mut i: usize = 0;
    while i < t.len()
        invariant
            i <= t@.len(),
            odd == (utf8_total(t@.subrange(0, i as int)) % 2 == 1),
        decreases t@.len() - i,
    {
        let w = char_width(t[i]);
        proof {
            assert(t@.subrange(0, i + 1).drop_last() =~= t@.subrange(0, i as int));
        }
        if w % 2 == 1 {
            odd = !odd;
        }
        i = i + 1;
    }
    proof {
        assert(t@.subrange(0, i as int) =~= t@);
    }
    !odd
}

fn hex_digit_value(c: char) -> (r: Option<u8>)
    ensures
        is_hex(c) ==> r == Some(hex_val(c) as u8),
        !is_hex(c) ==> r is None,
{
    if '0' <= c && c <= '9' {
        Some(((c as u32) - 48) as u8)
    } else if 'a' <= c && c <= 'f' {
        Some(((c as u32) - 87) as u8)
    } else if 'A' <= c && c <= 'F' {
        Some(((c as u32) - 55) as u8)
    } else {
        None
    }
}

/// The byte two characters stand for in base 16.
fn hex_pair_value(a: char, b: char) -> (r: Option<u8>)
    ensures
        r == hex_pair(a, b),
{
    let hb = hex_digit_value(b);
    match hb {
        None => {
            return None;
        },
        Some(vb) => {
            match hex_digit_value(a) {
                Some(va) => {
                    proof {
                        assert(hex_val(a) < 16 && hex_val(b) < 16);
                    }
                    Some(16 * va + vb)
                },
                None => {
                    if a == '+' {
                        Some(vb)
                    } else {
                        None
                    }
                },
            }
        },
    }
}

proof fn lemma_hex_pairs_split(p: Seq<char>, i: int)
    requires
        0 <= i,
        i + 2 <= p.len(),
        i % 2 == 0,
        hex_pair(p[i], p[i + 1]) is Some,
    ensures
        hex_pairs(p.subrange(i, p.len() as int)) == match hex_pairs(p.subrange(i + 2, p.len() as int)) {
            None => None,
            Some(r) => Some(seq![hex_pair(p[i], p[i + 1])->0] + r),
        },
{
    let q = p.subrange(i, p.len() as int);
    assert(q.subrange(2, q.len() as int) =~= p.subrange(i + 2, p.len() as int));
}

/// Reads a compact hexadecimal byte literal.
pub fn parse_hex_compact(h: &Vec<char>) -> (r: Result<Vec<u8>, SurpError>)
    ensures
        match hex_compact(h@) {
            Ok(b) => r matches Ok(v) && v@ == b,
            Err(e) => r matches Err(x) && x@ == e,
        },
{
    let p = strip_underscores(h);
    if !utf8_even(&p) {
        return Err(SurpError::InvalidData(String::from_str("hex bytes literal must have even length")));
    }
    let n = p.len();
    let mut k: usize = 0;
    while k < n
        invariant
            k <= n,
            n == p@.len(),
            p@ == strip_us(h@),
            utf8_total(p@) % 2 == 0,
            forall|j: int| 0 <= j < k ==> (#[trigger] p@[j] as u32) < 0x80,
        decreases n - k,
    {
        if (p[k] as u32) >= 0x80 {
            proof {
                assert(!all_ascii(p@)) by {
                    assert((p@[k as int] as u32) >= 0x80);
                }
            }
            return Err(SurpError::InvalidData(String::from_str("invalid hex bytes literal")));
        }
        k = k + 1;
    }
    proof {
        assert(all_ascii(p@));
        lemma_ascii_even(p@);
    }
    let mut out: Vec<u8> = Vec::new();
    let mut i: usize = 0;
    proof {
        assert(p@.subrange(0, p@.len() as int) =~= p@);
    }
    while i < n
        invariant
            i <= n,
            n == p@.len(),
            p@ == strip_us(h@),
            utf8_total(p@) % 2 == 0,
            all_ascii(p@),
            n % 2 == 0,
            i % 2 == 0,
            hex_pairs(p@) == match hex_pairs(p@.subrange(i as int, n as int)) {
                None => None::<Seq<u8>>,
                Some(r) => Some(out@ + r),
            },
        decreases n - i,
    {
        let b = hex_pair_value(p[i], p[i + 1]);
        match b {
            None => {
                proof {
                    let q = p@.subrange(i as int, n as int);
                    assert(q[0] == p@[i as int] && q[1] == p@[i + 1]);
                    assert(hex_pairs(q) is None);
                }
                return Err(SurpError::InvalidData(String::from_str("invalid hex bytes literal")));
            },
            Some(v) => {
                proof {
                    lemma_hex_pairs_split(p@, i as int);
                    let q = p@.subrange(i as int, n as int);
                    assert(q[0] == p@[i as int] && q[1] == p@[i + 1]);
                    match hex_pairs(p@.subrange(i + 2, n as int)) {
                        None => {},
                        Some(r) => {
                            assert(out@.push(v) + r =~= out@ + (seq![v] + r));
                        },
                    }
                }
                out.push(v);
                i = i + 2;
            },
        }
    }
    proof {
        assert(p@.subrange(i as int, n as int) =~= Seq::<char>::empty());
        assert(out@ + Seq::<u8>::empty() =~= out@);
    }
    Ok(out)
}

/// For ASCII text the UTF-8 length is the number of characters.
proof fn lemma_ascii_even(p: Seq<char>)
    requires
        all_ascii(p),
    ensures
        utf8_total(p) == p.len(),
    decreases p.len(),
{
    if p.len() > 0 {
        assert(all_ascii(p.drop_last()));
        lemma_ascii_even(p.drop_last());
    }
}

/// The end of the run of non-whitespace characters that starts at `i`.
pub open spec fn token_end(h: Seq<char>, i: nat) -> nat
    decreases h.len() - i,
{
    if i >= h.len() || is_whitespace_char(h[i as int]) {
        i
    } else {
        token_end(h, i + 1)
    }
}

pub proof fn lemma_token_end(h: Seq<char>, i: nat)
    requires
        i <= h.len(),
    ensures
        i <= token_end(h, i) <= h.len(),
        forall|j: int| i <= j < token_end(h, i) ==> !is_whitespace_char(#[trigger] h[j]),
        token_end(h, i) < h.len() ==> is_whitespace_char(h[token_end(h, i) as int]),
    decreases h.len() - i,
{
    if i < h.len() && !is_whitespace_char(h[i as int]) {
        lemma_token_end(h, i + 1);
    }
}

/// The byte that one whitespace-separated token of a spaced hexadecimal
/// literal stands for.
pub open spec fn spaced_token(tok: Seq<char>) -> Result<u8, ErrorModel> {
    if utf8_total(tok) != 2 {
        Err(bad("space-separated hex bytes must be two hex digits each"@))
    } else if tok.len() == 2 {
        match hex_pair(tok[0], tok[1]) {
            Some(b) => Ok(b),
            None => Err(bad("invalid hex byte in literal"@)),
        }
    } else {
        Err(bad("invalid hex byte in literal"@))
    }
}

/// The bytes of the tokens of a spaced hexadecimal literal from `i` on.
pub open spec fn spaced_from(h: Seq<char>, i: nat) -> Result<Seq<u8>, ErrorModel>
    decreases h.len() - i,
{
    if i >= h.len() {
        Ok(Seq::empty())
    } else if is_whitespace_char(h[i as int]) {
        spaced_from(h, i + 1)
    } else {
        let j = token_end(h, i);
        proof {
            lemma_token_end(h, i + 1);
        }
        match spaced_token(h.subrange(i as int, j as int)) {
            Err(e) => Err(e),
            Ok(b) => match spaced_from(h, j) {
                Ok(r) => Ok(seq![b] + r),
                Err(e) => Err(e),
            },
        }
    }
}

/// The bytes of a spaced hexadecimal literal (the text between `<` and
/// `>`): whitespace-separated pairs of hexadecimal digits.
pub open spec fn hex_spaced(h: Seq<char>) -> Result<Seq<u8>, ErrorModel> {
    spaced_from(h, 0)
}

fn utf8_len_of(t: &Vec<char>, lo: usize, hi: usize) -> (r: usize)
    requires
        lo <= hi <= t@.len(),
    ensures
        r == utf8_total(t@.subrange(lo as int, hi as int)) || (r > 2 && utf8_total(t@.subrange(lo as int, hi as int)) > 2),
{
    let mut r: usize = 0;
    let mut i: usize = lo;
    proof {
        assert(t@.subrange(lo as int, lo as int) =~= Seq::<char>::empty());
    }
    while i < hi && r <= 2
        invariant
            lo <= i <= hi,
            hi <= t@.len(),
            r <= 6,
            r == utf8_total(t@.subrange(lo as int, i as int)),
        decreases hi - i,
    {
        proof {
            assert(t@.subrange(lo as int, i + 1).drop_last() =~= t@.subrange(lo as int, i as int));
        }
        r = r + char_width(t[i]);
        i = i + 1;
    }
    proof {
        if r > 2 {
            lemma_utf8_total_grows(t@, lo as int, i as int, hi as int);
        }
    }
    r
}

proof fn lemma_utf8_total_grows(t: Seq<char>, lo: int, i: int, hi: int)
    requires
        0 <= lo <= i <= hi <= t.len(),
    ensures
        utf8_total(t.subrange(lo, i)) <= utf8_total(t.subrange(lo, hi)),
    decreases hi - i,
{
    if i < hi {
        lemma_utf8_total_grows(t, lo, i, hi - 1);
        assert(t.subrange(lo, hi).drop_last() =~= t.subrange(lo, hi - 1));
    }
}

/// Reads a spaced hexadecimal byte literal.
pub fn parse_hex_spaced(h: &Vec<char>) -> (r: Result<Vec<u8>, SurpError>)
    ensures
        match hex_spaced(h@) {
            Ok(b) => r matches Ok(v) && v@ == b,
            Err(e) => r matches Err(x) && x@ == e,
        },
{
    let n = h.len();
    let mut out: Vec<u8> = Vec::new();
    let mut i: usize = 0;
    proof {
        assert(out@ + Seq::<u8>::empty() =~= out@);
    }
    while i < n
        invariant
            i <= n,
            n == h@.len(),
            hex_spaced(h@) == match spaced_from(h@, i as nat) {
                Ok(r) => Ok::<Seq<u8>, ErrorModel>(out@ + r),
                Err(e) => Err(e),
            },
        decreases n - i,
    {
        if char_is_whitespace(h[i]) {
            i = i + 1;
        } else {
            let mut j: usize = i + 1;
            while j < n && !char_is_whitespace(h[j])
                invariant
                    i < j <= n,
                    n == h@.len(),
                    token_end(h@, i as nat) == token_end(h@, j as nat),
                decreases n - j,
            {
                j = j + 1;
            }
            proof {
                lemma_token_end(h@, i as nat);
            }
            let w = utf8_len_of(h, i, j);
            let ghost tok = h@.subrange(i as int, j as int);
            if w != 2 {
                return Err(SurpError::InvalidData(String::from_str("space-separated hex bytes must be two hex digits each")));
            }
            if j - i != 2 {
                return Err(SurpError::InvalidData(String::from_str("invalid hex byte in literal")));
            }
            match hex_pair_value(h[i], h[i + 1]) {
                None => {
                    proof {
                        assert(tok[0] == h@[i as int] && tok[1] == h@[i + 1]);
                    }
                    return Err(SurpError::InvalidData(String::from_str("invalid hex byte in literal")));
                },
                Some(b) => {
                    proof {
                        assert(tok[0] == h@[i as int] && tok[1] == h@[i + 1]);
                        match spaced_from(h@, j as nat) {
                            Ok(r) => {
                                assert(out@.push(b) + r =~= out@ + (seq![b] + r));
                            },
                            Err(e) => {},
                        }
                    }
                    out.push(b);
                    i = j;
                },
            }
        }
    }
    proof {
        assert(out@ + Seq::<u8>::empty() =~= out@);
    }
    Ok(out)
}

} // verus!

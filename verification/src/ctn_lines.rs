//! The line structure of CTN text: splitting into lines, removing block
//! (`--[[ ... ]]`), line (`--`) and doc (`--!`) comments, and measuring
//! the indentation of what is left.

use crate::cql::{copy_range, ws_back, ws_end};
use crate::ctn_expr::{joined, starts, starts_lit};
use crate::ctn_lex::{find_pair, first_pair, lemma_first_pair};
use crate::error::{ErrorModel, SurpError};
use crate::text::{char_is_whitespace, chars_of, is_whitespace_char};
use vstd::prelude::*;

verus! {

/// A line of a document that holds something: its number (from 1), its
/// indentation in spaces, and its text without indentation and trailing
/// whitespace.
pub struct Line {
    pub number: usize,
    pub indent: usize,
    pub text: Vec<char>,
}

/// A line as a mathematical value.
pub struct LineM {
    pub number: nat,
    pub indent: nat,
    pub text: Seq<char>,
}

impl View for Line {
    type V = LineM;

    open spec fn view(&self) -> LineM {
        LineM { number: self.number as nat, indent: self.indent as nat, text: self.text@ }
    }
}

/// The models of lines.
pub open spec fn lines_m(ls: Seq<Line>) -> Seq<LineM> {
    Seq::new(ls.len(), |i: int| ls[i]@)
}

/// `x` without one trailing carriage return.
pub open spec fn strip_cr(x: Seq<char>) -> Seq<char> {
    if x.len() > 0 && x.last() == '\r' {
        x.drop_last()
    } else {
        x
    }
}

/// The lines of `s[start..]`, scanning from `i`, as `str::lines` gives
/// them: split at `\n`, a carriage return before it dropped, and no empty
/// line after a final `\n`.
pub open spec fn lines_from(s: Seq<char>, start: nat, i: nat) -> Seq<Seq<char>>
    decreases s.len() - i,
{
    if i >= s.len() {
        if start < s.len() {
            seq![s.subrange(start as int, s.len() as int)]
        } else {
            Seq::empty()
        }
    } else if s[i as int] == '\n' {
        seq![strip_cr(s.subrange(start as int, i as int))] + lines_from(s, i + 1, i + 1)
    } else {
        lines_from(s, start, i + 1)
    }
}

/// The first position from `i` on where `needle` stands outside a quoted
/// string.
pub open spec fn find_unq(h: Seq<char>, needle: Seq<char>, i: nat, in_s: bool, esc: bool) -> Option<nat>
    decreases h.len() - i,
{
    if i >= h.len() {
        None
    } else {
        let c = h[i as int];
        if in_s {
            if esc {
                find_unq(h, needle, i + 1, true, false)
            } else if c == '\\' {
                find_unq(h, needle, i + 1, true, true)
            } else if c == '"' {
                find_unq(h, needle, i + 1, false, false)
            } else {
                find_unq(h, needle, i + 1, true, false)
            }
        } else if c == '"' {
            find_unq(h, needle, i + 1, true, false)
        } else if i + needle.len() <= h.len() && h.subrange(i as int, i + needle.len() as int) == needle {
            Some(i)
        } else {
            find_unq(h, needle, i + 1, false, esc)
        }
    }
}

pub proof fn lemma_find_unq(h: Seq<char>, needle: Seq<char>, i: nat, in_s: bool, esc: bool)
    ensures
        find_unq(h, needle, i, in_s, esc) matches Some(k) ==> i <= k && k + needle.len() <= h.len(),
    decreases h.len() - i,
{
    if i < h.len() {
        lemma_find_unq(h, needle, i + 1, true, false);
        lemma_find_unq(h, needle, i + 1, true, true);
        lemma_find_unq(h, needle, i + 1, false, false);
        lemma_find_unq(h, needle, i + 1, false, esc);
    }
}

/// `line` with its block comments removed, and whether a block comment
/// stays open at its end.
pub open spec fn blocks(line: Seq<char>) -> (Seq<char>, bool)
    decreases line.len(),
{
    match find_unq(line, "--[["@, 0, false, false) {
        None => (line, false),
        Some(st) => {
            proof {
                reveal_strlit("--[[");
                reveal_strlit("]]");
                lemma_find_unq(line, "--[["@, 0, false, false);
            }
            let prefix = line.subrange(0, st as int);
            let rest = line.subrange(st as int + 4, line.len() as int);
            proof {
                lemma_find_unq(rest, "]]"@, 0, false, false);
            }
            match find_unq(rest, "]]"@, 0, false, false) {
                Some(e) => blocks(prefix + rest.subrange(e as int + 2, rest.len() as int)),
                None => (prefix, true),
            }
        },
    }
}

/// `line` up to its first `--` outside a quoted string (the whole line
/// when there is none); scanning from `i`.
pub open spec fn cut_comment(line: Seq<char>, i: nat, in_s: bool, esc: bool) -> Seq<char>
    decreases line.len() - i,
{
    if i + 1 >= line.len() {
        line
    } else {
        let c = line[i as int];
        if in_s {
            if esc {
                cut_comment(line, i + 1, true, false)
            } else if c == '\\' {
                cut_comment(line, i + 1, true, true)
            } else if c == '"' {
                cut_comment(line, i + 1, false, false)
            } else {
                cut_comment(line, i + 1, true, false)
            }
        } else if c == '"' {
            cut_comment(line, i + 1, true, false)
        } else if c == '-' && line[i as int + 1] == '-' {
            line.subrange(0, i as int)
        } else {
            cut_comment(line, i + 1, false, esc)
        }
    }
}

/// The number of spaces at the start of `s`, from `i` on.
pub open spec fn lead_spaces(s: Seq<char>, i: nat) -> nat
    decreases s.len() - i,
{
    if i < s.len() && s[i as int] == ' ' {
        lead_spaces(s, i + 1)
    } else {
        i
    }
}

/// `s` without leading whitespace.
pub open spec fn trim_start(s: Seq<char>) -> Seq<char> {
    s.subrange(ws_end(s, 0) as int, s.len() as int)
}

/// `s` without trailing whitespace.
pub open spec fn trim_end(s: Seq<char>) -> Seq<char> {
    s.subrange(0, ws_back(s, s.len()) as int)
}

/// The error at line `number`.
pub open spec fn line_error(number: nat, m: Seq<char>) -> ErrorModel {
    ErrorModel::ParseError { line: (if number == 0 { 1 } else { number }) as usize, col: 1, message: m }
}

/// What one raw line gives: the line that holds something, if any, and
/// whether a block comment is open after it.
pub open spec fn line_step(raw: Seq<char>, number: nat, in_block: bool) -> Result<(Option<LineM>, bool), ErrorModel> {
    let closes = first_pair(raw, ']', ']', 0);
    if in_block && closes is None {
        Ok((None, true))
    } else {
        let l0 = if in_block {
            raw.subrange(closes->0 as int + 2, raw.len() as int)
        } else {
            raw
        };
        let (line, nb) = blocks(l0);
        if starts(trim_start(line), "--!"@) {
            Ok((None, nb))
        } else {
            let stripped = cut_comment(line, 0, false, false);
            if trim_end(trim_start(stripped)).len() == 0 {
                Ok((None, nb))
            } else if stripped[0] == '\t' {
                Err(line_error(number, "tabs are not allowed for indentation in CTN"@))
            } else {
                let ind = lead_spaces(stripped, 0);
                let text = trim_end(stripped.subrange(ind as int, stripped.len() as int));
                if text.len() == 0 {
                    Ok((None, nb))
                } else {
                    Ok((Some(LineM { number, indent: ind, text }), nb))
                }
            }
        }
    }
}

/// The lines that hold something, from raw line `k` on.
pub open spec fn lines_after(raws: Seq<Seq<char>>, k: nat, in_block: bool) -> Result<Seq<LineM>, ErrorModel>
    decreases raws.len() - k,
{
    if k >= raws.len() {
        Ok(Seq::empty())
    } else {
        match line_step(raws[k as int], k + 1, in_block) {
            Err(e) => Err(e),
            Ok((o, nb)) => match lines_after(raws, k + 1, nb) {
                Err(e) => Err(e),
                Ok(rest) => Ok(
                    match o {
                        Some(l) => seq![l] + rest,
                        None => rest,
                    },
                ),
            },
        }
    }
}

/// The lines of a document that hold something.
pub open spec fn doc_lines(input: Seq<char>) -> Result<Seq<LineM>, ErrorModel> {
    lines_after(lines_from(input, 0, 0), 0, false)
}

/// Splits `input` into lines as `str::lines` does.
pub fn split_lines(input: &Vec<char>) -> (r: Vec<Vec<char>>)
    ensures
        crate::ctn_inline::texts(r@) == lines_from(input@, 0, 0),
{
    let mut out: Vec<Vec<char>> = Vec::new();
    let mut start: usize = 0;
    let mut i: usize = 0;
    let n = input.len();
    proof {
        assert(crate::ctn_inline::texts(out@) + lines_from(input@, 0, 0) =~= lines_from(input@, 0, 0));
    }
    while i < n
        invariant
            start <= i <= n,
            n == input@.len(),
            crate::ctn_inline::texts(out@) + lines_from(input@, start as nat, i as nat) == lines_from(input@, 0, 0),
        decreases n - i,
    {
        if input[i] == '\n' {
            let mut end = i;
            if end > start && input[end - 1] == '\r' {
                end = end - 1;
            }
            let piece = copy_range(input, start, end);
            proof {
                let x = input@.subrange(start as int, i as int);
                if i > start && input@[i - 1] == '\r' {
                    assert(x.drop_last() =~= piece@);
                } else {
                    assert(x =~= piece@);
                }
                let before = crate::ctn_inline::texts(out@);
                let rest = lines_from(input@, (i + 1) as nat, (i + 1) as nat);
                assert(crate::ctn_inline::texts(out@.push(piece)) =~= before.push(piece@));
                assert(before + (seq![piece@] + rest) =~= before.push(piece@) + rest);
            }
            out.push(piece);
            start = i + 1;
        }
        i = i + 1;
    }
    if start < n {
        let piece = copy_range(input, start, n);
        proof {
            let before = crate::ctn_inline::texts(out@);
            assert(crate::ctn_inline::texts(out@.push(piece)) =~= before.push(piece@));
            assert(before + seq![piece@] =~= before.push(piece@));
        }
        out.push(piece);
    } else {
        proof {
            assert(crate::ctn_inline::texts(out@) + Seq::<Seq<char>>::empty() =~= crate::ctn_inline::texts(out@));
        }
    }
    out
}

/// The first position of `needle` in `h` outside a quoted string.
pub fn find_unquoted(h: &Vec<char>, needle: &Vec<char>) -> (r: Option<usize>)
    ensures
        match find_unq(h@, needle@, 0, false, false) {
            Some(k) => r == Some(k as usize),
            None => r is None,
        },
{
    let n = h.len();
    let m = needle.len();
    let mut in_s = false;
    let mut esc = false;
    let mut i: usize = 0;
    while i < n
        invariant
            i <= n,
            n == h@.len(),
            m == needle@.len(),
            find_unq(h@, needle@, 0, false, false) == find_unq(h@, needle@, i as nat, in_s, esc),
        decreases n - i,
    {
        let c = h[i];
        if in_s {
            if esc {
                esc = false;
            } else if c == '\\' {
                esc = true;
            } else if c == '"' {
                in_s = false;
                esc = false;
            } else {
                esc = false;
            }
        } else if c == '"' {
            in_s = true;
            esc = false;
        } else {
            if m <= n - i {
                let piece = copy_range(h, i, i + m);
                if crate::ctn_inline::same_chars(&piece, needle) {
                    return Some(i);
                }
            }
        }
        i = i + 1;
    }
    None
}

/// `line` with its block comments removed, and whether one stays open.
pub fn strip_blocks(line: Vec<char>) -> (r: (Vec<char>, bool))
    ensures
        (r.0@, r.1) == blocks(line@),
    decreases line@.len(),
{
    let open = chars_of("--[[");
    let close = chars_of("]]");
    let n = line.len();
    proof {
        reveal_strlit("--[[");
        reveal_strlit("]]");
        lemma_find_unq(line@, "--[["@, 0, false, false);
    }
    match find_unquoted(&line, &open) {
        None => (line, false),
        Some(st) => {
            let prefix = copy_range(&line, 0, st);
            let rest = copy_range(&line, st + 4, n);
            proof {
                lemma_find_unq(rest@, "]]"@, 0, false, false);
            }
            match find_unquoted(&rest, &close) {
                Some(e) => {
                    let mut joined = prefix;
                    let tail = copy_range(&rest, e + 2, rest.len());
                    let ghost pre = joined@;
                    let mut j: usize = 0;
                    while j < tail.len()
                        invariant
                            j <= tail@.len(),
                            joined@ == pre + tail@.subrange(0, j as int),
                        decreases tail@.len() - j,
                    {
                        joined.push(tail[j]);
                        proof {
                            assert(joined@ =~= pre + tail@.subrange(0, j + 1));
                        }
                        j = j + 1;
                    }
                    proof {
                        assert(tail@.subrange(0, j as int) =~= tail@);
                    }
                    strip_blocks(joined)
                },
                None => (prefix, true),
            }
        },
    }
}

/// `line` up to its first `--` outside a quoted string.
pub fn cut_line_comment(line: &Vec<char>) -> (r: Vec<char>)
    ensures
        r@ == cut_comment(line@, 0, false, false),
{
    let n = line.len();
    let mut in_s = false;
    let mut esc = false;
    let mut i: usize = 0;
    while n > 0 && i < n - 1
        invariant
            n == line@.len(),
            cut_comment(line@, 0, false, false) == cut_comment(line@, i as nat, in_s, esc),
        decreases n - i,
    {
        let c = line[i];
        if in_s {
            if esc {
                esc = false;
            } else if c == '\\' {
                esc = true;
            } else if c == '"' {
                in_s = false;
                esc = false;
            } else {
                esc = false;
            }
        } else if c == '"' {
            in_s = true;
            esc = false;
        } else if c == '-' && line[i + 1] == '-' {
            return copy_range(line, 0, i);
        }
        i = i + 1;
    }
    proof {
        assert(line@.subrange(0, n as int) =~= line@);
    }
    copy_range(line, 0, n)
}

fn trim_start_chars(s: &Vec<char>) -> (r: Vec<char>)
    ensures
        r@ == trim_start(s@),
{
    let mut a: usize = 0;
    while a < s.len() && char_is_whitespace(s[a])
        invariant
            a <= s@.len(),
            ws_end(s@, 0) == ws_end(s@, a as nat),
        decreases s@.len() - a,
    {
        a = a + 1;
    }
    copy_range(s, a, s.len())
}

fn trim_end_chars(s: &Vec<char>) -> (r: Vec<char>)
    ensures
        r@ == trim_end(s@),
{
    let mut b: usize = s.len();
    while b > 0 && char_is_whitespace(s[b - 1])
        invariant
            b <= s@.len(),
            ws_back(s@, s@.len()) == ws_back(s@, b as nat),
        decreases b,
    {
        b = b - 1;
    }
    copy_range(s, 0, b)
}

fn lead_count(s: &Vec<char>) -> (r: usize)
    ensures
        r == lead_spaces(s@, 0),
        r <= s@.len(),
{
    let mut i: usize = 0;
    while i < s.len() && s[i] == ' '
        invariant
            i <= s@.len(),
            lead_spaces(s@, 0) == lead_spaces(s@, i as nat),
        decreases s@.len() - i,
    {
        i = i + 1;
    }
    i
}

/// What one raw line gives, as `line_step` says.
fn process_line(raw: &Vec<char>, number: usize, in_block: bool) -> (r: Result<(Option<Line>, bool), SurpError>)
    ensures
        match line_step(raw@, number as nat, in_block) {
            Ok((o, nb)) => r matches Ok((o2, nb2)) && nb2 == nb && match o {
                Some(l) => o2 matches Some(x) && x@ == l,
                None => o2 is None,
            },
            Err(e) => r matches Err(x) && x@ == e,
        },
{
    proof {
        lemma_first_pair(raw@, ']', ']', 0);
    }
    let n = raw.len();
    let closes = find_pair(raw, ']', ']');
    if in_block && closes.is_none() {
        return Ok((None, true));
    }
    let l0 = if in_block {
        copy_range(raw, closes.unwrap() + 2, n)
    } else {
        proof {
            assert(raw@.subrange(0, n as int) =~= raw@);
        }
        copy_range(raw, 0, n)
    };
    let (line, nb) = strip_blocks(l0);
    let ts = trim_start_chars(&line);
    if starts_lit(&ts, "--!") {
        return Ok((None, nb));
    }
    let stripped = cut_line_comment(&line);
    let t1 = trim_start_chars(&stripped);
    let t2 = trim_end_chars(&t1);
    if t2.len() == 0 {
        return Ok((None, nb));
    }
    if stripped.len() == 0 {
        proof {
            assert(t1@ =~= Seq::<char>::empty());
        }
        return Ok((None, nb));
    }
    if stripped[0] == '\t' {
        let line_no = if number == 0 {
            1
        } else {
            number
        };
        return Err(SurpError::ParseError {
            line: line_no,
            col: 1,
            message: String::from_str("tabs are not allowed for indentation in CTN"),
        });
    }
    let ind = lead_count(&stripped);
    let rest = copy_range(&stripped, ind, stripped.len());
    let text = trim_end_chars(&rest);
    if text.len() == 0 {
        return Ok((None, nb));
    }
    Ok((Some(Line { number, indent: ind, text }), nb))
}

/// The lines of a document that hold something: comments removed,
/// indentation measured; tabs in the indentation are refused.
pub fn preprocess_lines(input: &Vec<char>) -> (r: Result<Vec<Line>, SurpError>)
    ensures
        match doc_lines(input@) {
            Ok(ls) => r matches Ok(x) && lines_m(x@) == ls,
            Err(e) => r matches Err(x) && x@ == e,
        },
{
    let raws = split_lines(input);
    let ghost rs = crate::ctn_inline::texts(raws@);
    let mut out: Vec<Line> = Vec::new();
    let mut in_block = false;
    let mut k: usize = 0;
    proof {
        match lines_after(rs, 0, false) {
            Ok(x) => {
                assert(lines_m(out@) + x =~= x);
            },
            Err(_) => {},
        }
    }
    while k < raws.len()
        invariant
            k <= raws@.len(),
            rs == crate::ctn_inline::texts(raws@),
            rs == lines_from(input@, 0, 0),
            doc_lines(input@) == joined(lines_m(out@), lines_after(rs, k as nat, in_block)),
        decreases raws@.len() - k,
    {
        proof {
            assert(rs[k as int] == raws@[k as int]@);
        }
        match process_line(&raws[k], k + 1, in_block) {
            Err(e) => {
                return Err(e);
            },
            Ok((o, nb)) => {
                proof {
                    match lines_after(rs, (k + 1) as nat, nb) {
                        Ok(x) => {
                            if o is Some {
                                let l = o->Some_0;
                                assert(lines_m(out@.push(l)) =~= lines_m(out@).push(l@));
                                assert(lines_m(out@) + (seq![l@] + x) =~= lines_m(out@).push(l@) + x);
                            }
                        },
                        Err(_) => {},
                    }
                }
                match o {
                    Some(l) => {
                        out.push(l);
                    },
                    None => {},
                }
                in_block = nb;
            },
        }
        k = k + 1;
    }
    proof {
        assert(lines_m(out@) + Seq::<LineM>::empty() =~= lines_m(out@));
    }
    Ok(out)
}

} // verus!

//! Path queries over values: a query is a `.`-separated path of steps,
//! `.name`, `[]`, `[index]`, `["key"]` and `['symbol]`, applied in turn to
//! every value reached so far, starting from the root.

use crate::access::key_of;
use crate::ast::{
    clone_value, lemma_association_view, lemma_product_view, lemma_sequence_view, lemma_sum_view,
    pairs_model, values_model, Reference, Scalar, Value, ValueM,
};
use crate::document::find_binding;
use crate::error::{ErrorModel, SurpError};
use crate::render::{push_text, string_push};
use crate::text::{char_is_whitespace, chars_of, i64_from_text, i64_literal, is_whitespace_char};
use vstd::prelude::*;
use vstd::string::StringExecFns;

verus! {

/// One step of a query, as a mathematical value.
pub enum StepM {
    /// `.name`: a field of a product or struct variant, or the values of
    /// an association under a key with that text.
    Field(Seq<char>),
    /// `["key"]` or `['symbol]`: the values under a key, or a field.
    MapKey(Seq<char>),
    /// `[]`: every item of a sequence or value of an association.
    Flatten,
    /// `[i]`: one item of a sequence, counted from the end when negative.
    Index(int),
}

/// The first position at or after `i` that does not hold whitespace.
pub open spec fn ws_end(t: Seq<char>, i: nat) -> nat
    decreases t.len() - i,
{
    if i >= t.len() {
        i
    } else if is_whitespace_char(t[i as int]) {
        ws_end(t, i + 1)
    } else {
        i
    }
}

/// The position just after the last character before `j` that is not
/// whitespace (0 if there is none).
pub open spec fn ws_back(t: Seq<char>, j: nat) -> nat
    decreases j,
{
    if j == 0 || j > t.len() {
        j
    } else if is_whitespace_char(t[j - 1]) {
        ws_back(t, (j - 1) as nat)
    } else {
        j
    }
}

/// `t` without its leading and trailing whitespace, as `str::trim` gives it.
pub open spec fn trimmed(t: Seq<char>) -> Seq<char> {
    let a = ws_end(t, 0);
    let b = ws_back(t, t.len());
    if a < b {
        t.subrange(a as int, b as int)
    } else {
        Seq::empty()
    }
}

/// An ASCII letter or digit, or `_`.
pub open spec fn is_ident_char(c: char) -> bool {
    ('0' <= c <= '9') || ('a' <= c <= 'z') || ('A' <= c <= 'Z') || c == '_'
}

/// The end of the run of name characters that starts at `i`.
pub open spec fn ident_end(t: Seq<char>, i: nat) -> nat
    decreases t.len() - i,
{
    if i >= t.len() {
        i
    } else if is_ident_char(t[i as int]) {
        ident_end(t, i + 1)
    } else {
        i
    }
}

/// The position of the `]` that closes the bracket opened before `i`,
/// with `depth` brackets open and, inside a quoted string, `esc` after a
/// backslash. Brackets inside quoted strings do not count.
pub open spec fn bracket_end(t: Seq<char>, i: nat, depth: nat, in_str: bool, esc: bool) -> Result<nat, ErrorModel>
    decreases t.len() - i,
{
    if i >= t.len() {
        Err(ErrorModel::InvalidData("unterminated bracket in CQL expression"@))
    } else {
        let c = t[i as int];
        if in_str {
            if esc {
                bracket_end(t, i + 1, depth, true, false)
            } else if c == '\\' {
                bracket_end(t, i + 1, depth, true, true)
            } else if c == '"' {
                bracket_end(t, i + 1, depth, false, false)
            } else {
                bracket_end(t, i + 1, depth, true, false)
            }
        } else if c == '"' {
            bracket_end(t, i + 1, depth, true, esc)
        } else if c == '[' {
            bracket_end(t, i + 1, depth + 1, false, esc)
        } else if c == ']' {
            if depth == 0 {
                Err(ErrorModel::InvalidData("unbalanced bracket in CQL"@))
            } else if depth == 1 {
                Ok(i)
            } else {
                bracket_end(t, i + 1, (depth - 1) as nat, false, esc)
            }
        } else {
            bracket_end(t, i + 1, depth, false, esc)
        }
    }
}

/// The step that the (trimmed) text between brackets selects.
pub open spec fn selector(inner: Seq<char>) -> Result<StepM, ErrorModel> {
    if inner.len() == 0 {
        Ok(StepM::Flatten)
    } else if i64_literal(inner) is Some {
        Ok(StepM::Index(i64_literal(inner)->Some_0 as int))
    } else if inner.len() >= 2 && inner[0] == '"' && inner.last() == '"' {
        Ok(StepM::MapKey(inner.subrange(1, inner.len() - 1)))
    } else if inner[0] == '\'' {
        Ok(StepM::MapKey(inner.drop_first()))
    } else {
        Err(ErrorModel::InvalidData("unsupported CQL bracket selector ["@ + inner + "]"@))
    }
}

/// `ident_end` lies between its start and the end of the text.
pub proof fn lemma_ident_end(t: Seq<char>, i: nat)
    ensures
        i <= ident_end(t, i),
        i <= t.len() ==> ident_end(t, i) <= t.len(),
    decreases t.len() - i,
{
    if i < t.len() && is_ident_char(t[i as int]) {
        lemma_ident_end(t, i + 1);
    }
}

/// A closing bracket is found at or after the start, within the text.
pub proof fn lemma_bracket_end(t: Seq<char>, i: nat, depth: nat, in_str: bool, esc: bool)
    ensures
        bracket_end(t, i, depth, in_str, esc) matches Ok(e) ==> i <= e < t.len(),
    decreases t.len() - i,
{
    if i < t.len() {
        let c = t[i as int];
        if in_str {
            if esc {
                lemma_bracket_end(t, i + 1, depth, true, false);
            } else if c == '\\' {
                lemma_bracket_end(t, i + 1, depth, true, true);
            } else if c == '"' {
                lemma_bracket_end(t, i + 1, depth, false, false);
            } else {
                lemma_bracket_end(t, i + 1, depth, true, false);
            }
        } else if c == '"' {
            lemma_bracket_end(t, i + 1, depth, true, esc);
        } else if c == '[' {
            lemma_bracket_end(t, i + 1, depth + 1, false, esc);
        } else if c == ']' {
            if depth > 1 {
                lemma_bracket_end(t, i + 1, (depth - 1) as nat, false, esc);
            }
        } else {
            lemma_bracket_end(t, i + 1, depth, false, esc);
        }
    }
}

/// The steps of the query text `t` from position `i` on.
pub open spec fn steps_from(t: Seq<char>, i: nat) -> Result<Seq<StepM>, ErrorModel>
    decreases t.len() - i,
{
    if i >= t.len() {
        Ok(Seq::empty())
    } else if t[i as int] == '.' {
        let e = ident_end(t, i + 1);
        proof {
            lemma_ident_end(t, i + 1);
        }
        if e <= i + 1 {
            steps_from(t, i + 1)
        } else {
            match steps_from(t, e) {
                Ok(rest) => Ok(seq![StepM::Field(t.subrange(i + 1 as int, e as int))] + rest),
                Err(x) => Err(x),
            }
        }
    } else if t[i as int] == '[' {
        proof {
            lemma_bracket_end(t, i, 0, false, false);
        }
        match bracket_end(t, i, 0, false, false) {
            Err(x) => Err(x),
            Ok(e) => match selector(trimmed(t.subrange(i + 1 as int, e as int))) {
                Err(x) => Err(x),
                Ok(st) => match steps_from(t, e + 1) {
                    Ok(rest) => Ok(seq![st] + rest),
                    Err(x) => Err(x),
                },
            },
        }
    } else {
        Err(ErrorModel::InvalidData("unexpected CQL token near '"@ + t.subrange(i as int, t.len() as int) + "'"@))
    }
}

/// The steps of a query, or why the text is not one.
pub open spec fn parse_query(expr: Seq<char>) -> Result<Seq<StepM>, ErrorModel> {
    let t = trimmed(expr);
    if t.len() == 0 {
        Err(ErrorModel::InvalidData("empty CQL expression"@))
    } else if t[0] != '.' {
        Err(ErrorModel::InvalidData("CQL expression must start with '.'"@))
    } else {
        steps_from(t, 0)
    }
}

/// The value, if there is one, as a sequence of at most one value.
pub open spec fn opt_seq(o: Option<ValueM>) -> Seq<ValueM> {
    match o {
        Some(v) => seq![v],
        None => Seq::empty(),
    }
}

/// The values of the pairs whose key is a string or symbol with text
/// `name`, in order.
pub open spec fn keyed_values(ps: Seq<(ValueM, ValueM)>, name: Seq<char>) -> Seq<ValueM>
    decreases ps.len(),
{
    if ps.len() == 0 {
        Seq::empty()
    } else {
        keyed_values(ps.drop_last(), name) + if key_of(ps.last().0) == Some(name) {
            seq![ps.last().1]
        } else {
            Seq::empty()
        }
    }
}

/// The values of the pairs, in order.
pub open spec fn pair_values(ps: Seq<(ValueM, ValueM)>) -> Seq<ValueM> {
    ps.map_values(|p: (ValueM, ValueM)| p.1)
}

/// Item `k` of `items`, counted from the end when `k` is negative.
pub open spec fn index_result(items: Seq<ValueM>, k: int) -> Seq<ValueM> {
    let idx = if k < 0 {
        items.len() + k
    } else {
        k
    };
    if 0 <= idx < items.len() {
        seq![items[idx]]
    } else {
        Seq::empty()
    }
}

/// What one step gives for one value. A reference by id is looked
/// through.
pub open spec fn step_results(node: ValueM, step: StepM) -> Seq<ValueM>
    decreases node,
{
    match node {
        ValueM::RefById(inner) => if inner.len() == 1 {
            step_results(inner[0], step)
        } else {
            Seq::empty()
        },
        ValueM::Product(_, fs) => match step {
            StepM::Field(n) => opt_seq(find_binding(fs, n, 0)),
            StepM::MapKey(n) => opt_seq(find_binding(fs, n, 0)),
            _ => Seq::empty(),
        },
        ValueM::Association(ps) => match step {
            StepM::Field(n) => keyed_values(ps, n),
            StepM::MapKey(n) => keyed_values(ps, n),
            StepM::Flatten => pair_values(ps),
            StepM::Index(_) => Seq::empty(),
        },
        ValueM::SumStruct(_, _, fs) => match step {
            StepM::Field(n) => opt_seq(find_binding(fs, n, 0)),
            _ => Seq::empty(),
        },
        ValueM::Sequence(_, items) => match step {
            StepM::Flatten => items,
            StepM::Index(k) => index_result(items, k),
            _ => Seq::empty(),
        },
        _ => Seq::empty(),
    }
}

/// What one step gives for each of `nodes`, concatenated in order.
pub open spec fn step_all(nodes: Seq<ValueM>, step: StepM) -> Seq<ValueM>
    decreases nodes.len(),
{
    if nodes.len() == 0 {
        Seq::empty()
    } else {
        step_all(nodes.drop_last(), step) + step_results(nodes.last(), step)
    }
}

/// The values reached from `nodes` by the steps, one after the other.
pub open spec fn run_steps(nodes: Seq<ValueM>, steps: Seq<StepM>) -> Seq<ValueM>
    decreases steps.len(),
{
    if steps.len() == 0 {
        nodes
    } else {
        run_steps(step_all(nodes, steps[0]), steps.drop_first())
    }
}

/// The answer to the query `expr` on `root`.
pub open spec fn query_results(root: ValueM, expr: Seq<char>) -> Result<Seq<ValueM>, ErrorModel> {
    match parse_query(expr) {
        Ok(steps) => Ok(run_steps(seq![root], steps)),
        Err(e) => Err(e),
    }
}

/// A step of a parsed query.
enum Step {
    Field(String),
    MapKey(String),
    Flatten,
    Index(i64),
}

impl View for Step {
    type V = StepM;

    closed spec fn view(&self) -> StepM {
        match self {
            Step::Field(s) => StepM::Field(s@),
            Step::MapKey(s) => StepM::MapKey(s@),
            Step::Flatten => StepM::Flatten,
            Step::Index(k) => StepM::Index(*k as int),
        }
    }
}

/// The models of parsed steps.
closed spec fn steps_model(v: Seq<Step>) -> Seq<StepM> {
    Seq::new(v.len(), |i: int| v[i]@)
}

/// `pre` in front of the steps of `r`, or the error of `r`.
spec fn prepend(pre: Seq<StepM>, r: Result<Seq<StepM>, ErrorModel>) -> Result<Seq<StepM>, ErrorModel> {
    match r {
        Ok(s) => Ok(pre + s),
        Err(e) => Err(e),
    }
}

/// `t[lo..hi]` as a vector.
pub(crate) fn copy_range(t: &Vec<char>, lo: usize, hi: usize) -> (r: Vec<char>)
    requires
        lo <= hi <= t@.len(),
    ensures
        r@ == t@.subrange(lo as int, hi as int),
{
    let mut r: Vec<char> = Vec::new();
    let mut i: usize = lo;
    while i < hi
        invariant
            lo <= i <= hi,
            hi <= t@.len(),
            r@ == t@.subrange(lo as int, i as int),
        decreases hi - i,
    {
        r.push(t[i]);
        proof {
            assert(r@ =~= t@.subrange(lo as int, i + 1));
        }
        i = i + 1;
    }
    r
}

/// Appends `t[lo..hi]` to `s`.
pub(crate) fn push_chars(s: &mut String, t: &Vec<char>, lo: usize, hi: usize)
    requires
        lo <= hi <= t@.len(),
    ensures
        final(s)@ == old(s)@ + t@.subrange(lo as int, hi as int),
{
    let mut i: usize = lo;
    while i < hi
        invariant
            lo <= i <= hi,
            hi <= t@.len(),
            s@ == old(s)@ + t@.subrange(lo as int, i as int),
        decreases hi - i,
    {
        string_push(s, t[i]);
        proof {
            assert(s@ =~= old(s)@ + t@.subrange(lo as int, i + 1));
        }
        i = i + 1;
    }
}

/// `t[lo..hi]` as a string.
pub(crate) fn string_of(t: &Vec<char>, lo: usize, hi: usize) -> (s: String)
    requires
        lo <= hi <= t@.len(),
    ensures
        s@ == t@.subrange(lo as int, hi as int),
{
    let mut s = String::new();
    push_chars(&mut s, t, lo, hi);
    proof {
        assert(s@ =~= t@.subrange(lo as int, hi as int));
    }
    s
}

pub proof fn lemma_ws_back_le(t: Seq<char>, j: nat)
    ensures
        ws_back(t, j) <= j,
    decreases j,
{
    if j > 0 && j <= t.len() && is_whitespace_char(t[j - 1]) {
        lemma_ws_back_le(t, (j - 1) as nat);
    }
}

/// `t` without leading and trailing whitespace.
pub(crate) fn trim_chars(t: &Vec<char>) -> (r: Vec<char>)
    ensures
        r@ == trimmed(t@),
{
    let mut a: usize = 0;
    while a < t.len() && char_is_whitespace(t[a])
        invariant
            a <= t@.len(),
            ws_end(t@, 0) == ws_end(t@, a as nat),
        decreases t@.len() - a,
    {
        a = a + 1;
    }
    let mut b: usize = t.len();
    while b > a && char_is_whitespace(t[b - 1])
        invariant
            a <= b <= t@.len(),
            ws_end(t@, 0) == a,
            a < t@.len() ==> !is_whitespace_char(t@[a as int]),
            a < t@.len() ==> a < b,
            ws_back(t@, t@.len()) == ws_back(t@, b as nat),
        decreases b,
    {
        b = b - 1;
    }
    proof {
        lemma_ws_back_le(t@, t@.len());
    }
    copy_range(t, a, b)
}

/// The end of the run of name characters that starts at `start`.
fn ident_end_of(t: &Vec<char>, start: usize) -> (e: usize)
    requires
        start <= t@.len(),
    ensures
        e == ident_end(t@, start as nat),
        start <= e <= t@.len(),
{
    let mut j: usize = start;
    while j < t.len() && (('0' <= t[j] && t[j] <= '9') || ('a' <= t[j] && t[j] <= 'z') || ('A' <= t[j] && t[j] <= 'Z')
        || t[j] == '_')
        invariant
            start <= j <= t@.len(),
            ident_end(t@, start as nat) == ident_end(t@, j as nat),
        decreases t@.len() - j,
    {
        j = j + 1;
    }
    j
}

/// The position of the `]` that closes the `[` at `start`.
fn find_matching_bracket(t: &Vec<char>, start: usize) -> (r: Result<usize, SurpError>)
    requires
        start < t@.len(),
        t@[start as int] == '[',
    ensures
        match r {
            Ok(e) => bracket_end(t@, start as nat, 0, false, false) == Ok::<nat, ErrorModel>(e as nat) && start < e < t@.len(),
            Err(x) => bracket_end(t@, start as nat, 0, false, false) == Err::<nat, ErrorModel>(x@),
        },
{
    let mut depth: usize = 0;
    let mut in_str = false;
    let mut esc = false;
    let mut j: usize = start;
    while j < t.len()
        invariant
            start <= j <= t@.len(),
            start < t@.len(),
            t@[start as int] == '[',
            depth <= j - start,
            bracket_end(t@, start as nat, 0, false, false) == bracket_end(t@, j as nat, depth as nat, in_str, esc),
        decreases t@.len() - j,
    {
        let c = t[j];
        if in_str {
            if esc {
                esc = false;
            } else if c == '\\' {
                esc = true;
            } else if c == '"' {
                in_str = false;
            }
        } else if c == '"' {
            in_str = true;
        } else if c == '[' {
            depth = depth + 1;
        } else if c == ']' {
            if depth == 0 {
                return Err(SurpError::InvalidData(String::from_str("unbalanced bracket in CQL")));
            }
            if depth == 1 {
                return Ok(j);
            }
            depth = depth - 1;
        }
        j = j + 1;
    }
    Err(SurpError::InvalidData(String::from_str("unterminated bracket in CQL expression")))
}

/// The step that the trimmed text between brackets selects.
fn parse_selector(inner: &Vec<char>) -> (r: Result<Step, SurpError>)
    ensures
        match selector(inner@) {
            Ok(s) => r matches Ok(x) && x@ == s,
            Err(e) => r matches Err(x) && x@ == e,
        },
{
    let n = inner.len();
    if n == 0 {
        return Ok(Step::Flatten);
    }
    match i64_from_text(inner) {
        Some(k) => {
            return Ok(Step::Index(k));
        },
        None => {},
    }
    if n >= 2 && inner[0] == '"' && inner[n - 1] == '"' {
        return Ok(Step::MapKey(string_of(inner, 1, n - 1)));
    }
    if inner[0] == '\'' {
        proof {
            assert(inner@.drop_first() =~= inner@.subrange(1, n as int));
        }
        return Ok(Step::MapKey(string_of(inner, 1, n)));
    }
    let mut m = String::new();
    push_text(&mut m, "unsupported CQL bracket selector [");
    push_chars(&mut m, inner, 0, n);
    push_text(&mut m, "]");
    proof {
        assert(inner@.subrange(0, n as int) =~= inner@);
    }
    Err(SurpError::InvalidData(m))
}

/// The steps of the query text `expr`.
fn parse_steps(expr: &str) -> (r: Result<Vec<Step>, SurpError>)
    ensures
        match parse_query(expr@) {
            Ok(s) => r matches Ok(v) && steps_model(v@) == s,
            Err(e) => r matches Err(x) && x@ == e,
        },
{
    let cs = chars_of(expr);
    let t = trim_chars(&cs);
    if t.len() == 0 {
        return Err(SurpError::InvalidData(String::from_str("empty CQL expression")));
    }
    if t[0] != '.' {
        return Err(SurpError::InvalidData(String::from_str("CQL expression must start with '.'")));
    }
    let mut steps: Vec<Step> = Vec::new();
    let mut i: usize = 0;
    proof {
        assert(steps_model(steps@) =~= Seq::<StepM>::empty());
        assert(prepend(Seq::<StepM>::empty(), steps_from(t@, 0)) =~= steps_from(t@, 0)) by {
            match steps_from(t@, 0) {
                Ok(s) => {
                    assert(Seq::<StepM>::empty() + s =~= s);
                },
                Err(_) => {},
            }
        }
    }
    while i < t.len()
        invariant
            i <= t@.len(),
            t@ == trimmed(expr@),
            t@.len() > 0 && t@[0] == '.',
            steps_from(t@, 0) == prepend(steps_model(steps@), steps_from(t@, i as nat)),
        decreases t@.len() - i,
    {
        let ghost pre = steps_model(steps@);
        if t[i] == '.' {
            let e = ident_end_of(&t, i + 1);
            if e <= i + 1 {
                i = i + 1;
            } else {
                let name = string_of(&t, i + 1, e);
                steps.push(Step::Field(name));
                proof {
                    let f = StepM::Field(t@.subrange(i + 1, e as int));
                    assert(steps_model(steps@) =~= pre.push(f));
                    match steps_from(t@, e as nat) {
                        Ok(rest) => {
                            assert(pre + (seq![f] + rest) =~= pre.push(f) + rest);
                        },
                        Err(_) => {},
                    }
                }
                i = e;
            }
        } else if t[i] == '[' {
            let e = match find_matching_bracket(&t, i) {
                Ok(e) => e,
                Err(x) => {
                    return Err(x);
                },
            };
            let raw = copy_range(&t, i + 1, e);
            let inner = trim_chars(&raw);
            let st = match parse_selector(&inner) {
                Ok(s) => s,
                Err(x) => {
                    return Err(x);
                },
            };
            steps.push(st);
            proof {
                assert(steps_model(steps@) =~= pre.push(st@));
                match steps_from(t@, (e + 1) as nat) {
                    Ok(rest) => {
                        assert(pre + (seq![st@] + rest) =~= pre.push(st@) + rest);
                    },
                    Err(_) => {},
                }
            }
            i = e + 1;
        } else {
            let mut m = String::new();
            push_text(&mut m, "unexpected CQL token near '");
            push_chars(&mut m, &t, i, t.len());
            push_text(&mut m, "'");
            proof {
                assert(m@ =~= "unexpected CQL token near '"@ + t@.subrange(i as int, t@.len() as int) + "'"@);
            }
            return Err(SurpError::InvalidData(m));
        }
    }
    proof {
        assert(steps_model(steps@) + Seq::<StepM>::empty() =~= steps_model(steps@));
    }
    Ok(steps)
}

/// Appends a copy of `v`.
fn push_value(out: &mut Vec<Value>, v: &Value)
    ensures
        values_model(final(out)@) == values_model(old(out)@) + seq![v@],
{
    let c = clone_value(v);
    out.push(c);
    proof {
        assert(values_model(out@) =~= values_model(old(out)@) + seq![v@]);
    }
}

/// Whether `key` is a string or symbol with the text `name`.
fn key_matches(key: &Value, name: &String) -> (r: bool)
    ensures
        r == (key_of(key@) == Some(name@)),
{
    match key {
        Value::Scalar(Scalar::Str(s)) => *s == *name,
        Value::Scalar(Scalar::Sym(s)) => *s == *name,
        _ => false,
    }
}

/// Appends copies of the values under keys with the text `name`.
fn push_keyed(out: &mut Vec<Value>, pairs: &Vec<(Value, Value)>, name: &String)
    ensures
        values_model(final(out)@) == values_model(old(out)@) + keyed_values(pairs_model(pairs@), name@),
{
    let ghost base = values_model(out@);
    let ghost ps = pairs_model(pairs@);
    let mut i: usize = 0;
    proof {
        assert(ps.take(0) =~= Seq::<(ValueM, ValueM)>::empty());
        assert(base + Seq::<ValueM>::empty() =~= base);
    }
    while i < pairs.len()
        invariant
            i <= pairs@.len(),
            ps == pairs_model(pairs@),
            base == values_model(old(out)@),
            values_model(out@) == base + keyed_values(ps.take(i as int), name@),
        decreases pairs@.len() - i,
    {
        let ghost before = values_model(out@);
        if key_matches(&pairs[i].0, name) {
            push_value(out, &pairs[i].1);
        }
        proof {
            assert(ps.take(i + 1).drop_last() =~= ps.take(i as int));
            assert(ps.take(i + 1).last() == ps[i as int]);
            assert(ps[i as int] == (pairs@[i as int].0@, pairs@[i as int].1@));
            let tail = if key_of(ps[i as int].0) == Some(name@) {
                seq![ps[i as int].1]
            } else {
                Seq::<ValueM>::empty()
            };
            assert(keyed_values(ps.take(i + 1), name@) == keyed_values(ps.take(i as int), name@) + tail);
            assert(values_model(out@) =~= base + (keyed_values(ps.take(i as int), name@) + tail));
        }
        i = i + 1;
    }
    proof {
        assert(ps.take(pairs@.len() as int) =~= ps);
    }
}

/// Appends copies of the values of all pairs.
fn push_pair_values(out: &mut Vec<Value>, pairs: &Vec<(Value, Value)>)
    ensures
        values_model(final(out)@) == values_model(old(out)@) + pair_values(pairs_model(pairs@)),
{
    let ghost base = values_model(out@);
    let ghost ps = pairs_model(pairs@);
    let mut i: usize = 0;
    proof {
        assert(base + pair_values(ps.take(0)) =~= base);
    }
    while i < pairs.len()
        invariant
            i <= pairs@.len(),
            ps == pairs_model(pairs@),
            base == values_model(old(out)@),
            values_model(out@) == base + pair_values(ps.take(i as int)),
        decreases pairs@.len() - i,
    {
        push_value(out, &pairs[i].1);
        proof {
            assert(pair_values(ps.take(i + 1)) =~= pair_values(ps.take(i as int)).push(pairs@[i as int].1@));
            assert(values_model(out@) =~= base + pair_values(ps.take(i + 1)));
        }
        i = i + 1;
    }
    proof {
        assert(ps.take(pairs@.len() as int) =~= ps);
    }
}

/// Appends copies of all items.
fn push_items(out: &mut Vec<Value>, items: &Vec<Value>)
    ensures
        values_model(final(out)@) == values_model(old(out)@) + values_model(items@),
{
    let ghost base = values_model(out@);
    let mut i: usize = 0;
    proof {
        assert(base + values_model(items@).take(0) =~= base);
    }
    while i < items.len()
        invariant
            i <= items@.len(),
            base == values_model(old(out)@),
            values_model(out@) == base + values_model(items@).take(i as int),
        decreases items@.len() - i,
    {
        push_value(out, &items[i]);
        proof {
            assert(values_model(items@).take(i + 1) =~= values_model(items@).take(i as int).push(items@[i as int]@));
            assert(values_model(out@) =~= base + values_model(items@).take(i + 1));
        }
        i = i + 1;
    }
    proof {
        assert(values_model(items@).take(items@.len() as int) =~= values_model(items@));
    }
}

/// Appends what one step gives for `node`.
fn apply_step(node: &Value, step: &Step, out: &mut Vec<Value>)
    ensures
        values_model(final(out)@) == values_model(old(out)@) + step_results(node@, step@),
    decreases node,
{
    match node {
        Value::Reference(Reference::ById(inner)) => {
            apply_step(inner, step, out);
        },
        Value::Product(p) => {
            proof {
                lemma_product_view(p.type_label, p.fields);
            }
            let found = match step {
                Step::Field(name) => p.field(name.as_str()),
                Step::MapKey(name) => p.field(name.as_str()),
                _ => None,
            };
            match found {
                Some(v) => push_value(out, v),
                None => {
                    proof {
                        assert(values_model(old(out)@) + Seq::<ValueM>::empty() =~= values_model(old(out)@));
                    }
                },
            }
        },
        Value::Sum(s) => {
            proof {
                lemma_sum_view(s.type_label, s.variant, s.payload);
            }
            let found = match step {
                Step::Field(name) => s.field(name.as_str()),
                _ => None,
            };
            match found {
                Some(v) => push_value(out, v),
                None => {
                    proof {
                        assert(values_model(old(out)@) + Seq::<ValueM>::empty() =~= values_model(old(out)@));
                    }
                },
            }
        },
        Value::Association(pairs) => {
            proof {
                lemma_association_view(*pairs);
            }
            match step {
                Step::Field(name) => push_keyed(out, pairs, name),
                Step::MapKey(name) => push_keyed(out, pairs, name),
                Step::Flatten => push_pair_values(out, pairs),
                Step::Index(_) => {
                    proof {
                        assert(values_model(old(out)@) + Seq::<ValueM>::empty() =~= values_model(old(out)@));
                    }
                },
            }
        },
        Value::Sequence(q) => {
            proof {
                lemma_sequence_view(q.elem_type, q.items);
            }
            let ghost items = values_model(q.items@);
            match step {
                Step::Flatten => push_items(out, &q.items),
                Step::Index(k) => {
                    let len = q.items.len();
                    let mut pick: Option<usize> = None;
                    if *k < 0 {
                        let m: u64 = ((-(*k + 1)) as u64) + 1;
                        if (m as u128) <= (len as u128) {
                            pick = Some(len - (m as usize));
                        }
                    } else {
                        let kk: u64 = *k as u64;
                        if (kk as u128) < (len as u128) {
                            pick = Some(kk as usize);
                        }
                    }
                    match pick {
                        Some(idx) => {
                            assert(items[idx as int] == q.items@[idx as int]@);
                            push_value(out, &q.items[idx]);
                        },
                        None => {
                            proof {
                                assert(values_model(old(out)@) + Seq::<ValueM>::empty() =~= values_model(old(out)@));
                            }
                        },
                    }
                },
                _ => {
                    proof {
                        assert(values_model(old(out)@) + Seq::<ValueM>::empty() =~= values_model(old(out)@));
                    }
                },
            }
        },
        _ => {
            proof {
                assert(values_model(old(out)@) + Seq::<ValueM>::empty() =~= values_model(old(out)@));
            }
        },
    }
}

/// Runs the path query `expr` on `root` and returns every value it
/// reaches, in order. A query starts with `.`; its steps are `.name` (a
/// field, or the values under keys with that text), `[]` (every item or
/// value), `[i]` (an item, counted from the end when negative),
/// `["key"]` and `['symbol]` (the values under a key, or a field).
/// References by id are looked through.
pub fn query(root: &Value, expr: &str) -> (r: Result<Vec<Value>, SurpError>)
    ensures
        match query_results(root@, expr@) {
            Ok(vs) => r matches Ok(v) && values_model(v@) == vs,
            Err(e) => r matches Err(x) && x@ == e,
        },
{
    let steps = match parse_steps(expr) {
        Ok(s) => s,
        Err(e) => {
            return Err(e);
        },
    };
    let ghost sm = steps_model(steps@);
    let mut nodes: Vec<Value> = Vec::new();
    nodes.push(clone_value(root));
    proof {
        assert(values_model(nodes@) =~= seq![root@]);
        assert(sm.skip(0) =~= sm);
    }
    let mut j: usize = 0;
    while j < steps.len()
        invariant
            j <= steps@.len(),
            sm == steps_model(steps@),
            run_steps(seq![root@], sm) == run_steps(values_model(nodes@), sm.skip(j as int)),
        decreases steps@.len() - j,
    {
        let mut next: Vec<Value> = Vec::new();
        let mut i: usize = 0;
        proof {
            assert(values_model(nodes@).take(0) =~= Seq::<ValueM>::empty());
            assert(values_model(next@) =~= Seq::<ValueM>::empty());
        }
        while i < nodes.len()
            invariant
                i <= nodes@.len(),
                j < steps@.len(),
                values_model(next@) == step_all(values_model(nodes@).take(i as int), steps@[j as int]@),
            decreases nodes@.len() - i,
        {
            apply_step(&nodes[i], &steps[j], &mut next);
            proof {
                let ns = values_model(nodes@);
                assert(ns.take(i + 1).drop_last() =~= ns.take(i as int));
                assert(ns.take(i + 1).last() == nodes@[i as int]@);
            }
            i = i + 1;
        }
        proof {
            let ns = values_model(nodes@);
            assert(ns.take(nodes@.len() as int) =~= ns);
            assert(sm.skip(j as int)[0] == steps@[j as int]@);
            assert(sm.skip(j as int).drop_first() =~= sm.skip(j + 1));
        }
        nodes = next;
        j = j + 1;
    }
    proof {
        assert(sm.skip(j as int) =~= Seq::<StepM>::empty());
    }
    Ok(nodes)
}

/// Runs the path query `expr` on `root` and returns the first value it
/// reaches, if any.
pub fn query_one(root: &Value, expr: &str) -> (r: Result<Option<Value>, SurpError>)
    ensures
        match query_results(root@, expr@) {
            Ok(vs) => r matches Ok(o) && (if vs.len() > 0 {
                o matches Some(v) && v@ == vs[0]
            } else {
                o is None
            }),
            Err(e) => r matches Err(x) && x@ == e,
        },
{
    match query(root, expr) {
        Ok(mut v) => {
            if v.len() > 0 {
                let first = v.remove(0);
                Ok(Some(first))
            } else {
                Ok(None)
            }
        },
        Err(e) => Err(e),
    }
}


/// A `[]` step on an association gives the value of every pair, in
/// order: as many results as the association has pairs, result `i` being
/// the value of pair `i`. This holds for any query text that is that one
/// step, such as `.[]`.
pub proof fn law_flatten_association(ps: Seq<(ValueM, ValueM)>, expr: Seq<char>)
    requires
        parse_query(expr) == Ok::<Seq<StepM>, ErrorModel>(seq![StepM::Flatten]),
    ensures
        query_results(ValueM::Association(ps), expr) is Ok,
        query_results(ValueM::Association(ps), expr)->Ok_0.len() == ps.len(),
        forall|i: int| 0 <= i < ps.len() ==> #[trigger] query_results(ValueM::Association(ps), expr)->Ok_0[i] == ps[i].1,
{
    let one = seq![ValueM::Association(ps)];
    assert(one.drop_last() =~= Seq::<ValueM>::empty());
    assert(one.last() == ValueM::Association(ps));
    assert(step_all(Seq::<ValueM>::empty(), StepM::Flatten) == Seq::<ValueM>::empty());
    let r = step_results(ValueM::Association(ps), StepM::Flatten);
    assert(r == pair_values(ps));
    assert(step_all(one, StepM::Flatten) =~= r);
    let steps = seq![StepM::Flatten];
    assert(steps.drop_first() =~= Seq::<StepM>::empty());
    assert(steps[0] == StepM::Flatten);
    assert(run_steps(r, Seq::<StepM>::empty()) == r);
    assert(run_steps(one, steps) == r);
    assert(query_results(ValueM::Association(ps), expr) == Ok::<Seq<ValueM>, ErrorModel>(r));
}

/// `.[]` is the query of one `[]` step.
pub proof fn law_flatten_query_text()
    ensures
        parse_query(".[]"@) == Ok::<Seq<StepM>, ErrorModel>(seq![StepM::Flatten]),
{
    reveal_strlit(".[]");
    let t = ".[]"@;
    assert(ws_end(t, 0) == 0);
    assert(ws_back(t, 3) == 3);
    assert(trimmed(t) =~= t);
    assert(ident_end(t, 1) == 1);
    assert(bracket_end(t, 1, 0, false, false) == Ok::<nat, ErrorModel>(2)) by {
        assert(bracket_end(t, 2, 1, false, false) == Ok::<nat, ErrorModel>(2));
    }
    assert(t.subrange(2, 2) =~= Seq::<char>::empty());
    assert(trimmed(Seq::<char>::empty()) =~= Seq::<char>::empty());
    assert(steps_from(t, 3) == Ok::<Seq<StepM>, ErrorModel>(Seq::empty()));
    assert(selector(trimmed(t.subrange(2, 2))) == Ok::<StepM, ErrorModel>(StepM::Flatten));
    assert(steps_from(t, 1) == Ok::<Seq<StepM>, ErrorModel>(seq![StepM::Flatten])) by {
        assert(seq![StepM::Flatten] + Seq::<StepM>::empty() =~= seq![StepM::Flatten]);
    }
    assert(steps_from(t, 0) == steps_from(t, 1));
}

} // verus!

//! Rendering numbers as text, for error messages and reports.

use vstd::prelude::*;
use vstd::string::StringExecFns;

verus! {

/// The character of a decimal or lower-case hexadecimal digit.
pub open spec fn digit_char(d: nat) -> char {
    if d < 10 {
        ((48 + d) as u8) as char
    } else {
        ((87 + d) as u8) as char
    }
}

/// The decimal digits of `n`, most significant first, without leading zeros.
pub open spec fn decimal(n: nat) -> Seq<char>
    decreases n,
{
    if n < 10 {
        seq![digit_char(n)]
    } else {
        decimal(n / 10).push(digit_char(n % 10))
    }
}

/// The lower-case hexadecimal digits of `n`, left-padded with zeros to at
/// least `width` digits.
pub open spec fn hex_padded(n: nat, width: nat) -> Seq<char>
    decreases width + n,
{
    if n < 16 && width <= 1 {
        seq![digit_char(n)]
    } else {
        hex_padded(n / 16, if width > 0 { (width - 1) as nat } else { 0 }).push(digit_char(n % 16))
    }
}

/// Appends `c` to `s` by calling `String::push`, which, as its
/// documentation says, appends the character to the end of the string.
#[verifier::external_body]
pub(crate) fn string_push(s: &mut String, c: char)
    ensures
        final(s)@ == old(s)@.push(c),
{
    s.push(c);
}

/// Appends a string slice.
pub fn push_text(s: &mut String, t: &str)
    ensures
        final(s)@ == old(s)@ + t@,
{
    s.append(t);
}

fn digit(d: u64) -> (c: char)
    requires
        d < 16,
    ensures
        c == digit_char(d as nat),
{
    if d < 10 {
        ((48 + d) as u8) as char
    } else {
        ((87 + d) as u8) as char
    }
}

/// Appends the decimal rendering of `n`.
pub fn push_decimal(s: &mut String, n: u64)
    ensures
        final(s)@ == old(s)@ + decimal(n as nat),
    decreases n,
{
    if n >= 10 {
        push_decimal(s, n / 10);
    }
    let c = digit(n % 10);
    string_push(s, c);
    proof {
        if n >= 10 {
            assert(old(s)@ + decimal(n as nat) =~= old(s)@ + decimal((n / 10) as nat) + seq![c]);
        } else {
            assert(old(s)@ + decimal(n as nat) =~= old(s)@.push(c));
        }
    }
}

/// Appends the hexadecimal rendering of `n`, zero-padded to `width` digits.
pub fn push_hex(s: &mut String, n: u64, width: u64)
    ensures
        final(s)@ == old(s)@ + hex_padded(n as nat, width as nat),
    decreases width + n,
{
    if !(n < 16 && width <= 1) {
        let w = if width > 0 { width - 1 } else { 0 };
        push_hex(s, n / 16, w);
    }
    let c = digit(n % 16);
    string_push(s, c);
    proof {
        if !(n < 16 && width <= 1) {
            assert(old(s)@ + hex_padded(n as nat, width as nat) =~= old(s)@ + hex_padded(
                (n / 16) as nat,
                if width > 0 { (width - 1) as nat } else { 0 },
            ) + seq![c]);
        } else {
            assert(old(s)@ + hex_padded(n as nat, width as nat) =~= old(s)@.push(c));
        }
    }
}

} // verus!

//! Varint encoding: unsigned LEB128 and signed ZigZag + LEB128.
//!
//! LEB128 stores seven payload bits per byte, least significant group
//! first; the high bit of a byte says whether another byte follows. Any
//! `u64` fits in at most ten bytes. ZigZag maps signed integers onto
//! unsigned ones so that values of small magnitude stay short:
//! 0 → 0, -1 → 1, 1 → 2, -2 → 3, ...

use crate::error::SurpError;
use vstd::prelude::*;

verus! {

// ---------------------------------------------------------------------------
// ZigZag
// ---------------------------------------------------------------------------

/// The ZigZag image of a signed integer: non-negative `n` maps to `2n`,
/// negative `n` maps to `-2n - 1`.
pub open spec fn spec_zigzag_encode(n: i64) -> u64 {
    if n >= 0 {
        (2 * n) as u64
    } else {
        (-2 * n - 1) as u64
    }
}

/// The inverse of the ZigZag mapping: even `u` maps to `u / 2`, odd `u`
/// maps to `-(u / 2) - 1`.
pub open spec fn spec_zigzag_decode(u: u64) -> i64 {
    if u % 2 == 0 {
        (u / 2) as i64
    } else {
        (-((u / 2) as int) - 1) as i64
    }
}

/// Encode a signed 64-bit integer using ZigZag encoding.
pub fn zigzag_encode(n: i64) -> (r: u64)
    ensures
        r == spec_zigzag_encode(n),
{
    if n >= 0 {
        (n as u64) * 2
    } else {
        let m: i64 = -(n + 1);
        (m as u64) * 2 + 1
    }
}

/// Decode a ZigZag-encoded unsigned integer back to signed.
pub fn zigzag_decode(u: u64) -> (r: i64)
    ensures
        r == spec_zigzag_decode(u),
{
    let half: i64 = (u / 2) as i64;
    if u % 2 == 0 {
        half
    } else {
        -half - 1
    }
}

/// ZigZag decoding undoes ZigZag encoding, for every `i64`.
pub proof fn lemma_zigzag_decode_encode(n: i64)
    ensures
        spec_zigzag_decode(spec_zigzag_encode(n)) == n,
{
}

/// ZigZag encoding undoes ZigZag decoding, for every `u64`: the mapping is
/// a bijection between `i64` and `u64`.
pub proof fn lemma_zigzag_encode_decode(u: u64)
    ensures
        spec_zigzag_encode(spec_zigzag_decode(u)) == u,
{
}

// ---------------------------------------------------------------------------
// LEB128
// ---------------------------------------------------------------------------

/// The canonical LEB128 encoding of `v`: low seven bits first, with the
/// continuation bit set on every byte but the last.
pub open spec fn varint_bytes(v: u64) -> Seq<u8>
    decreases v,
{
    if v < 128 {
        seq![v as u8]
    } else {
        seq![(v % 128 + 128) as u8] + varint_bytes(v / 128)
    }
}

/// One step of LEB128 decoding: `i` bytes have been consumed starting at
/// `off`, and their payload bits have been collected into `acc`. The
/// result is the decoded value and the number of bytes consumed, or the
/// error the decoder reports. The tenth byte may only carry the single
/// remaining bit of a `u64`.
pub open spec fn decode_step(d: Seq<u8>, off: int, i: int, acc: u64) -> Result<(u64, usize), SurpError>
    decreases 10 - i,
{
    if i < 0 || i >= 10 {
        Err(SurpError::VarintOverflow)
    } else if off + i >= d.len() {
        Err(SurpError::UnexpectedEof((off + i) as usize))
    } else {
        let byte = d[off + i];
        if i == 9 && byte > 1 {
            Err(SurpError::VarintOverflow)
        } else {
            let acc2 = acc | (((byte & 0x7f) as u64) << ((7 * i) as u64));
            if byte & 0x80 == 0 {
                Ok((acc2, (i + 1) as usize))
            } else {
                decode_step(d, off, i + 1, acc2)
            }
        }
    }
}

/// What `decode_varint(d, off)` returns.
pub open spec fn spec_decode_varint(d: Seq<u8>, off: int) -> Result<(u64, usize), SurpError> {
    decode_step(d, off, 0, 0)
}

/// What `decode_signed_varint(d, off)` returns.
pub open spec fn spec_decode_signed_varint(d: Seq<u8>, off: int) -> Result<(i64, usize), SurpError> {
    match spec_decode_varint(d, off) {
        Ok((raw, n)) => Ok((spec_zigzag_decode(raw), n)),
        Err(e) => Err(e),
    }
}

proof fn lemma_varint_bytes_len_bound(v: u64, k: nat)
    requires
        v < pow128(k),
        k >= 1,
    ensures
        varint_bytes(v).len() <= k,
    decreases k,
{
    if v >= 128 {
        assert(k >= 2) by {
            if k == 1 {
                assert(pow128(1) == 128) by {
                    reveal_with_fuel(pow128, 2);
                }
            }
        }
        lemma_pow128_div((k - 1) as nat, v as int);
        lemma_varint_bytes_len_bound(v / 128, (k - 1) as nat);
    }
}

spec fn pow128(k: nat) -> int
    decreases k,
{
    if k == 0 {
        1
    } else {
        128 * pow128((k - 1) as nat)
    }
}

proof fn lemma_pow128_div(k: nat, v: int)
    requires
        0 <= v < 128 * pow128(k),
    ensures
        v / 128 < pow128(k),
{
}

/// Every `u64` encodes in one to ten bytes.
pub proof fn lemma_varint_bytes_len(v: u64)
    ensures
        1 <= varint_bytes(v).len() <= 10,
{
    assert(pow128(10) == 1180591620717411303424int) by {
        reveal_with_fuel(pow128, 11);
    }
    lemma_varint_bytes_len_bound(v, 10);
}

/// Values below 128 take one byte; larger values take more.
pub proof fn lemma_varint_single_byte(v: u64)
    ensures
        (varint_bytes(v).len() == 1) <== (v < 128),
        v < 128 ==> varint_bytes(v) == seq![v as u8],
        v >= 128 ==> varint_bytes(v).len() >= 2,
{
    if v >= 128 {
        lemma_varint_bytes_len(v / 128);
    }
}

proof fn lemma_bits_step(acc: u64, v: u64, s: u64)
    requires
        s <= 56,
        acc >> s == 0,
        (v << s) >> s == v,
    ensures
        ({
            let a2 = acc | ((v & 0x7f) << s);
            let v2 = v >> 7u64;
            &&& a2 >> ((s + 7) as u64) == 0
            &&& (v2 << ((s + 7) as u64)) >> ((s + 7) as u64) == v2
            &&& a2 | (v2 << ((s + 7) as u64)) == acc | (v << s)
        }),
{
    assert({
        let a2 = acc | ((v & 0x7f) << s);
        let v2 = v >> 7u64;
        &&& a2 >> ((s + 7) as u64) == 0
        &&& (v2 << ((s + 7) as u64)) >> ((s + 7) as u64) == v2
        &&& a2 | (v2 << ((s + 7) as u64)) == acc | (v << s)
    }) by (bit_vector)
        requires
            s <= 56,
            acc >> s == 0,
            (v << s) >> s == v,
    ;
}

proof fn lemma_decode_step_on_encoding(d: Seq<u8>, off: int, i: int, acc: u64, v: u64)
    requires
        0 <= off,
        0 <= i <= 9,
        off + i + varint_bytes(v).len() <= d.len(),
        d.subrange(off + i, off + i + varint_bytes(v).len()) == varint_bytes(v),
        acc >> ((7 * i) as u64) == 0,
        (v << ((7 * i) as u64)) >> ((7 * i) as u64) == v,
    ensures
        decode_step(d, off, i, acc) == Ok::<(u64, usize), SurpError>(
            (acc | (v << ((7 * i) as u64)), (i + varint_bytes(v).len()) as usize),
        ),
    decreases v,
{
    let s = (7 * i) as u64;
    let byte = d[off + i];
    assert(byte == varint_bytes(v)[0]);
    if i == 9 {
        assert((v << 63u64) >> 63u64 == v ==> v <= 1) by (bit_vector);
    }
    if v < 128 {
        assert(byte == v as u8);
        assert(v < 128 ==> (v as u8) & 0x7f == v as u8 && (v as u8) & 0x80 == 0) by (bit_vector);
        assert(((byte & 0x7f) as u64) == v);
    } else {
        let b = (v % 128 + 128) as u8;
        assert(byte == b);
        assert(v >= 128 ==> ((v % 128 + 128) as u8) & 0x7f == (v & 0x7f) as u8
            && ((v % 128 + 128) as u8) & 0x80 != 0 && (v & 0x7f) < 128) by (bit_vector);
        assert(v / 128 == v >> 7u64) by (bit_vector);
        assert(i < 9) by {
            if i == 9 {
                assert((v << 63u64) >> 63u64 == v ==> v <= 1) by (bit_vector);
            }
        }
        lemma_bits_step(acc, v, s);
        let rest = varint_bytes(v / 128);
        assert(varint_bytes(v) == seq![b] + rest);
        assert(d.subrange(off + i + 1, off + i + 1 + rest.len()) == rest) by {
            assert(d.subrange(off + i + 1, off + i + 1 + rest.len()) =~= d.subrange(
                off + i,
                off + i + varint_bytes(v).len(),
            ).subrange(1, varint_bytes(v).len() as int));
        }
        assert((7 * (i + 1)) as u64 == (s + 7) as u64);
        lemma_decode_step_on_encoding(d, off, i + 1, acc | (((byte & 0x7f) as u64) << s), v / 128);
    }
}

/// Decoding reads back exactly what encoding wrote, whatever follows the
/// encoding in the buffer: the value and the number of bytes it took.
pub proof fn lemma_decode_encode_varint(v: u64, before: Seq<u8>, after: Seq<u8>)
    ensures
        spec_decode_varint(before + varint_bytes(v) + after, before.len() as int)
            == Ok::<(u64, usize), SurpError>((v, varint_bytes(v).len() as usize)),
{
    let d = before + varint_bytes(v) + after;
    let off = before.len() as int;
    lemma_varint_bytes_len(v);
    assert(d.subrange(off, off + varint_bytes(v).len()) =~= varint_bytes(v));
    assert((0u64 >> 0u64) == 0 && (v << 0u64) >> 0u64 == v && (0u64 | (v << 0u64)) == v) by (bit_vector);
    lemma_decode_step_on_encoding(d, off, 0, 0, v);
}

/// Signed values survive a ZigZag + LEB128 round trip.
pub proof fn lemma_decode_encode_signed_varint(n: i64, before: Seq<u8>, after: Seq<u8>)
    ensures
        spec_decode_signed_varint(
            before + varint_bytes(spec_zigzag_encode(n)) + after,
            before.len() as int,
        ) == Ok::<(i64, usize), SurpError>((n, varint_bytes(spec_zigzag_encode(n)).len() as usize)),
{
    lemma_decode_encode_varint(spec_zigzag_encode(n), before, after);
    lemma_zigzag_decode_encode(n);
}

/// Encode an unsigned 64-bit integer as LEB128 into `buf`.
/// Returns the number of bytes written (1–10); the rest of `buf` is left
/// as it was.
pub fn encode_varint(value: u64, buf: &mut [u8; 10]) -> (n: usize)
    ensures
        n == varint_bytes(value).len(),
        1 <= n <= 10,
        final(buf)@.subrange(0, n as int) == varint_bytes(value),
        final(buf)@.subrange(n as int, 10) == old(buf)@.subrange(n as int, 10),
{
    let ghost v0 = value;
    let mut value = value;
    let mut i: usize = 0;
    proof {
        lemma_varint_bytes_len(v0);
        assert(buf@.subrange(0, 0) + varint_bytes(value) =~= varint_bytes(v0));
    }
    loop
        invariant_except_break
            i < 10,
            i + varint_bytes(value).len() == varint_bytes(v0).len(),
            varint_bytes(v0).len() <= 10,
            buf@.len() == 10,
            buf@.subrange(0, i as int) + varint_bytes(value) == varint_bytes(v0),
            buf@.subrange(varint_bytes(v0).len() as int, 10) == old(buf)@.subrange(
                varint_bytes(v0).len() as int,
                10,
            ),
        ensures
            i == varint_bytes(v0).len(),
            buf@.len() == 10,
            buf@.subrange(0, i as int) == varint_bytes(v0),
            buf@.subrange(varint_bytes(v0).len() as int, 10) == old(buf)@.subrange(
                varint_bytes(v0).len() as int,
                10,
            ),
        decreases value,
    {
        let ghost cur = value;
        let mut byte: u8 = (value & 0x7F) as u8;
        value = value >> 7;
        if value != 0 {
            byte = byte | 0x80;
        }
        proof {
            assert((cur & 0x7f) as u8 == (cur % 128) as u8 && cur >> 7u64 == cur / 128) by (bit_vector);
            assert(cur % 128 < 128 ==> ((cur % 128) as u8) | 0x80 == (cur % 128 + 128) as u8) by (bit_vector);
            lemma_varint_single_byte(cur);
            if cur >= 128 {
                assert(varint_bytes(cur) == seq![(cur % 128 + 128) as u8] + varint_bytes(cur / 128));
                assert(byte == varint_bytes(cur)[0]);
            } else {
                assert(byte == varint_bytes(cur)[0]);
            }
        }
        let ghost prev = buf@;
        buf[i] = byte;
        i = i + 1;
        proof {
            assert(buf@.subrange(0, i as int) =~= prev.subrange(0, i - 1).push(byte));
            assert(buf@.subrange(varint_bytes(v0).len() as int, 10) =~= prev.subrange(
                varint_bytes(v0).len() as int,
                10,
            ));
            if cur >= 128 {
                assert(buf@.subrange(0, i as int) + varint_bytes(value) =~= prev.subrange(0, i - 1)
                    + varint_bytes(cur));
            } else {
                assert(value == 0);
                assert(buf@.subrange(0, i as int) =~= prev.subrange(0, i - 1) + varint_bytes(cur));
            }
        }
        if value == 0 {
            break;
        }
    }
    i
}

/// Encode a varint and append it to a `Vec<u8>`.
pub fn encode_varint_vec(value: u64, out: &mut Vec<u8>)
    ensures
        final(out)@ == old(out)@ + varint_bytes(value),
{
    let mut buf = [0u8; 10];
    let n = encode_varint(value, &mut buf);
    let s = vstd::slice::slice_subrange(buf.as_slice(), 0, n);
    out.extend_from_slice(s);
}

/// Decode an unsigned LEB128 varint from `data` starting at `offset`.
/// Returns `(value, bytes_consumed)`.
///
/// Errors: `VarintOverflow` if the varint would need more than 64 bits;
/// `UnexpectedEof(position)` if the data ends before the varint does.
pub fn decode_varint(data: &[u8], offset: usize) -> (r: Result<(u64, usize), SurpError>)
    ensures
        r == spec_decode_varint(data@, offset as int),
        r matches Ok((_, n)) ==> 1 <= n <= 10 && offset + n <= data@.len() && offset + n <= data.len(),
{
    let mut result: u64 = 0;
    let mut shift: u32 = 0;
    let mut i: usize = 0;
    assert((0u64 | 0u64) == 0u64) by (bit_vector);
    loop
        invariant
            i <= 9,
            shift == 7 * i,
            i > 0 ==> offset + i <= data.len(),
            spec_decode_varint(data@, offset as int) == decode_step(data@, offset as int, i as int, result),
        decreases 10 - i,
    {
        assert(offset + i <= usize::MAX) by {
            if i > 0 {
                assert(offset + i <= data.len());
            }
        }
        if offset + i >= data.len() {
            return Err(SurpError::UnexpectedEof(offset + i));
        }
        let byte = data[offset + i];
        i = i + 1;
        if i > 10 {
            return Err(SurpError::VarintOverflow);
        }
        if i == 10 && byte > 0x01 {
            return Err(SurpError::VarintOverflow);
        }
        result = result | (((byte & 0x7F) as u64) << shift);
        if byte & 0x80 == 0 {
            return Ok((result, i));
        }
        if i == 10 {
            assert(byte <= 1 ==> byte & 0x80 == 0) by (bit_vector);
        }
        shift = shift + 7;
    }
}

/// Encode a signed i64 as ZigZag + LEB128 and append it to `out`.
pub fn encode_signed_varint_vec(value: i64, out: &mut Vec<u8>)
    ensures
        final(out)@ == old(out)@ + varint_bytes(spec_zigzag_encode(value)),
{
    encode_varint_vec(zigzag_encode(value), out);
}

/// Decode a ZigZag + LEB128 signed i64 from `data` at `offset`.
pub fn decode_signed_varint(data: &[u8], offset: usize) -> (r: Result<(i64, usize), SurpError>)
    ensures
        r == spec_decode_signed_varint(data@, offset as int),
        r matches Ok((_, n)) ==> 1 <= n <= 10 && offset + n <= data@.len() && offset + n <= data.len(),
{
    match decode_varint(data, offset) {
        Ok((raw, len)) => Ok((zigzag_decode(raw), len)),
        Err(e) => Err(e),
    }
}

} // verus!

//! Base64 VLQ, the number format of the `mappings` field of a source map.
//!
//! A signed number `x` is first folded to a natural number (`2x` for
//! `x >= 0`, `-2x + 1` otherwise) and then written in groups of five bits,
//! least significant group first.  Each group is one Base64 digit; a digit
//! whose value is 32 or more announces that another group follows.
use vstd::prelude::*;

use crate::error::Error;

verus! {

/// The Base64 digit for a value in `0..64`.
pub open spec fn b64_char(d: int) -> u8 {
    if d < 26 {
        (65 + d) as u8
    } else if d < 52 {
        (97 + (d - 26)) as u8
    } else if d < 62 {
        (48 + (d - 52)) as u8
    } else if d == 62 {
        43u8
    } else {
        47u8
    }
}

/// The value of a Base64 digit, `-1` for a byte that is no Base64 digit.
pub open spec fn b64_value(c: u8) -> int {
    if 65 <= c <= 90 {
        c - 65
    } else if 97 <= c <= 122 {
        c - 97 + 26
    } else if 48 <= c <= 57 {
        c - 48 + 52
    } else if c == 43 {
        62
    } else if c == 47 {
        63
    } else {
        -1
    }
}

/// `32` to the power `k`.
pub open spec fn pow32(k: nat) -> int
    decreases k,
{
    if k == 0 {
        1
    } else {
        32 * pow32((k - 1) as nat)
    }
}

/// The digits of a natural number, five bits each, least significant first.
pub open spec fn vlq_digits(n: nat) -> Seq<u8>
    decreases n,
{
    if n < 32 {
        seq![b64_char(n as int)]
    } else {
        seq![b64_char(((n % 32) + 32) as int)] + vlq_digits(n / 32)
    }
}

/// How many digits `vlq_digits(n)` has.
pub open spec fn vlq_len(n: nat) -> nat
    decreases n,
{
    if n < 32 {
        1
    } else {
        1 + vlq_len(n / 32)
    }
}

/// Folds a signed number to the natural number that is written out.
pub open spec fn zigzag(x: int) -> nat {
    if x < 0 {
        (-2 * x + 1) as nat
    } else {
        (2 * x) as nat
    }
}

/// Unfolds a natural number read back: odd numbers are negative.
pub open spec fn unzigzag(n: int) -> int {
    if n % 2 == 1 {
        -(n / 2)
    } else {
        n / 2
    }
}

/// The Base64 VLQ text of one signed number.
pub open spec fn vlq(x: int) -> Seq<u8> {
    vlq_digits(zigzag(x))
}

/// The Base64 VLQ text of a list of numbers: their encodings one after another.
pub open spec fn vlq_seq(xs: Seq<i64>) -> Seq<u8>
    decreases xs.len(),
{
    if xs.len() == 0 {
        seq![]
    } else {
        vlq_seq(xs.drop_last()) + vlq(xs.last() as int)
    }
}

/// Decoding of `s` from byte `i` on, with `cur` the value gathered so far
/// from `k` digits of the number being read, and `acc` the numbers read
/// before.  Gives the numbers read and the error met, if any.  A byte that
/// is no Base64 digit counts as the digit `31` followed by more digits.
pub open spec fn decode_from(s: Seq<u8>, i: int, cur: int, k: nat, acc: Seq<i64>) -> (Seq<i64>, Option<Error>)
    decreases s.len() - i,
{
    if i >= s.len() || i < 0 {
        if k != 0 {
            (acc, Some(Error::VlqLeftover))
        } else if acc.len() == 0 {
            (acc, Some(Error::VlqNoValues))
        } else {
            (acc, None)
        }
    } else {
        let enc = b64_value(s[i]);
        let val = if enc < 0 { 31 } else { enc % 32 };
        let more = enc < 0 || enc >= 32;
        let next = cur + val * pow32(k);
        if k >= 13 || next > i64::MAX {
            (acc, Some(Error::VlqOverflow))
        } else if more {
            decode_from(s, i + 1, next, k + 1, acc)
        } else {
            decode_from(s, i + 1, 0, 0, acc.push(unzigzag(next) as i64))
        }
    }
}

/// The numbers that a whole segment decodes to, after those already in `acc`,
/// and the error met, if any.
pub open spec fn decode_spec(s: Seq<u8>, acc: Seq<i64>) -> (Seq<i64>, Option<Error>) {
    decode_from(s, 0, 0, 0, acc)
}

fn b64_char_exec(d: u64) -> (c: u8)
    requires
        d < 64,
    ensures
        c == b64_char(d as int),
{
    if d < 26 {
        (65 + d) as u8
    } else if d < 52 {
        (97 + (d - 26)) as u8
    } else if d < 62 {
        (48 + (d - 52)) as u8
    } else if d == 62 {
        43u8
    } else {
        47u8
    }
}

fn b64_value_exec(c: u8) -> (v: i64)
    ensures
        v == b64_value(c),
{
    if 65 <= c && c <= 90 {
        (c - 65) as i64
    } else if 97 <= c && c <= 122 {
        (c - 97 + 26) as i64
    } else if 48 <= c && c <= 57 {
        (c - 48 + 52) as i64
    } else if c == 43 {
        62
    } else if c == 47 {
        63
    } else {
        -1
    }
}

/// Appends the Base64 VLQ text of `a - b` to `out`.
pub fn encode(out: &mut Vec<u8>, a: u32, b: u32)
    ensures
        final(out)@ == old(out)@ + vlq(a - b),
{
    let mut num: u64 = if a >= b {
        ((a - b) as u64) * 2
    } else {
        ((b - a) as u64) * 2 + 1
    };
    assert(num == zigzag(a - b));
    let ghost target = old(out)@ + vlq(a - b);
    loop
        invariant_except_break
            out@ + vlq_digits(num as nat) == target,
        ensures
            out@ == target,
        decreases num,
    {
        let digit = num % 32;
        let rest = num / 32;
        if rest > 0 {
            let c = b64_char_exec(digit + 32);
            proof {
                assert(vlq_digits(num as nat) == seq![c] + vlq_digits(rest as nat));
            }
            out.push(c);
            assert(out@ + vlq_digits(rest as nat) =~= target);
            num = rest;
        } else {
            let c = b64_char_exec(digit);
            assert(vlq_digits(num as nat) == seq![c]);
            out.push(c);
            assert(out@ =~= target);
            break;
        }
    }
}

proof fn lemma_pow32_mono(k: nat, m: nat)
    requires
        k <= m,
    ensures
        1 <= pow32(k) <= pow32(m),
    decreases m,
{
    if m > 0 {
        if m > k {
            lemma_pow32_mono(k, (m - 1) as nat);
        } else {
            lemma_pow32_mono((k - 1) as nat, (m - 1) as nat);
        }
    }
}

proof fn lemma_pow32_bounds(k: nat)
    requires
        k <= 12,
    ensures
        1 <= pow32(k) <= 0x1000_0000_0000_0000,
{
    lemma_pow32_mono(k, 12);
    assert(pow32(12) == 0x1000_0000_0000_0000) by {
        reveal_with_fuel(pow32, 13);
    }
}

/// Decodes a Base64 VLQ segment, appending the numbers read to `rv`.
pub fn decode(segment: &[u8], rv: &mut Vec<i64>) -> (res: Result<(), Error>)
    ensures
        final(rv)@ == decode_spec(segment@, old(rv)@).0,
        res is Ok <==> decode_spec(segment@, old(rv)@).1 is None,
        res matches Err(e) ==> decode_spec(segment@, old(rv)@).1 == Some(e),
        forall|j: int|
            old(rv)@.len() <= j < final(rv)@.len() ==> -0x4000_0000_0000_0000 <= #[trigger] final(rv)@[j] <= 0x4000_0000_0000_0000,
{
    let mut cur: i128 = 0;
    let mut k: u32 = 0;
    let mut mult: i128 = 1;
    let mut i: usize = 0;
    while i < segment.len()
        invariant
            0 <= i <= segment@.len(),
            0 <= cur <= i64::MAX,
            k <= 12,
            mult == pow32(k as nat),
            decode_from(segment@, i as int, cur as int, k as nat, rv@) == decode_spec(
                segment@,
                old(rv)@,
            ),
            old(rv)@.len() <= rv@.len(),
            forall|j: int|
                old(rv)@.len() <= j < rv@.len() ==> -0x4000_0000_0000_0000 <= #[trigger] rv@[j]
                    <= 0x4000_0000_0000_0000,
        decreases segment@.len() - i,
    {
        let enc = b64_value_exec(segment[i]);
        let val: i128 = if enc < 0 {
            31
        } else {
            (enc % 32) as i128
        };
        let more = enc < 0 || enc >= 32;
        proof {
            lemma_pow32_bounds(k as nat);
            assert(0 <= val * mult <= 31 * 0x1000_0000_0000_0000) by (nonlinear_arith)
                requires
                    0 <= val <= 31,
                    1 <= mult <= 0x1000_0000_0000_0000,
            ;
        }
        let next = cur + val * mult;
        if next > i64::MAX as i128 {
            return Err(Error::VlqOverflow);
        }
        if more {
            if k == 12 {
                // a further digit would be shifted past 64 bits
                assert(decode_from(segment@, i as int, cur as int, k as nat, rv@)
                    == decode_from(segment@, i + 1, next as int, 13, rv@));
                if i + 1 < segment.len() {
                    assert(decode_from(segment@, i + 1, next as int, 13, rv@)
                        == (rv@, Some(Error::VlqOverflow)));
                    return Err(Error::VlqOverflow);
                } else {
                    return Err(Error::VlqLeftover);
                }
            }
            cur = next;
            k = k + 1;
            mult = mult * 32;
        } else {
            rv.push(unzigzag_exec(next as i64));
            cur = 0;
            k = 0;
            mult = 1;
        }
        i = i + 1;
    }
    if k != 0 {
        Err(Error::VlqLeftover)
    } else if rv.len() == 0 {
        Err(Error::VlqNoValues)
    } else {
        Ok(())
    }
}

fn unzigzag_exec(n: i64) -> (x: i64)
    requires
        n >= 0,
    ensures
        x == unzigzag(n as int),
        -0x4000_0000_0000_0000 <= x <= 0x4000_0000_0000_0000,
{
    if n % 2 == 1 {
        -(n / 2)
    } else {
        n / 2
    }
}

/// Whether every byte is ASCII.
pub open spec fn is_ascii_bytes(s: Seq<u8>) -> bool {
    forall|i: int| 0 <= i < s.len() ==> #[trigger] s[i] < 128
}

/// The digits of any number are ASCII.
pub proof fn lemma_vlq_digits_ascii(n: nat)
    ensures
        is_ascii_bytes(vlq_digits(n)),
    decreases n,
{
    if n >= 32 {
        lemma_vlq_digits_ascii(n / 32);
        let d = seq![b64_char(((n % 32) + 32) as int)];
        assert(vlq_digits(n) == d + vlq_digits(n / 32));
        assert forall|i: int| 0 <= i < vlq_digits(n).len() implies #[trigger] vlq_digits(n)[i]
            < 128 by {
            if i > 0 {
                assert(vlq_digits(n)[i] == vlq_digits(n / 32)[i - 1]);
            }
        }
    }
}

/// The VLQ text of any number is ASCII.
pub proof fn lemma_vlq_ascii(x: int)
    ensures
        is_ascii_bytes(vlq(x)),
{
    lemma_vlq_digits_ascii(zigzag(x));
}

proof fn lemma_b64_roundtrip(d: int)
    requires
        0 <= d < 64,
    ensures
        b64_value(b64_char(d)) == d,
{
}

proof fn lemma_vlq_len(n: nat)
    ensures
        vlq_digits(n).len() == vlq_len(n),
        vlq_len(n) >= 1,
    decreases n,
{
    if n >= 32 {
        lemma_vlq_len(n / 32);
    }
}

proof fn lemma_vlq_len_bound(n: nat, m: nat)
    requires
        m >= 1,
        n < pow32(m),
    ensures
        vlq_len(n) <= m,
    decreases m,
{
    if n >= 32 {
        assert(m >= 2) by {
            if m == 1 {
                assert(pow32(1) == 32) by {
                    reveal_with_fuel(pow32, 2);
                }
            }
        }
        let m1 = (m - 1) as nat;
        assert(n / 32 < pow32(m1)) by {
            assert(pow32(m) == 32 * pow32(m1));
            assert(n < 32 * pow32(m1));
            assert(n / 32 < pow32(m1)) by (nonlinear_arith)
                requires
                    n < 32 * pow32(m1),
                    n >= 0,
            ;
        }
        lemma_vlq_len_bound(n / 32, m1);
    }
}

proof fn lemma_unzigzag_zigzag(x: int)
    ensures
        unzigzag(zigzag(x) as int) == x,
{
}

/// Reading the digits of `n` placed at `i` in `s` finishes the number
/// begun with `cur` after `k` digits.
proof fn lemma_decode_digits(s: Seq<u8>, i: int, n: nat, cur: int, k: nat, acc: Seq<i64>)
    requires
        0 <= i,
        i + vlq_len(n) <= s.len(),
        s.subrange(i, i + vlq_len(n)) == vlq_digits(n),
        cur >= 0,
        k + vlq_len(n) <= 13,
        cur + n * pow32(k) <= i64::MAX,
    ensures
        decode_from(s, i, cur, k, acc) == decode_from(
            s,
            i + vlq_len(n),
            0,
            0,
            acc.push(unzigzag(cur + n * pow32(k)) as i64),
        ),
    decreases n,
{
    lemma_vlq_len(n);
    lemma_pow32_mono(0, k);
    assert(s[i] == vlq_digits(n)[0]);
    if n < 32 {
        lemma_b64_roundtrip(n as int);
    } else {
        let p = pow32(k);
        let d: int = (n % 32) as int;
        let q: nat = n / 32;
        lemma_b64_roundtrip(d + 32);
        assert(b64_value(s[i]) == d + 32);
        assert((d + 32) % 32 == d);
        assert(n * p == d * p + q * (32 * p) && 0 <= d * p <= n * p && q * (32 * p) >= 0)
            by (nonlinear_arith)
            requires
                d == n % 32,
                q == n / 32,
                p >= 1,
                n >= 0,
        ;
        lemma_vlq_len(q);
        assert(s.subrange(i + 1, i + 1 + vlq_len(q)) =~= vlq_digits(q)) by {
            assert(vlq_digits(n) == seq![b64_char(d + 32)] + vlq_digits(q));
            assert forall|j: int| 0 <= j < vlq_len(q) implies s.subrange(
                i + 1,
                i + 1 + vlq_len(q),
            )[j] == vlq_digits(q)[j] by {
                assert(s.subrange(i, i + vlq_len(n))[j + 1] == vlq_digits(n)[j + 1]);
            }
        }
        lemma_decode_digits(s, i + 1, q, cur + d * p, k + 1, acc);
    }
}

proof fn lemma_vlq_seq_prefix(xs: Seq<i64>, j: int)
    requires
        0 <= j <= xs.len(),
    ensures
        vlq_seq(xs.take(j)).len() <= vlq_seq(xs).len(),
        vlq_seq(xs).subrange(0, vlq_seq(xs.take(j)).len() as int) == vlq_seq(xs.take(j)),
    decreases xs.len(),
{
    if j == xs.len() {
        assert(xs.take(j) =~= xs);
    } else {
        assert(xs.take(j) =~= xs.drop_last().take(j));
        lemma_vlq_seq_prefix(xs.drop_last(), j);
        assert(vlq_seq(xs.take(j)) =~= vlq_seq(xs).subrange(
            0,
            vlq_seq(xs.take(j)).len() as int,
        ));
    }
}

/// Every number that fits in 63 bits once folded (`|x| < 2^62`) comes back
/// unchanged: decoding the encodings of a non-empty list of such numbers,
/// one after another, gives the list and no error.
pub proof fn lemma_vlq_roundtrip(xs: Seq<i64>)
    requires
        xs.len() > 0,
        forall|j: int| 0 <= j < xs.len() ==> -0x4000_0000_0000_0000 < #[trigger] xs[j] < 0x4000_0000_0000_0000,
    ensures
        decode_spec(vlq_seq(xs), Seq::empty()) == (xs, Option::<Error>::None),
{
    assert(pow32(13) == 0x2_0000_0000_0000_0000) by {
        reveal_with_fuel(pow32, 14);
    }
    assert(xs.take(0) =~= Seq::<i64>::empty());
    lemma_decode_from_prefix(xs, 0);
    assert(xs.take(xs.len() as int) =~= xs);
}

proof fn lemma_decode_from_prefix(xs: Seq<i64>, j: int)
    requires
        0 <= j <= xs.len(),
        xs.len() > 0,
        pow32(13) == 0x2_0000_0000_0000_0000,
        forall|t: int| 0 <= t < xs.len() ==> -0x4000_0000_0000_0000 < #[trigger] xs[t] < 0x4000_0000_0000_0000,
    ensures
        decode_from(vlq_seq(xs), vlq_seq(xs.take(j)).len() as int, 0, 0, xs.take(j)) == (
            xs,
            Option::<Error>::None,
        ),
    decreases xs.len() - j,
{
    let s = vlq_seq(xs);
    lemma_vlq_seq_prefix(xs, j);
    if j == xs.len() {
        assert(xs.take(j) =~= xs);
    } else {
        let x = xs[j];
        let z = zigzag(x as int);
        lemma_vlq_seq_prefix(xs, j + 1);
        assert(xs.take(j + 1).drop_last() =~= xs.take(j));
        let a = vlq_seq(xs.take(j)).len() as int;
        let b = vlq_seq(xs.take(j + 1)).len() as int;
        lemma_vlq_len(z);
        assert(b == a + vlq_len(z));
        assert(s.subrange(a, b) =~= vlq_digits(z)) by {
            assert forall|t: int| 0 <= t < vlq_len(z) implies s.subrange(a, b)[t] == vlq_digits(
                z,
            )[t] by {
                assert(s.subrange(0, b)[a + t] == vlq_seq(xs.take(j + 1))[a + t]);
            }
        }
        lemma_vlq_len_bound(z, 13);
        assert(pow32(0) == 1);
        lemma_decode_digits(s, a, z, 0, 0, xs.take(j));
        lemma_unzigzag_zigzag(x as int);
        assert(xs.take(j).push(x) =~= xs.take(j + 1));
        lemma_decode_from_prefix(xs, j + 1);
    }
}

} // verus!

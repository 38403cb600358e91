//! ASCII decimal numerals: what a run of digit bytes denotes, and the shortest
//! numeral of a number.

use crate::ascii::MINUS;
use vstd::prelude::*;

verus! {

/// The byte is one of the ASCII digits `0` to `9`.
pub open spec fn is_digit(b: u8) -> bool {
    0x30 <= b <= 0x39
}

/// Every byte of `s` is an ASCII digit.
pub open spec fn all_digits(s: Seq<u8>) -> bool {
    forall|i: int| 0 <= i < s.len() ==> is_digit(#[trigger] s[i])
}

/// The number that the digit bytes `s` denote, most significant digit first.
/// Leading zeros do not change it, and the empty run denotes zero.
pub open spec fn digits_value(s: Seq<u8>) -> nat
    decreases s.len(),
{
    if s.len() == 0 {
        0
    } else {
        (digits_value(s.drop_last()) * 10 + (s.last() - 0x30)) as nat
    }
}

/// The shortest decimal numeral of `n`: no leading zero, except for zero itself.
pub open spec fn nat_digits(n: nat) -> Seq<u8>
    decreases n,
{
    if n < 10 {
        seq![(0x30 + n) as u8]
    } else {
        nat_digits(n / 10).push((0x30 + n % 10) as u8)
    }
}

/// The decimal numeral of a signed number: a single `-` before the numeral of
/// the magnitude when `n` is negative.
pub open spec fn int_digits(n: int) -> Seq<u8> {
    if n < 0 {
        seq![MINUS] + nat_digits((-n) as nat)
    } else {
        nat_digits(n as nat)
    }
}

/// The first position at or after `pos` that holds no digit; the length of `s`
/// when digits run to the end.
pub open spec fn digits_end(s: Seq<u8>, pos: int) -> int
    decreases s.len() - pos,
{
    if 0 <= pos < s.len() && is_digit(s[pos]) {
        digits_end(s, pos + 1)
    } else {
        pos
    }
}

/// A numeral is made of digits, is not empty, and denotes the number it was
/// made from.
pub proof fn lemma_nat_digits(n: nat)
    ensures
        all_digits(nat_digits(n)),
        nat_digits(n).len() >= 1,
        digits_value(nat_digits(n)) == n,
        n > 0 ==> nat_digits(n)[0] != 0x30,
        n == 0 ==> nat_digits(n) == seq![0x30u8],
    decreases n,
{
    if n < 10 {
        let s = nat_digits(n);
        assert(s.drop_last() =~= Seq::<u8>::empty());
        assert(digits_value(s.drop_last()) == 0);
    } else {
        lemma_nat_digits(n / 10);
        let p = nat_digits(n / 10);
        let s = nat_digits(n);
        assert(s.drop_last() =~= p);
        assert(s[0] == p[0]);
    }
}

/// Dropping digits from the end of a run never raises what it denotes.
pub proof fn lemma_digits_value_prefix(s: Seq<u8>, k: int)
    requires
        0 <= k <= s.len(),
        all_digits(s),
    ensures
        digits_value(s.take(k)) <= digits_value(s),
    decreases s.len() - k,
{
    if k == s.len() {
        assert(s.take(k) =~= s);
    } else {
        lemma_digits_value_prefix(s.drop_last(), k);
        assert(s.drop_last().take(k) =~= s.take(k));
        assert(is_digit(s.last()));
    }
}

/// The digits between `pos` and `digits_end` are digits, and the run stops
/// inside the input or at its end.
pub proof fn lemma_digits_end(s: Seq<u8>, pos: int)
    requires
        0 <= pos <= s.len(),
    ensures
        pos <= digits_end(s, pos) <= s.len(),
        all_digits(s.subrange(pos, digits_end(s, pos))),
        digits_end(s, pos) < s.len() ==> !is_digit(s[digits_end(s, pos)]),
    decreases s.len() - pos,
{
    if pos < s.len() && is_digit(s[pos]) {
        lemma_digits_end(s, pos + 1);
        let e = digits_end(s, pos);
        assert forall|i: int| 0 <= i < e - pos implies is_digit(
            #[trigger] s.subrange(pos, e)[i],
        ) by {
            if i > 0 {
                assert(s.subrange(pos, e)[i] == s.subrange(pos + 1, e)[i - 1]);
            }
        }
    }
}

/// A run of digits that is followed by a byte that is no digit, or by the end
/// of the input, ends exactly there.
pub proof fn lemma_digits_end_is(s: Seq<u8>, pos: int, end: int)
    requires
        0 <= pos <= end <= s.len(),
        forall|i: int| pos <= i < end ==> is_digit(#[trigger] s[i]),
        end < s.len() ==> !is_digit(s[end]),
    ensures
        digits_end(s, pos) == end,
    decreases end - pos,
{
    if pos < end {
        lemma_digits_end_is(s, pos + 1, end);
    }
}

/// Finds where the run of digits that starts at `pos` ends. From a position
/// past the end of the input the run is empty.
pub fn scan_digits(bytes: &[u8], pos: usize) -> (end: usize)
    ensures
        end == digits_end(bytes@, pos as int),
        pos <= end,
        pos <= bytes.len() ==> end <= bytes.len(),
{
    if pos > bytes.len() {
        return pos;
    }
    let mut i: usize = pos;
    while i < bytes.len() && bytes[i] >= 0x30 && bytes[i] <= 0x39
        invariant
            pos <= i <= bytes.len(),
            digits_end(bytes@, pos as int) == digits_end(bytes@, i as int),
        decreases bytes.len() - i,
    {
        i = i + 1;
    }
    i
}

/// Reads the digits of `bytes` from `start` up to `end` as a number, or reports
/// that the number does not fit in 64 bits.
pub(crate) fn digits_to_u64(bytes: &[u8], start: usize, end: usize) -> (r: Option<u64>)
    requires
        start <= end <= bytes.len(),
        all_digits(bytes@.subrange(start as int, end as int)),
    ensures
        match r {
            Some(n) => n == digits_value(bytes@.subrange(start as int, end as int)),
            None => digits_value(bytes@.subrange(start as int, end as int)) > u64::MAX,
        },
{
    let ghost run = bytes@.subrange(start as int, end as int);
    let mut acc: u64 = 0;
    let mut i: usize = start;
    assert(run.take(0) =~= Seq::<u8>::empty());
    while i < end
        invariant
            start <= i <= end <= bytes.len(),
            run == bytes@.subrange(start as int, end as int),
            all_digits(run),
            acc == digits_value(run.take(i - start)),
        decreases end - i,
    {
        proof {
            let next = run.take(i - start + 1);
            assert(next.drop_last() =~= run.take(i - start));
            assert(next.last() == bytes@[i as int]);
            assert(is_digit(run[i - start]));
            lemma_digits_value_prefix(run, i - start + 1);
        }
        let d: u64 = (bytes[i] - 0x30) as u64;
        if acc > (u64::MAX - d) / 10 {
            return None;
        }
        acc = acc * 10 + d;
        i = i + 1;
    }
    assert(run.take(end - start) =~= run);
    Some(acc)
}

/// Appends the shortest decimal numeral of `n` to `out`.
pub fn push_decimal(out: &mut Vec<u8>, n: u64)
    ensures
        final(out)@ == old(out)@ + nat_digits(n as nat),
    decreases n,
{
    if n >= 10 {
        push_decimal(out, n / 10);
    }
    let d: u8 = (n % 10) as u8;
    out.push(0x30 + d);
    proof {
        if n >= 10 {
            assert(final(out)@ =~= old(out)@ + nat_digits(n as nat));
        } else {
            assert(final(out)@ =~= old(out)@ + nat_digits(n as nat));
        }
    }
}

/// Appends the decimal numeral of the signed number `n` to `out`.
pub fn push_signed_decimal(out: &mut Vec<u8>, n: i64)
    ensures
        final(out)@ == old(out)@ + int_digits(n as int),
{
    if n < 0 {
        out.push(MINUS);
        let magnitude: u64 = if n == i64::MIN {
            0x8000_0000_0000_0000u64
        } else {
            (-n) as u64
        };
        push_decimal(out, magnitude);
        assert(final(out)@ =~= old(out)@ + int_digits(n as int));
    } else {
        push_decimal(out, n as u64);
    }
}

} // verus!

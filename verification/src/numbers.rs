//! Decimal rendering and reading of unsigned integers, as bytes.

use vstd::prelude::*;
use vstd::arithmetic::div_mod::lemma_fundamental_div_mod;

verus! {

/// An ASCII decimal digit.
pub open spec fn is_digit(b: u8) -> bool {
    48 <= b && b <= 57
}

/// The numeric value of a digit byte.
pub open spec fn digit_val(b: u8) -> nat {
    if 48 <= b {
        (b - 48) as nat
    } else {
        0
    }
}

/// The decimal representation of `n`, most significant digit first,
/// without leading zeros (`0` is rendered as a single digit).
pub open spec fn dec_rep(n: nat) -> Seq<u8>
    decreases n,
{
    if n < 10 {
        seq![(48 + n) as u8]
    } else {
        dec_rep(n / 10).push((48 + n % 10) as u8)
    }
}

/// The value of a sequence of decimal digit bytes.
pub open spec fn dec_val(s: Seq<u8>) -> nat
    decreases s.len(),
{
    if s.len() == 0 {
        0
    } else {
        dec_val(s.drop_last()) * 10 + digit_val(s.last())
    }
}

/// Ten to the `k`.
pub open spec fn pow10(k: nat) -> nat
    decreases k,
{
    if k == 0 {
        1
    } else {
        10 * pow10((k - 1) as nat)
    }
}

pub proof fn lemma_dec_rep_digits(n: nat)
    ensures
        dec_rep(n).len() >= 1,
        forall|i: int| 0 <= i < dec_rep(n).len() ==> is_digit(#[trigger] dec_rep(n)[i]),
    decreases n,
{
    if n >= 10 {
        lemma_dec_rep_digits(n / 10);
        assert forall|i: int| 0 <= i < dec_rep(n).len() implies is_digit(#[trigger] dec_rep(n)[i]) by {
            if i < dec_rep(n).len() - 1 {
                assert(dec_rep(n)[i] == dec_rep(n / 10)[i]);
            }
        }
    }
}

/// Reading back the decimal representation yields the value.
pub proof fn lemma_dec_roundtrip(n: nat)
    ensures
        dec_val(dec_rep(n)) == n,
    decreases n,
{
    if n < 10 {
        assert(dec_rep(n).drop_last() =~= Seq::<u8>::empty());
        assert(dec_val(Seq::<u8>::empty()) == 0);
        assert(dec_rep(n).last() == (48 + n) as u8);
        assert(digit_val((48 + n) as u8) == n);
        assert(dec_val(dec_rep(n)) == n);
    } else {
        lemma_dec_roundtrip(n / 10);
        assert(dec_rep(n).drop_last() =~= dec_rep(n / 10));
        assert(n % 10 < 10);
        assert(dec_rep(n).last() == (48 + n % 10) as u8);
        assert(digit_val((48 + n % 10) as u8) == n % 10);
        lemma_fundamental_div_mod(n as int, 10);
        assert(dec_val(dec_rep(n)) == dec_val(dec_rep(n / 10)) * 10 + (n % 10));
        assert(dec_val(dec_rep(n)) == n);
    }
}

/// A value below `pow10(k)` takes at most `k` digits.
pub proof fn lemma_dec_rep_len(n: nat, k: nat)
    requires
        k >= 1,
        n < pow10(k),
    ensures
        dec_rep(n).len() <= k,
    decreases n,
{
    if n >= 10 {
        assert(k >= 2) by {
            if k == 1 {
                assert(pow10(1) == 10);
            }
        }
        assert(n / 10 < pow10((k - 1) as nat)) by {
            lemma_fundamental_div_mod(n as int, 10);
            assert(pow10(k) == 10 * pow10((k - 1) as nat));
        }
        lemma_dec_rep_len(n / 10, (k - 1) as nat);
    }
}

pub proof fn lemma_pow10_increases(a: nat, b: nat)
    requires
        a <= b,
    ensures
        pow10(a) <= pow10(b),
    decreases b,
{
    if a < b && b > 0 {
        lemma_pow10_increases(a, (b - 1) as nat);
    }
}

/// Appends the decimal representation of `n`.
pub fn push_dec(out: &mut Vec<u8>, n: usize)
    ensures
        final(out)@ == old(out)@ + dec_rep(n as nat),
    decreases n,
{
    if n < 10 {
        out.push((48 + n) as u8);
        assert(out@ =~= old(out)@ + dec_rep(n as nat));
    } else {
        push_dec(out, n / 10);
        out.push((48 + n % 10) as u8);
        assert(out@ =~= old(out)@ + dec_rep(n as nat));
    }
}

/// First position at or after `pos` that does not hold a decimal digit.
pub open spec fn scan_digits(s: Seq<u8>, pos: int) -> int
    decreases s.len() - pos,
{
    if pos < 0 || pos >= s.len() {
        pos
    } else if is_digit(s[pos]) {
        scan_digits(s, pos + 1)
    } else {
        pos
    }
}

pub proof fn lemma_scan_digits(s: Seq<u8>, pos: int)
    requires
        0 <= pos <= s.len(),
    ensures
        pos <= scan_digits(s, pos) <= s.len(),
        forall|i: int| pos <= i < scan_digits(s, pos) ==> is_digit(#[trigger] s[i]),
        scan_digits(s, pos) == s.len() || !is_digit(s[scan_digits(s, pos)]),
    decreases s.len() - pos,
{
    if pos < s.len() && is_digit(s[pos]) {
        lemma_scan_digits(s, pos + 1);
    }
}

/// Reading a number at `pos`: the value of the digit run starting there and
/// the position after it.  Fails when no digit stands at `pos`, when the run
/// is longer than 20 digits, or when the value does not fit in `usize`.
pub open spec fn num_at(s: Seq<u8>, pos: int) -> Option<(usize, int)> {
    let end = scan_digits(s, pos);
    if end == pos || end - pos > 20 {
        None
    } else if dec_val(s.subrange(pos, end)) > usize::MAX {
        None
    } else {
        Some((dec_val(s.subrange(pos, end)) as usize, end))
    }
}

/// Reads a decimal number from `s` at `pos`.
pub fn parse_num(s: &Vec<u8>, pos: usize) -> (r: Option<(usize, usize)>)
    requires
        pos <= s@.len(),
    ensures
        match r {
            Some((v, end)) => num_at(s@, pos as int) == Some((v, end as int)) && pos < end
                <= s@.len(),
            None => num_at(s@, pos as int) is None,
        },
{
    proof {
        lemma_scan_digits(s@, pos as int);
        reveal_with_fuel(pow10, 21);
        assert(pow10(20) == 100000000000000000000);
    }
    let ghost end = scan_digits(s@, pos as int);
    let mut i: usize = pos;
    let mut acc: u128 = 0;
    while i < s.len() && 48 <= s[i] && s[i] <= 57
        invariant
            pos <= i <= end <= s@.len(),
            i - pos <= 20,
            acc == dec_val(s@.subrange(pos as int, i as int)),
            acc < pow10((i - pos) as nat),
            forall|j: int| pos <= j < end ==> is_digit(#[trigger] s@[j]),
            end == scan_digits(s@, pos as int),
            end == s@.len() || !is_digit(s@[end]),
            pow10(20) == 100000000000000000000,
        decreases s@.len() - i,
    {
        proof {
            assert(i < end) by {
                if i >= end {
                    assert(is_digit(s@[end]));
                }
            }
            assert(dec_val(s@.subrange(pos as int, i + 1)) == acc * 10 + digit_val(s@[i as int]))
                by {
                let t = s@.subrange(pos as int, i + 1);
                assert(t.drop_last() =~= s@.subrange(pos as int, i as int));
                assert(t.last() == s@[i as int]);
            }
        }
        if i - pos >= 20 {
            proof {
                assert(end - pos > 20);
            }
            return None;
        }
        proof {
            assert(acc * 10 + 10 <= pow10((i - pos) as nat) * 10) by (nonlinear_arith)
                requires
                    acc + 1 <= pow10((i - pos) as nat),
            ;
            assert(pow10((i + 1 - pos) as nat) == 10 * pow10((i - pos) as nat));
            assert(pow10((i + 1 - pos) as nat) <= pow10(20)) by {
                lemma_pow10_increases((i + 1 - pos) as nat, 20);
            }
        }
        acc = acc * 10 + (s[i] - 48) as u128;
        i = i + 1;
    }
    proof {
        assert(i == end) by {
            if i < end {
                assert(is_digit(s@[i as int]));
            }
        }
        assert(s@.subrange(pos as int, end) == s@.subrange(pos as int, i as int));
    }
    if i == pos {
        return None;
    }
    if acc > usize::MAX as u128 {
        return None;
    }
    Some((acc as usize, i))
}

} // verus!

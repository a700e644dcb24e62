//! Unsigned decimal numerals as ASCII digits.

use vstd::prelude::*;
use vstd::slice::slice_subrange;

verus! {

/// True when `b` is an ASCII digit.
pub open spec fn is_digit(b: u8) -> bool {
    48 <= b <= 57
}

/// True when `s` is a non-empty run of ASCII digits.
pub open spec fn is_numeral(s: Seq<u8>) -> bool {
    s.len() > 0 && forall|i: int| 0 <= i < s.len() ==> is_digit(#[trigger] s[i])
}

/// The number that a run of digits denotes, most significant digit first.
pub open spec fn numeral_value(s: Seq<u8>) -> nat
    decreases s.len(),
{
    if s.len() == 0 {
        0
    } else {
        numeral_value(s.drop_last()) * 10 + (s.last() - 48) as nat
    }
}

/// The shortest numeral of `n`: no leading zero, `0` for zero.
pub open spec fn numeral_of(n: nat) -> Seq<u8>
    decreases n,
{
    if n < 10 {
        seq![(n + 48) as u8]
    } else {
        numeral_of(n / 10).push((n % 10 + 48) as u8)
    }
}

/// The numeral of a number is a numeral, and it denotes that number.
pub proof fn lemma_numeral_of(n: nat)
    ensures
        is_numeral(numeral_of(n)),
        numeral_value(numeral_of(n)) == n,
    decreases n,
{
    if n >= 10 {
        lemma_numeral_of(n / 10);
        let s = numeral_of(n);
        assert(s.drop_last() =~= numeral_of(n / 10));
        assert(numeral_value(s) == numeral_value(numeral_of(n / 10)) * 10 + n % 10);
    } else {
        assert(numeral_of(n).drop_last() =~= Seq::<u8>::empty());
        assert(numeral_value(Seq::<u8>::empty()) == 0);
    }
}

/// Appends the shortest numeral of `n` to `out`.
pub fn push_numeral(n: u64, out: &mut Vec<u8>)
    ensures
        final(out)@ == old(out)@ + numeral_of(n as nat),
    decreases n,
{
    if n >= 10 {
        push_numeral(n / 10, out);
    }
    out.push((n % 10) as u8 + 48);
    proof {
        if n >= 10 {
            assert(numeral_of(n as nat) == numeral_of((n / 10) as nat).push((n % 10 + 48) as u8));
        }
    }
    assert(final(out)@ =~= old(out)@ + numeral_of(n as nat));
}

/// The value of `s` as a `u64`: `None` when `s` is not a numeral or its value
/// does not fit in 64 bits.
pub open spec fn numeral_u64(s: Seq<u8>) -> Option<u64> {
    if is_numeral(s) && numeral_value(s) <= u64::MAX {
        Some(numeral_value(s) as u64)
    } else {
        None
    }
}

proof fn lemma_numeral_value_prefix(s: Seq<u8>, i: int)
    requires
        0 <= i < s.len(),
    ensures
        s.subrange(0, i + 1).drop_last() =~= s.subrange(0, i),
{
}

proof fn lemma_numeral_value_monotone(s: Seq<u8>, i: int)
    requires
        0 <= i <= s.len(),
        forall|j: int| 0 <= j < s.len() ==> is_digit(#[trigger] s[j]),
    ensures
        numeral_value(s.subrange(0, i)) <= numeral_value(s),
    decreases s.len() - i,
{
    if i < s.len() {
        lemma_numeral_value_monotone(s, i + 1);
        lemma_numeral_value_prefix(s, i);
        assert(s.subrange(0, i + 1).last() == s[i]);
    } else {
        assert(s.subrange(0, i) =~= s);
    }
}

/// Reads `s` as an unsigned decimal that fits in 64 bits.
pub fn parse_numeral(s: &[u8]) -> (r: Option<u64>)
    ensures
        r == numeral_u64(s@),
{
    if s.len() == 0 {
        return None;
    }
    let mut acc: u64 = 0;
    let mut i: usize = 0;
    while i < s.len()
        invariant
            0 <= i <= s@.len(),
            forall|j: int| 0 <= j < i ==> is_digit(#[trigger] s@[j]),
            acc as nat == numeral_value(s@.subrange(0, i as int)),
        decreases s.len() - i,
    {
        let b = s[i];
        if b < 48 || b > 57 {
            assert(!is_digit(s@[i as int]));
            return None;
        }
        proof {
            lemma_numeral_value_prefix(s@, i as int);
        }
        let d = (b - 48) as u64;
        if acc > (u64::MAX - d) / 10 {
            proof {
                assert(acc * 10 + d > u64::MAX) by (nonlinear_arith)
                    requires acc > (u64::MAX - d) / 10, d <= 9;
                if forall|j: int| 0 <= j < s@.len() ==> is_digit(#[trigger] s@[j]) {
                    lemma_numeral_value_monotone(s@, i as int + 1);
                }
            }
            return None;
        }
        proof {
            assert(acc * 10 + d <= u64::MAX) by (nonlinear_arith)
                requires acc <= (u64::MAX - d) / 10, d <= 9;
        }
        acc = acc * 10 + d;
        i = i + 1;
    }
    assert(s@.subrange(0, i as int) =~= s@);
    Some(acc)
}

/// The value of `s` read as an unsigned 64-bit number that may carry one
/// leading `+`: `None` when the rest is not a numeral or does not fit.
pub open spec fn unsigned_u64(s: Seq<u8>) -> Option<u64> {
    if s.len() > 0 && s[0] == 43 {
        numeral_u64(s.drop_first())
    } else {
        numeral_u64(s)
    }
}

/// Reads `s` as an unsigned 64-bit number, with one optional leading `+`.
pub fn parse_unsigned(s: &[u8]) -> (r: Option<u64>)
    ensures
        r == unsigned_u64(s@),
{
    if s.len() > 0 && s[0] == 43 {
        let rest = slice_subrange(s, 1, s.len());
        assert(rest@ =~= s@.drop_first());
        parse_numeral(rest)
    } else {
        parse_numeral(s)
    }
}

} // verus!

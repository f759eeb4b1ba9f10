//! The transform length: the smallest power of two that holds every
//! coefficient of a linear convolution, and zero-padding up to it.

use crate::digits::coefficients;
use vstd::arithmetic::power::pow;
use vstd::arithmetic::power2::{
    is_pow2, is_pow2_equiv, is_pow2_exists, lemma2_to64, lemma_pow2_strictly_increases,
    lemma_pow2_unfold, pow2,
};
use vstd::prelude::*;

verus! {

/// Largest count of coefficients for which a power-of-two transform length
/// still fits in a `u32`.
pub const MAX_COEFFICIENTS: u32 = 0x8000_0000;

/// `n` is the transform length for `m` coefficients: the smallest power of two
/// that is at least `m` (and at least 1).
pub open spec fn is_transform_length(n: int, m: int) -> bool {
    &&& is_pow2(n)
    &&& m <= n
    &&& (n == 1 || n < 2 * m)
}

/// Smallest power of two that is at least `length`; 1 for a `length` of 0.
pub fn calculate_length_power_of_2(length: u32) -> (n: u32)
    requires
        length <= MAX_COEFFICIENTS,
    ensures
        is_transform_length(n as int, length as int),
{
    let mut n: u32 = 1;
    let ghost mut exponent: nat = 0;
    proof {
        lemma2_to64();
    }
    while n < length
        invariant
            length <= MAX_COEFFICIENTS,
            exponent <= 31,
            n == pow2(exponent),
            n == 1 || n < 2 * length,
        decreases 31 - exponent,
    {
        proof {
            lemma2_to64();
            if exponent >= 31 {
                lemma_pow2_strictly_increases(31, (exponent + 1) as nat);
            }
            lemma_pow2_unfold(exponent + 1);
        }
        n = 2 * n;
        proof {
            exponent = exponent + 1;
        }
    }
    proof {
        lemma_pow2_is_pow2(exponent);
    }
    n
}

/// `coeffs` followed by as many zero coefficients as it takes to reach
/// `length`; `coeffs` itself where it is that long already.
pub open spec fn zero_extend(coeffs: Seq<int>, length: nat) -> Seq<int> {
    if coeffs.len() >= length {
        coeffs
    } else {
        coeffs + Seq::new((length - coeffs.len()) as nat, |i: int| 0int)
    }
}

/// Pads `value` with zero coefficients up to `length`. A vector that is
/// already that long, or longer, is left as it is.
pub fn supplement(value: &mut Vec<i64>, length: u32)
    ensures
        final(value)@ == old(value)@ + Seq::new(
            if length > old(value)@.len() {
                (length - old(value)@.len()) as nat
            } else {
                0
            },
            |i: int| 0i64,
        ),
        coefficients(final(value)@) == zero_extend(coefficients(old(value)@), length as nat),
{
    let target = length as usize;
    proof {
        assert(value@ =~= old(value)@ + Seq::new(0, |i: int| 0i64));
    }
    while value.len() < target
        invariant
            target == length,
            old(value)@.len() <= value@.len(),
            value@.len() <= target || value@.len() == old(value)@.len(),
            value@ == old(value)@ + Seq::new(
                (value@.len() - old(value)@.len()) as nat,
                |i: int| 0i64,
            ),
            coefficients(value@) == zero_extend(coefficients(old(value)@), value@.len()),
        decreases target - value@.len(),
    {
        proof {
            let before = coefficients(value@);
            let after = coefficients(value@.push(0i64));
            let extended = zero_extend(coefficients(old(value)@), value@.len() + 1);
            assert(after.len() == extended.len());
            assert forall|i: int| 0 <= i < after.len() implies after[i] == extended[i] by {
                if i < value@.len() {
                    assert(after[i] == before[i]);
                }
            }
            assert(after =~= extended);
            assert(value@.push(0i64) =~= old(value)@ + Seq::new(
                (value@.len() + 1 - old(value)@.len()) as nat,
                |i: int| 0i64,
            ));
        }
        value.push(0);
    }
    proof {
        assert(coefficients(value@) =~= zero_extend(coefficients(old(value)@), length as nat));
    }
}

/// Every `pow2(e)` satisfies `is_pow2`.
proof fn lemma_pow2_is_pow2(e: nat)
    ensures
        is_pow2(pow2(e) as int),
{
    vstd::arithmetic::power::lemma_pow_positive(2, e);
    assert(pow(2, e) == pow2(e) as int);
    assert(is_pow2_exists(pow2(e) as int));
    is_pow2_equiv(pow2(e) as int);
}

/// Between a power of two and the next there is none.
proof fn lemma_pow2_gap(smaller: int, larger: int)
    requires
        is_pow2(smaller),
        is_pow2(larger),
        smaller < larger,
    ensures
        2 * smaller <= larger,
    decreases larger,
{
    reveal(is_pow2);
    if smaller < larger / 2 {
        lemma_pow2_gap(smaller, larger / 2);
    } else if smaller > larger / 2 {
        lemma_pow2_gap(smaller / 2, larger / 2);
    }
}

/// The transform length for a number of coefficients is unique.
pub proof fn lemma_transform_length_unique(n1: int, n2: int, m: int)
    requires
        is_transform_length(n1, m),
        is_transform_length(n2, m),
    ensures
        n1 == n2,
{
    reveal(is_pow2);
    if n1 < n2 {
        lemma_pow2_gap(n1, n2);
    } else if n2 < n1 {
        lemma_pow2_gap(n2, n1);
    }
}

} // verus!

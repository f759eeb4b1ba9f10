//! Resolving a coefficient sequence into a number: carry propagation across
//! a base, normalization of the digits, and folding them into an
//! arbitrary-precision integer.

use crate::bignum::{biguint_add, biguint_from_u64, biguint_mul, biguint_value, biguint_zero};
use crate::digits::{
    base_digits, coefficients, evaluate, is_normalized, lemma_evaluate_base_digits,
    lemma_evaluate_push, lemma_normalized_is_base_digits,
};
use num_bigint::BigUint;
use vstd::arithmetic::power::pow;
use vstd::prelude::*;

verus! {

/// A negative intermediate value counts as zero.
pub open spec fn clamp_nonnegative(v: int) -> nat {
    if v < 0 {
        0
    } else {
        v as nat
    }
}

/// The number that carry propagation makes of `coeffs`, least significant
/// first, when `carry` comes in from below: each coefficient takes the carry,
/// is clamped at zero, leaves its remainder by `base` in place and hands its
/// quotient on; what is carried out of the last coefficient stands above it.
pub open spec fn resolved_value(coeffs: Seq<int>, base: nat, carry: nat) -> nat
    decreases coeffs.len(),
{
    if coeffs.len() == 0 {
        carry
    } else {
        let v = clamp_nonnegative(coeffs[0] + carry);
        v % base + base * resolved_value(coeffs.drop_first(), base, v / base)
    }
}

/// A digit vector read as mathematical integers.
pub open spec fn digit_values(digits: Seq<u64>) -> Seq<int> {
    digits.map_values(|d: u64| d as int)
}

/// Where no coefficient is negative nothing is clamped, and carry
/// propagation keeps the value of the sequence at the base.
pub proof fn lemma_resolved_value_of_nonnegative(coeffs: Seq<int>, base: nat, carry: nat)
    requires
        base >= 1,
        forall|i: int| 0 <= i < coeffs.len() ==> #[trigger] coeffs[i] >= 0,
    ensures
        resolved_value(coeffs, base, carry) == evaluate(coeffs, base as int) + carry,
    decreases coeffs.len(),
{
    if coeffs.len() > 0 {
        let v = clamp_nonnegative(coeffs[0] + carry);
        let rest = coeffs.drop_first();
        assert forall|i: int| 0 <= i < rest.len() implies #[trigger] rest[i] >= 0 by {
            assert(rest[i] == coeffs[i + 1]);
        }
        lemma_resolved_value_of_nonnegative(rest, base, v / base);
        assert(v % base + base * (evaluate(rest, base as int) + v / base) == v + base * evaluate(
            rest,
            base as int,
        )) by (nonlinear_arith)
            requires
                base >= 1,
        ;
    }
}

/// One step of carry propagation, seen from the digits already emitted.
proof fn lemma_resolve_step(
    coeffs: Seq<int>,
    base: nat,
    position: int,
    carry: nat,
    emitted: Seq<int>,
    total: int,
)
    requires
        base >= 1,
        0 <= position < coeffs.len(),
        emitted.len() == position,
        total == evaluate(emitted, base as int) + pow(base as int, position as nat)
            * resolved_value(coeffs.skip(position), base, carry),
    ensures
        ({
            let v = clamp_nonnegative(coeffs[position] + carry);
            total == evaluate(emitted.push((v % base) as int), base as int) + pow(
                base as int,
                (position + 1) as nat,
            ) * resolved_value(coeffs.skip(position + 1), base, v / base)
        }),
{
    let v = clamp_nonnegative(coeffs[position] + carry);
    let digit = (v % base) as int;
    let weight = pow(base as int, position as nat);
    let above = resolved_value(coeffs.skip(position + 1), base, v / base);
    assert(coeffs.skip(position).drop_first() =~= coeffs.skip(position + 1));
    assert(coeffs.skip(position)[0] == coeffs[position]);
    assert(resolved_value(coeffs.skip(position), base, carry) == digit + base * above);
    lemma_evaluate_push(emitted, digit, base as int);
    assert(pow(base as int, (position + 1) as nat) == base * weight) by {
        reveal(pow);
    }
    assert(weight * (digit + base * above) == digit * weight + (base * weight) * above)
        by (nonlinear_arith);
}

/// Carry propagation over `coeffs` in `base`: the normalized digits, least
/// significant first, of the number that the coefficients resolve to. Each
/// coefficient is taken with the carry from below and clamped at zero.
pub fn propagate_carries(coeffs: &Vec<i64>, base: u64) -> (digits: Vec<u64>)
    requires
        base >= 2,
    ensures
        coeffs@.len() == 0 ==> digits@.len() == 0,
        coeffs@.len() > 0 ==> is_normalized(digit_values(digits@), base as nat),
        coeffs@.len() > 0 ==> digit_values(digits@) == base_digits(
            resolved_value(coefficients(coeffs@), base as nat, 0),
            base as nat,
        ),
{
    let ghost cs = coefficients(coeffs@);
    let ghost total = resolved_value(cs, base as nat, 0) as int;
    let mut carry: u64 = 0;
    let mut digits: Vec<u64> = Vec::with_capacity(coeffs.len());
    proof {
        reveal(pow);
        assert(cs.skip(0) =~= cs);
        assert(evaluate(digit_values(digits@), base as int) == 0);
    }
    for position in 0..coeffs.len()
        invariant
            base >= 2,
            cs == coefficients(coeffs@),
            digits@.len() == position,
            carry <= 0x7fff_ffff_ffff_ffff,
            position == 0 ==> carry == 0,
            forall|i: int| 0 <= i < digits@.len() ==> #[trigger] digits@[i] < base,
            total == evaluate(digit_values(digits@), base as int) + pow(
                base as int,
                position as nat,
            ) * resolved_value(cs.skip(position as int), base as nat, carry as nat),
    {
        let v: i128 = coeffs[position] as i128 + carry as i128;
        let u: u64 = if v < 0 {
            0
        } else {
            v as u64
        };
        proof {
            assert(u as nat == clamp_nonnegative(cs[position as int] + carry));
            lemma_resolve_step(
                cs,
                base as nat,
                position as int,
                carry as nat,
                digit_values(digits@),
                total,
            );
            assert(digit_values(digits@.push(u % base)) =~= digit_values(digits@).push(
                (u % base) as int,
            ));
            assert(u / base <= 0x7fff_ffff_ffff_ffff) by (nonlinear_arith)
                requires
                    base >= 2,
                    u <= 0xffff_ffff_ffff_ffff,
            ;
        }
        digits.push(u % base);
        carry = u / base;
    }
    proof {
        assert(cs.skip(coeffs@.len() as int) =~= Seq::<int>::empty());
    }
    while carry > 0
        invariant
            base >= 2,
            digits@.len() >= coeffs@.len(),
            coeffs@.len() == 0 ==> digits@.len() == 0 && carry == 0,
            forall|i: int| 0 <= i < digits@.len() ==> #[trigger] digits@[i] < base,
            total == evaluate(digit_values(digits@), base as int) + pow(
                base as int,
                digits@.len(),
            ) * carry,
        decreases carry,
    {
        proof {
            let emitted = digit_values(digits@);
            let weight = pow(base as int, digits@.len());
            let digit = (carry % base) as int;
            let above = (carry / base) as int;
            lemma_evaluate_push(emitted, digit, base as int);
            assert(digit_values(digits@.push(carry % base)) =~= emitted.push(digit));
            assert(pow(base as int, digits@.len() + 1) == base * weight) by {
                reveal(pow);
            }
            assert(weight * carry == digit * weight + (base * weight) * above
                && above < carry) by (nonlinear_arith)
                requires
                    base >= 2,
                    carry > 0,
                    digit == carry % base,
                    above == carry / base,
            ;
        }
        digits.push(carry % base);
        carry = carry / base;
    }
    while digits.len() > 1 && digits[digits.len() - 1] == 0
        invariant
            coeffs@.len() == 0 ==> digits@.len() == 0,
            coeffs@.len() > 0 ==> digits@.len() >= 1,
            forall|i: int| 0 <= i < digits@.len() ==> #[trigger] digits@[i] < base,
            total == evaluate(digit_values(digits@), base as int),
        decreases digits@.len(),
    {
        proof {
            let shorter = digit_values(digits@).drop_last();
            lemma_evaluate_push(shorter, 0, base as int);
            assert(digit_values(digits@) =~= shorter.push(0));
            assert(digit_values(digits@.subrange(0, digits@.len() - 1)) =~= shorter);
        }
        digits.pop();
    }
    proof {
        if coeffs@.len() > 0 {
            let normal = digit_values(digits@);
            assert(is_normalized(normal, base as nat));
            lemma_normalized_is_base_digits(normal, base as nat);
        }
    }
    digits
}

/// The number whose digits in `base`, least significant first, are `digits`:
/// folded from the most significant digit down as `accumulator * base + digit`.
pub fn fold_digits(digits: &Vec<u64>, base: u64) -> (number: BigUint)
    ensures
        biguint_value(number) == evaluate(digit_values(digits@), base as int),
{
    let mut number = biguint_zero();
    let big_base = biguint_from_u64(base);
    let mut position = digits.len();
    proof {
        assert(digit_values(digits@).skip(position as int) =~= Seq::<int>::empty());
    }
    while position > 0
        invariant
            position <= digits@.len(),
            biguint_value(big_base) == base,
            biguint_value(number) == evaluate(
                digit_values(digits@).skip(position as int),
                base as int,
            ),
        decreases position,
    {
        position = position - 1;
        proof {
            let tail = digit_values(digits@).skip(position as int);
            assert(tail.drop_first() =~= digit_values(digits@).skip(position + 1));
            assert(tail[0] == digits@[position as int]);
            assert(biguint_value(number) * base == base * biguint_value(number))
                by (nonlinear_arith);
        }
        number = biguint_add(biguint_mul(&number, &big_base), biguint_from_u64(digits[position]));
    }
    proof {
        assert(digit_values(digits@).skip(0) =~= digit_values(digits@));
    }
    number
}

/// The number that `coeffs` resolve to in `base`: carries are propagated from
/// the least significant coefficient up, negative intermediate values are
/// clamped at zero, and the normalized digits are folded into the result.
pub fn fft_result_to_biguint(coeffs: &Vec<i64>, base: u64) -> (number: BigUint)
    requires
        base >= 2,
    ensures
        biguint_value(number) == resolved_value(coefficients(coeffs@), base as nat, 0),
{
    let digits = propagate_carries(coeffs, base);
    proof {
        let total = resolved_value(coefficients(coeffs@), base as nat, 0);
        if coeffs@.len() > 0 {
            lemma_evaluate_base_digits(total, base as nat);
        } else {
            assert(digit_values(digits@) =~= Seq::<int>::empty());
        }
    }
    fold_digits(&digits, base)
}

} // verus!

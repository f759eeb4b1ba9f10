//! The multiplication pipeline around the transform: preparing the two
//! operands for it, and what its output means. The transform stage takes the
//! padded digit coefficients of both operands and returns, rounded to
//! integers, the coefficients of their cyclic convolution; resolved in base
//! ten, these are the product.

use crate::bignum::biguint_value;
use crate::convolution::{
    cyclic_convolution, lemma_cyclic_is_linear, lemma_evaluate_linear_convolution,
    lemma_evaluate_zero_extend, lemma_linear_convolution_bounds,
    lemma_linear_convolution_commutes, linear_convolution,
};
use crate::digits::{
    coefficients, decimal_digits, lemma_base_digits_in_range, lemma_evaluate_base_digits,
    lemma_product_digit_count, represent_as_vector,
};
use crate::resolve::{lemma_resolved_value_of_nonnegative, resolved_value};
use crate::sizing::{
    calculate_length_power_of_2, is_transform_length, supplement, zero_extend, MAX_COEFFICIENTS,
};
use num_bigint::BigUint;
use vstd::prelude::*;

verus! {

/// The base in which operands are taken apart and the product is resolved.
pub const DECIMAL_BASE: u64 = 10;

/// The number of coefficients of the product of `a` and `b` before carries:
/// one less than their digit counts together.
pub open spec fn coefficient_count(a: nat, b: nat) -> nat {
    (decimal_digits(a).len() + decimal_digits(b).len() - 1) as nat
}

/// What the transform stage has to deliver for the operands `a` and `b` at
/// the transform length `n`: the cyclic convolution of their digit
/// coefficients, each padded to `n`.
pub open spec fn product_coefficients(a: nat, b: nat, n: nat) -> Seq<int> {
    cyclic_convolution(zero_extend(decimal_digits(a), n), zero_extend(decimal_digits(b), n))
}

/// The digit coefficients of both operands, padded with zeros to their
/// common transform length: the smallest power of two that holds every
/// coefficient of the product. `None` where that length does not fit in a
/// `u32`, which takes operands of more than two thousand million digits
/// together.
pub fn pad_operands(left: &BigUint, right: &BigUint) -> (padded: Option<(Vec<i64>, Vec<i64>)>)
    ensures
        padded is Some <==> coefficient_count(biguint_value(*left), biguint_value(*right))
            <= MAX_COEFFICIENTS,
        padded matches Some((l, r)) ==> {
            &&& l@.len() == r@.len()
            &&& is_transform_length(
                l@.len() as int,
                coefficient_count(biguint_value(*left), biguint_value(*right)) as int,
            )
            &&& coefficients(l@) == zero_extend(decimal_digits(biguint_value(*left)), l@.len())
            &&& coefficients(r@) == zero_extend(decimal_digits(biguint_value(*right)), l@.len())
        },
{
    let mut left_digits = represent_as_vector(left);
    let mut right_digits = represent_as_vector(right);
    proof {
        lemma_base_digits_in_range(biguint_value(*left), 10);
        lemma_base_digits_in_range(biguint_value(*right), 10);
        assert(coefficients(left_digits@).len() == left_digits@.len());
        assert(coefficients(right_digits@).len() == right_digits@.len());
    }
    let limit = MAX_COEFFICIENTS as usize;
    if left_digits.len() > limit || right_digits.len() > limit - (left_digits.len() - 1) {
        return None;
    }
    let count = (left_digits.len() - 1 + right_digits.len()) as u32;
    let length = calculate_length_power_of_2(count);
    supplement(&mut left_digits, length);
    supplement(&mut right_digits, length);
    proof {
        assert(coefficients(left_digits@).len() == left_digits@.len());
        assert(coefficients(right_digits@).len() == right_digits@.len());
    }
    Some((left_digits, right_digits))
}

/// Exactness of the pipeline: at any length that holds every coefficient of
/// the product, the exact coefficients of the transform stage resolve, in
/// base ten, to the product of the operands.
pub proof fn lemma_exact_coefficients_resolve_to_product(a: nat, b: nat, n: nat)
    requires
        n >= coefficient_count(a, b),
    ensures
        product_coefficients(a, b, n) == zero_extend(
            linear_convolution(decimal_digits(a), decimal_digits(b)),
            n,
        ),
        forall|k: int|
            0 <= k < product_coefficients(a, b, n).len() ==> 0 <= #[trigger] product_coefficients(
                a,
                b,
                n,
            )[k] <= 81 * decimal_digits(a).len(),
        resolved_value(product_coefficients(a, b, n), 10, 0) == a * b,
{
    let left = decimal_digits(a);
    let right = decimal_digits(b);
    let linear = linear_convolution(left, right);
    let exact = product_coefficients(a, b, n);
    lemma_base_digits_in_range(a, 10);
    lemma_base_digits_in_range(b, 10);
    lemma_cyclic_is_linear(left, right, n);
    lemma_linear_convolution_bounds(left, right, 9, 9);
    assert forall|k: int| 0 <= k < exact.len() implies 0 <= #[trigger] exact[k] <= 81
        * left.len() by {
        if k < linear.len() {
            assert(exact[k] == linear[k]);
        }
    }
    lemma_resolved_value_of_nonnegative(exact, 10, 0);
    lemma_evaluate_zero_extend(linear, n, 10);
    lemma_evaluate_linear_convolution(left, right, 10);
    lemma_evaluate_base_digits(a, 10);
    lemma_evaluate_base_digits(b, 10);
}

/// Zero annihilates and one is neutral: with exact coefficients, a number
/// times zero resolves to zero, and a number times one to itself.
pub proof fn lemma_product_identities(a: nat, n: nat)
    requires
        n >= decimal_digits(a).len(),
    ensures
        resolved_value(product_coefficients(a, 0, n), 10, 0) == 0,
        resolved_value(product_coefficients(a, 1, n), 10, 0) == a,
{
    assert(decimal_digits(0).len() == 1);
    assert(decimal_digits(1).len() == 1);
    lemma_exact_coefficients_resolve_to_product(a, 0, n);
    lemma_exact_coefficients_resolve_to_product(a, 1, n);
    assert(a * 0 == 0);
    assert(a * 1 == a);
}

/// The order of the operands does not matter: the exact coefficients are the
/// same either way, and so is the number that they resolve to.
pub proof fn lemma_product_commutes(a: nat, b: nat, n: nat)
    requires
        n >= coefficient_count(a, b),
    ensures
        product_coefficients(a, b, n) == product_coefficients(b, a, n),
        resolved_value(product_coefficients(a, b, n), 10, 0) == resolved_value(
            product_coefficients(b, a, n),
            10,
            0,
        ),
{
    lemma_exact_coefficients_resolve_to_product(a, b, n);
    lemma_exact_coefficients_resolve_to_product(b, a, n);
    lemma_linear_convolution_commutes(decimal_digits(a), decimal_digits(b));
}

/// Multiplying three numbers gives the same result whichever two are
/// multiplied first, each product taken with exact coefficients at a length
/// that holds them.
pub proof fn lemma_product_associates(
    a: nat,
    b: nat,
    c: nat,
    n_ab: nat,
    n_bc: nat,
    n_left: nat,
    n_right: nat,
)
    requires
        n_ab >= coefficient_count(a, b),
        n_bc >= coefficient_count(b, c),
        n_left >= coefficient_count(resolved_value(product_coefficients(a, b, n_ab), 10, 0), c),
        n_right >= coefficient_count(a, resolved_value(product_coefficients(b, c, n_bc), 10, 0)),
    ensures
        resolved_value(
            product_coefficients(
                resolved_value(product_coefficients(a, b, n_ab), 10, 0),
                c,
                n_left,
            ),
            10,
            0,
        ) == resolved_value(
            product_coefficients(
                a,
                resolved_value(product_coefficients(b, c, n_bc), 10, 0),
                n_right,
            ),
            10,
            0,
        ),
{
    lemma_exact_coefficients_resolve_to_product(a, b, n_ab);
    lemma_exact_coefficients_resolve_to_product(b, c, n_bc);
    lemma_exact_coefficients_resolve_to_product(a * b, c, n_left);
    lemma_exact_coefficients_resolve_to_product(a, b * c, n_right);
    assert((a * b) * c == a * (b * c)) by (nonlinear_arith);
}

/// The number of decimal digits of what two positive operands resolve to is
/// the number of exact coefficients, or one more.
pub proof fn lemma_product_digit_count_bound(a: nat, b: nat, n: nat)
    requires
        a > 0,
        b > 0,
        n >= coefficient_count(a, b),
    ensures
        ({
            let count = decimal_digits(resolved_value(product_coefficients(a, b, n), 10, 0)).len();
            count == coefficient_count(a, b) || count == coefficient_count(a, b) + 1
        }),
{
    lemma_exact_coefficients_resolve_to_product(a, b, n);
    lemma_product_digit_count(a, b, 10);
    lemma_base_digits_in_range(a, 10);
    lemma_base_digits_in_range(b, 10);
}

} // verus!

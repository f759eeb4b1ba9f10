//! The boundary to `num_bigint`: the arbitrary-precision integer type, the
//! natural number that a value of it denotes, and the few operations on it
//! that the library uses. Nothing in this file is proved; each contract
//! restates what `num_bigint` documents.

use num_bigint::BigUint;
use num_traits::Zero;
use vstd::prelude::*;

verus! {

/// `num_bigint::BigUint`, an unsigned integer of unbounded magnitude. Its
/// representation is hidden; contracts speak of it through [`biguint_value`].
#[verifier::external_type_specification]
#[verifier::external_body]
pub struct ExBigUint(BigUint);

/// The natural number that a `BigUint` holds.
pub uninterp spec fn biguint_value(n: BigUint) -> nat;

/// The decimal numeral of `n`, most significant digit first, without leading
/// zeros; `"0"` for zero.
pub open spec fn decimal_text(n: nat) -> Seq<char>
    decreases n,
{
    if n < 10 {
        seq![digit_char(n)]
    } else {
        decimal_text(n / 10).push(digit_char(n % 10))
    }
}

/// The character `'0'..='9'` that stands for the digit `d`.
pub open spec fn digit_char(d: nat) -> char {
    if d == 0 {
        '0'
    } else if d == 1 {
        '1'
    } else if d == 2 {
        '2'
    } else if d == 3 {
        '3'
    } else if d == 4 {
        '4'
    } else if d == 5 {
        '5'
    } else if d == 6 {
        '6'
    } else if d == 7 {
        '7'
    } else if d == 8 {
        '8'
    } else {
        '9'
    }
}

/// `<BigUint as num_traits::Zero>::zero`: the number zero.
#[verifier::external_body]
pub(crate) fn biguint_zero() -> (zero: BigUint)
    ensures
        biguint_value(zero) == 0,
{
    BigUint::zero()
}

/// `<BigUint as From<u64>>::from`: the number `n`, exactly.
#[verifier::external_body]
pub(crate) fn biguint_from_u64(n: u64) -> (number: BigUint)
    ensures
        biguint_value(number) == n,
{
    BigUint::from(n)
}

/// `&BigUint * &BigUint`: the exact product; `BigUint` arithmetic never wraps.
#[verifier::external_body]
pub(crate) fn biguint_mul(left: &BigUint, right: &BigUint) -> (product: BigUint)
    ensures
        biguint_value(product) == biguint_value(*left) * biguint_value(*right),
{
    left * right
}

/// `BigUint + BigUint`: the exact sum; `BigUint` arithmetic never wraps.
#[verifier::external_body]
pub(crate) fn biguint_add(left: BigUint, right: BigUint) -> (sum: BigUint)
    ensures
        biguint_value(sum) == biguint_value(left) + biguint_value(right),
{
    left + right
}

/// `BigUint::to_string` (its `Display` impl, which formats in radix 10): the
/// decimal numeral of the number, most significant digit first, `"0"` for zero.
#[verifier::external_body]
pub(crate) fn biguint_to_string(number: &BigUint) -> (text: String)
    ensures
        text@ == decimal_text(biguint_value(*number)),
{
    number.to_string()
}

} // verus!

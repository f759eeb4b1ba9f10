//! Positional notation: the digits of a number, the value of a digit
//! sequence, and the conversion of an operand into its digit coefficients.

use crate::bignum::{biguint_to_string, biguint_value, decimal_text, digit_char};
use num_bigint::BigUint;
use vstd::arithmetic::div_mod::lemma_fundamental_div_mod_converse;
use vstd::arithmetic::power::{lemma_pow_adds, lemma_pow_increases, lemma_pow_positive, pow};
use vstd::prelude::*;
use vstd::string::StrSliceExecFns;

verus! {

/// The value of a coefficient sequence at `base`: the sum of
/// `coeffs[i] * base^i`, least significant coefficient first.
pub open spec fn evaluate(coeffs: Seq<int>, base: int) -> int
    decreases coeffs.len(),
{
    if coeffs.len() == 0 {
        0
    } else {
        coeffs[0] + base * evaluate(coeffs.drop_first(), base)
    }
}

/// The digits of `n` in `base`, least significant first, without superfluous
/// zeros: at least one digit, and the last one is zero only for `n == 0`.
pub open spec fn base_digits(n: nat, base: nat) -> Seq<int>
    decreases n,
    via base_digits_decreases
{
    if base < 2 || n < base {
        seq![n as int]
    } else {
        seq![(n % base) as int] + base_digits(n / base, base)
    }
}

#[via_fn]
proof fn base_digits_decreases(n: nat, base: nat) {
    if base >= 2 && n >= base {
        lemma_quotient_smaller(n, base);
    }
}

/// Dividing by a base of at least 2 shrinks a number that has more than one
/// digit, and leaves a nonzero quotient and a remainder below the base.
pub proof fn lemma_quotient_smaller(n: nat, base: nat)
    by (nonlinear_arith)
    requires
        base >= 2,
        n >= base,
    ensures
        0 < n / base < n,
        n % base < base,
        n == base * (n / base) + n % base,
{
}

/// The decimal digits of `n`, least significant first.
pub open spec fn decimal_digits(n: nat) -> Seq<int> {
    base_digits(n, 10)
}

/// A coefficient vector read as mathematical integers.
pub open spec fn coefficients(v: Seq<i64>) -> Seq<int> {
    v.map_values(|c: i64| c as int)
}

/// Every digit of `n` in `base` lies in `0..base`.
pub proof fn lemma_base_digits_in_range(n: nat, base: nat)
    requires
        base >= 2,
    ensures
        base_digits(n, base).len() >= 1,
        forall|i: int|
            0 <= i < base_digits(n, base).len() ==> 0 <= #[trigger] base_digits(n, base)[i] < base,
    decreases n,
{
    if n >= base {
        lemma_quotient_smaller(n, base);
        lemma_base_digits_in_range(n / base, base);
    }
}

/// A digit sequence is normalized in `base`: at least one digit, every digit
/// in `0..base`, and no zero at the most significant end unless it is the
/// only digit.
pub open spec fn is_normalized(digits: Seq<int>, base: nat) -> bool {
    &&& digits.len() >= 1
    &&& forall|i: int| 0 <= i < digits.len() ==> 0 <= #[trigger] digits[i] < base
    &&& (digits.len() == 1 || digits.last() != 0)
}

/// Appending a coefficient adds it at the weight of its position.
pub proof fn lemma_evaluate_push(coeffs: Seq<int>, last: int, base: int)
    ensures
        evaluate(coeffs.push(last), base) == evaluate(coeffs, base) + last * pow(
            base,
            coeffs.len(),
        ),
    decreases coeffs.len(),
{
    reveal(pow);
    let extended = coeffs.push(last);
    if coeffs.len() == 0 {
        assert(extended.drop_first() =~= Seq::<int>::empty());
        assert(evaluate(extended.drop_first(), base) == 0);
    } else {
        let rest = coeffs.drop_first();
        assert(extended.drop_first() =~= rest.push(last));
        lemma_evaluate_push(rest, last, base);
        let weight = pow(base, rest.len());
        assert(pow(base, coeffs.len()) == base * weight);
        assert(base * (evaluate(rest, base) + last * weight) == base * evaluate(rest, base) + last
            * (base * weight)) by (nonlinear_arith);
    }
}

/// The digits of a number evaluate to that number.
pub proof fn lemma_evaluate_base_digits(n: nat, base: nat)
    requires
        base >= 2,
    ensures
        evaluate(base_digits(n, base), base as int) == n,
    decreases n,
{
    let digits = base_digits(n, base);
    if n < base {
        assert(digits.drop_first() =~= Seq::<int>::empty());
        assert(evaluate(digits.drop_first(), base as int) == 0);
    } else {
        lemma_quotient_smaller(n, base);
        lemma_evaluate_base_digits(n / base, base);
        assert(digits.drop_first() =~= base_digits(n / base, base));
    }
}

/// The digits of a number are normalized.
pub proof fn lemma_base_digits_normalized(n: nat, base: nat)
    requires
        base >= 2,
    ensures
        is_normalized(base_digits(n, base), base),
        n > 0 ==> base_digits(n, base).last() != 0,
    decreases n,
{
    if n >= base {
        lemma_quotient_smaller(n, base);
        lemma_base_digits_normalized(n / base, base);
        let digits = base_digits(n, base);
        let upper = base_digits(n / base, base);
        assert(digits.last() == upper.last());
        assert forall|i: int| 0 <= i < digits.len() implies 0 <= #[trigger] digits[i] < base by {
            if i > 0 {
                assert(digits[i] == upper[i - 1]);
            }
        }
    }
}

/// A normalized digit sequence is the digit sequence of its value: every
/// number has exactly one normalized notation.
pub proof fn lemma_normalized_is_base_digits(digits: Seq<int>, base: nat)
    requires
        base >= 2,
        is_normalized(digits, base),
    ensures
        evaluate(digits, base as int) >= 0,
        digits.last() != 0 ==> evaluate(digits, base as int) > 0,
        digits == base_digits(evaluate(digits, base as int) as nat, base),
    decreases digits.len(),
{
    let rest = digits.drop_first();
    if digits.len() == 1 {
        assert(rest =~= Seq::<int>::empty());
        assert(evaluate(rest, base as int) == 0);
        assert(digits =~= seq![digits[0]]);
    } else {
        assert(rest.last() == digits.last());
        assert forall|i: int| 0 <= i < rest.len() implies 0 <= #[trigger] rest[i] < base by {
            assert(rest[i] == digits[i + 1]);
        }
        lemma_normalized_is_base_digits(rest, base);
        let upper = evaluate(rest, base as int);
        let value = evaluate(digits, base as int);
        assert(value == digits[0] + base * upper);
        assert(base * upper >= base) by (nonlinear_arith)
            requires
                upper >= 1,
                base >= 2,
        ;
        assert(value == upper * base + digits[0]) by (nonlinear_arith)
            requires
                value == digits[0] + base * upper,
        ;
        lemma_fundamental_div_mod_converse(value, base as int, upper, digits[0]);
        assert(digits =~= seq![digits[0]] + rest);
    }
}

/// A positive number with `k` digits lies between `base^(k-1)` and `base^k`.
pub proof fn lemma_digit_count_bounds(n: nat, base: nat)
    requires
        base >= 2,
        n > 0,
    ensures
        base_digits(n, base).len() >= 1,
        pow(base as int, (base_digits(n, base).len() - 1) as nat) <= n < pow(
            base as int,
            base_digits(n, base).len(),
        ),
    decreases n,
{
    reveal(pow);
    if n < base {
        assert(pow(base as int, 0) == 1);
        assert(pow(base as int, 1) == base * pow(base as int, 0));
        assert(base * 1 == base);
    } else {
        lemma_quotient_smaller(n, base);
        lemma_digit_count_bounds(n / base, base);
        let upper = base_digits(n / base, base).len();
        assert(base_digits(n, base).len() == upper + 1);
        let low = pow(base as int, (upper - 1) as nat);
        let high = pow(base as int, upper);
        let quotient = (n / base) as int;
        assert(pow(base as int, upper) == base * low);
        assert(pow(base as int, upper + 1) == base * high);
        assert(base * low <= base * quotient && base * (quotient + 1) <= base * high)
            by (nonlinear_arith)
            requires
                base >= 2,
                low <= quotient < high,
        ;
        assert(base * (quotient + 1) == base * quotient + base) by (nonlinear_arith);
    }
}

/// The product of two positive numbers of `j` and `k` digits has `j + k - 1`
/// or `j + k` digits.
pub proof fn lemma_product_digit_count(a: nat, b: nat, base: nat)
    requires
        base >= 2,
        a > 0,
        b > 0,
    ensures
        base_digits(a * b, base).len() == base_digits(a, base).len() + base_digits(b, base).len()
            - 1 || base_digits(a * b, base).len() == base_digits(a, base).len() + base_digits(
            b,
            base,
        ).len(),
{
    let j = base_digits(a, base).len();
    let k = base_digits(b, base).len();
    lemma_digit_count_bounds(a, base);
    lemma_digit_count_bounds(b, base);
    let x = base as int;
    let low_a = pow(x, (j - 1) as nat);
    let low_b = pow(x, (k - 1) as nat);
    let high_a = pow(x, j);
    let high_b = pow(x, k);
    lemma_pow_adds(x, (j - 1) as nat, (k - 1) as nat);
    lemma_pow_adds(x, j, k);
    lemma_pow_positive(x, (j - 1) as nat);
    lemma_pow_positive(x, (k - 1) as nat);
    assert(low_a * low_b <= a * b < high_a * high_b) by (nonlinear_arith)
        requires
            0 < low_a <= a < high_a,
            0 < low_b <= b < high_b,
    ;
    let product = a * b;
    assert(product > 0) by (nonlinear_arith)
        requires
            product == a * b,
            a > 0,
            b > 0,
    ;
    lemma_digit_count_bounds(product, base);
    let count = base_digits(product, base).len();
    if count < j + k - 1 {
        lemma_pow_increases(base, count, (j + k - 2) as nat);
    } else if count > j + k {
        lemma_pow_increases(base, j + k, (count - 1) as nat);
    }
}

/// The decimal numeral of `n` is its digit sequence read backwards, each
/// digit written as its character.
pub proof fn lemma_decimal_text_reverses_digits(n: nat)
    ensures
        decimal_text(n).len() == decimal_digits(n).len(),
        forall|i: int|
            0 <= i < decimal_digits(n).len() ==> #[trigger] decimal_text(n)[decimal_digits(n).len()
                - 1 - i] == digit_char(decimal_digits(n)[i] as nat),
    decreases n,
{
    if n >= 10 {
        lemma_decimal_text_reverses_digits(n / 10);
        let len = decimal_digits(n).len();
        assert forall|i: int| 0 <= i < len implies #[trigger] decimal_text(n)[len - 1 - i]
            == digit_char(decimal_digits(n)[i] as nat) by {
            if i > 0 {
                assert(decimal_digits(n)[i] == decimal_digits(n / 10)[i - 1]);
                assert(decimal_text(n)[len - 1 - i] == decimal_text(n / 10)[(len - 1) - 1 - (i
                    - 1)]);
            }
        }
    }
}

/// The digits of `value` as coefficients: one per decimal digit, least
/// significant first, each in `0..=9`; a single `0` for zero.
pub fn represent_as_vector(value: &BigUint) -> (digits: Vec<i64>)
    ensures
        coefficients(digits@) == decimal_digits(biguint_value(*value)),
        is_normalized(coefficients(digits@), 10),
{
    let text = biguint_to_string(value);
    let numeral = text.as_str();
    let ghost n = biguint_value(*value);
    proof {
        lemma_decimal_text_reverses_digits(n);
        lemma_base_digits_in_range(n, 10);
        assert forall|i: int| 0 <= i < numeral@.len() implies '0' <= #[trigger] numeral@[i]
            <= '9' by {
            let j = numeral@.len() - 1 - i;
            assert(numeral@[i] == decimal_text(n)[decimal_digits(n).len() - 1 - j]);
        }
    }
    let length = numeral.unicode_len();
    let mut digits: Vec<i64> = Vec::with_capacity(length);
    let mut position = length;
    while position > 0
        invariant
            position <= length == numeral@.len(),
            numeral@ == decimal_text(n),
            numeral@.len() == decimal_digits(n).len(),
            numeral.is_ascii(),
            forall|i: int| 0 <= i < numeral@.len() ==> '0' <= #[trigger] numeral@[i] <= '9',
            forall|i: int|
                0 <= i < decimal_digits(n).len() ==> #[trigger] decimal_text(n)[decimal_digits(
                    n,
                ).len() - 1 - i] == digit_char(decimal_digits(n)[i] as nat),
            forall|i: int|
                0 <= i < decimal_digits(n).len() ==> 0 <= #[trigger] decimal_digits(n)[i] < 10,
            digits@.len() == length - position,
            forall|i: int| 0 <= i < digits@.len() ==> digits@[i] as int == decimal_digits(n)[i],
        decreases position,
    {
        position = position - 1;
        let symbol = numeral.get_ascii(position);
        proof {
            let i = length - 1 - position;
            assert(numeral@[position as int] == decimal_text(n)[decimal_digits(n).len() - 1 - i]);
        }
        digits.push((symbol - 48) as i64);
    }
    proof {
        assert(coefficients(digits@) =~= decimal_digits(n));
        lemma_base_digits_normalized(n, 10);
    }
    digits
}

} // verus!

//! The convolution of coefficient sequences, which is what the transform
//! stage computes, and its arithmetic meaning: the linear convolution of two
//! sequences evaluates to the product of their values, and the cyclic
//! convolution of sequences padded to a sufficient length is the linear one.

use crate::digits::evaluate;
use crate::sizing::zero_extend;
use vstd::arithmetic::div_mod::{lemma_mod_add_multiples_vanish, lemma_small_mod};
use vstd::prelude::*;

verus! {

/// The coefficient of `coeffs` at position `k`; zero outside the sequence.
pub open spec fn coefficient_at(coeffs: Seq<int>, k: int) -> int {
    if 0 <= k < coeffs.len() {
        coeffs[k]
    } else {
        0
    }
}

/// The sum of `a[i] * b[k - i]` over `i < m`, where `b` is zero outside
/// its positions.
pub open spec fn linear_term_sum(a: Seq<int>, b: Seq<int>, k: int, m: nat) -> int
    decreases m,
{
    if m == 0 {
        0
    } else {
        linear_term_sum(a, b, k, (m - 1) as nat) + a[m - 1] * coefficient_at(b, k - (m - 1))
    }
}

/// The number of coefficients of the linear convolution of sequences of
/// `left` and `right` coefficients.
pub open spec fn linear_length(left: nat, right: nat) -> nat {
    if left + right >= 1 {
        (left + right - 1) as nat
    } else {
        0
    }
}

/// The linear convolution of `a` and `b`: coefficient `k` is the sum of all
/// `a[i] * b[j]` with `i + j == k`. These are the coefficients of the product
/// of the two polynomials.
pub open spec fn linear_convolution(a: Seq<int>, b: Seq<int>) -> Seq<int> {
    Seq::new(linear_length(a.len(), b.len()), |k: int| linear_term_sum(a, b, k, a.len()))
}

/// The sum of `a[i] * b[(k - i) mod n]` over `i < m`, where `n` is the length
/// of `b`.
pub open spec fn cyclic_term_sum(a: Seq<int>, b: Seq<int>, k: int, m: nat) -> int
    decreases m,
{
    if m == 0 {
        0
    } else {
        cyclic_term_sum(a, b, k, (m - 1) as nat) + a[m - 1] * b[(k - (m - 1)) % (b.len() as int)]
    }
}

/// The cyclic convolution of two sequences of one length `n`: coefficient `k`
/// is the sum of all `a[i] * b[j]` with `i + j == k` modulo `n`. This is what
/// a forward transform of both, a pointwise product and an inverse transform
/// with scaling by `1/n` yield in exact arithmetic.
pub open spec fn cyclic_convolution(a: Seq<int>, b: Seq<int>) -> Seq<int> {
    Seq::new(a.len(), |k: int| cyclic_term_sum(a, b, k, a.len()))
}

/// The coefficientwise sum of two sequences of one length.
pub open spec fn pointwise_sum(a: Seq<int>, b: Seq<int>) -> Seq<int> {
    Seq::new(a.len(), |k: int| a[k] + b[k])
}

/// Every coefficient multiplied by `factor`.
pub open spec fn scaled(factor: int, coeffs: Seq<int>) -> Seq<int> {
    Seq::new(coeffs.len(), |k: int| factor * coeffs[k])
}

/// Evaluation is additive.
pub proof fn lemma_evaluate_pointwise_sum(a: Seq<int>, b: Seq<int>, x: int)
    requires
        a.len() == b.len(),
    ensures
        evaluate(pointwise_sum(a, b), x) == evaluate(a, x) + evaluate(b, x),
    decreases a.len(),
{
    if a.len() > 0 {
        lemma_evaluate_pointwise_sum(a.drop_first(), b.drop_first(), x);
        assert(pointwise_sum(a, b).drop_first() =~= pointwise_sum(a.drop_first(), b.drop_first()));
        assert(x * (evaluate(a.drop_first(), x) + evaluate(b.drop_first(), x)) == x * evaluate(
            a.drop_first(),
            x,
        ) + x * evaluate(b.drop_first(), x)) by (nonlinear_arith);
    }
}

/// Evaluation commutes with scaling.
pub proof fn lemma_evaluate_scaled(factor: int, coeffs: Seq<int>, x: int)
    ensures
        evaluate(scaled(factor, coeffs), x) == factor * evaluate(coeffs, x),
    decreases coeffs.len(),
{
    if coeffs.len() > 0 {
        let rest = coeffs.drop_first();
        lemma_evaluate_scaled(factor, rest, x);
        assert(scaled(factor, coeffs).drop_first() =~= scaled(factor, rest));
        assert(factor * coeffs[0] + x * (factor * evaluate(rest, x)) == factor * (coeffs[0] + x
            * evaluate(rest, x))) by (nonlinear_arith);
    }
}

/// Zero coefficients at the most significant end do not change the value.
pub proof fn lemma_evaluate_zero_extend(coeffs: Seq<int>, length: nat, x: int)
    ensures
        evaluate(zero_extend(coeffs, length), x) == evaluate(coeffs, x),
    decreases length,
{
    let extended = zero_extend(coeffs, length);
    if coeffs.len() < length {
        if coeffs.len() == 0 {
            let rest = zero_extend(coeffs, (length - 1) as nat);
            lemma_evaluate_zero_extend(coeffs, (length - 1) as nat, x);
            assert(extended.drop_first() =~= rest);
            assert(x * 0 == 0);
        } else {
            let rest = coeffs.drop_first();
            lemma_evaluate_zero_extend(rest, (length - 1) as nat, x);
            assert(extended.drop_first() =~= zero_extend(rest, (length - 1) as nat));
        }
    }
}

/// Below position zero there is nothing to sum.
proof fn lemma_linear_term_sum_negative(a: Seq<int>, b: Seq<int>, k: int, m: nat)
    requires
        k < 0,
    ensures
        linear_term_sum(a, b, k, m) == 0,
    decreases m,
{
    if m > 0 {
        lemma_linear_term_sum_negative(a, b, k, (m - 1) as nat);
    }
}

/// The first term of the sum taken apart from the others.
proof fn lemma_linear_term_sum_peel(a: Seq<int>, b: Seq<int>, k: int, m: nat)
    requires
        1 <= m <= a.len(),
    ensures
        linear_term_sum(a, b, k, m) == a[0] * coefficient_at(b, k) + linear_term_sum(
            a.drop_first(),
            b,
            k - 1,
            (m - 1) as nat,
        ),
    decreases m,
{
    if m == 1 {
        assert(linear_term_sum(a, b, k, 0) == 0);
        assert(linear_term_sum(a.drop_first(), b, k - 1, 0) == 0);
    } else {
        lemma_linear_term_sum_peel(a, b, k, (m - 1) as nat);
        assert(a.drop_first()[m - 2] == a[m - 1]);
    }
}

/// The linear convolution multiplies values: evaluated at any point, it is
/// the product of what the two sequences evaluate to.
pub proof fn lemma_evaluate_linear_convolution(a: Seq<int>, b: Seq<int>, x: int)
    ensures
        evaluate(linear_convolution(a, b), x) == evaluate(a, x) * evaluate(b, x),
    decreases a.len(),
{
    let product = linear_convolution(a, b);
    if a.len() == 0 {
        let nothing = Seq::<int>::empty();
        lemma_evaluate_zero_extend(nothing, product.len(), x);
        assert(product =~= zero_extend(nothing, product.len()));
        assert(0 * evaluate(b, x) == 0);
    } else if a.len() == 1 {
        assert forall|k: int| 0 <= k < product.len() implies product[k] == a[0] * b[k] by {
            assert(linear_term_sum(a, b, k, 0) == 0);
        }
        assert(product =~= scaled(a[0], b));
        lemma_evaluate_scaled(a[0], b, x);
        assert(a.drop_first() =~= Seq::<int>::empty());
        assert(evaluate(a.drop_first(), x) == 0);
        assert(x * 0 == 0);
    } else {
        let rest = a.drop_first();
        let upper = linear_convolution(rest, b);
        let low = scaled(a[0], zero_extend(b, product.len()));
        let high = seq![0int] + upper;
        assert forall|k: int| 0 <= k < product.len() implies product[k] == low[k] + high[k] by {
            lemma_linear_term_sum_peel(a, b, k, a.len());
            if k == 0 {
                lemma_linear_term_sum_negative(rest, b, -1, rest.len());
            }
        }
        assert(product =~= pointwise_sum(low, high));
        lemma_evaluate_pointwise_sum(low, high, x);
        lemma_evaluate_scaled(a[0], zero_extend(b, product.len()), x);
        lemma_evaluate_zero_extend(b, product.len(), x);
        assert(high.drop_first() =~= upper);
        lemma_evaluate_linear_convolution(rest, b, x);
        let va = evaluate(rest, x);
        let vb = evaluate(b, x);
        assert(a[0] * vb + (0 + x * (va * vb)) == (a[0] + x * va) * vb) by (nonlinear_arith);
    }
}

/// A position that lies less than one length outside `0..n` wraps around once.
proof fn lemma_wrapped_position(d: int, n: int)
    requires
        -n < d < n,
    ensures
        d % n == if d >= 0 {
            d
        } else {
            d + n
        },
{
    if d >= 0 {
        lemma_small_mod(d as nat, n as nat);
    } else {
        lemma_mod_add_multiples_vanish(d, n);
        lemma_small_mod((d + n) as nat, n as nat);
    }
}

/// Beyond the last position that any pair of coefficients reaches, the sum
/// is empty.
proof fn lemma_linear_term_sum_beyond(a: Seq<int>, b: Seq<int>, k: int, m: nat)
    requires
        m == 0 || k - (m - 1) >= b.len(),
    ensures
        linear_term_sum(a, b, k, m) == 0,
    decreases m,
{
    if m > 0 {
        lemma_linear_term_sum_beyond(a, b, k, (m - 1) as nat);
    }
}

/// Over the coefficients of `a` itself, no term of the cyclic sum of the
/// padded sequences wraps onto a nonzero coefficient.
proof fn lemma_cyclic_term_sum_within(a: Seq<int>, b: Seq<int>, n: nat, k: int, m: nat)
    requires
        a.len() >= 1,
        b.len() >= 1,
        n >= a.len() + b.len() - 1,
        0 <= k < n,
        m <= a.len(),
    ensures
        cyclic_term_sum(zero_extend(a, n), zero_extend(b, n), k, m) == linear_term_sum(a, b, k, m),
    decreases m,
{
    if m > 0 {
        lemma_cyclic_term_sum_within(a, b, n, k, (m - 1) as nat);
        let i = m - 1;
        lemma_wrapped_position(k - i, n as int);
        let wrapped = (k - i) % (n as int);
        assert(zero_extend(b, n).len() == n);
        assert(zero_extend(a, n)[i] == a[i]);
        assert(zero_extend(b, n)[wrapped] == coefficient_at(b, k - i));
    }
}

/// The padding of `a` adds nothing to the cyclic sum.
proof fn lemma_cyclic_term_sum_padding(a: Seq<int>, b: Seq<int>, n: nat, k: int, m: nat)
    requires
        a.len() <= m <= n,
    ensures
        cyclic_term_sum(zero_extend(a, n), zero_extend(b, n), k, m) == cyclic_term_sum(
            zero_extend(a, n),
            zero_extend(b, n),
            k,
            a.len(),
        ),
    decreases m,
{
    if m > a.len() {
        lemma_cyclic_term_sum_padding(a, b, n, k, (m - 1) as nat);
        assert(zero_extend(a, n)[m - 1] == 0);
    }
}

/// The sizing rule: where the common length of the padded sequences is at
/// least the number of coefficients of the linear convolution, the cyclic
/// convolution does not alias, and is the linear convolution padded to that
/// length.
pub proof fn lemma_cyclic_is_linear(a: Seq<int>, b: Seq<int>, n: nat)
    requires
        a.len() >= 1,
        b.len() >= 1,
        n >= a.len() + b.len() - 1,
    ensures
        cyclic_convolution(zero_extend(a, n), zero_extend(b, n)) == zero_extend(
            linear_convolution(a, b),
            n,
        ),
{
    let cyclic = cyclic_convolution(zero_extend(a, n), zero_extend(b, n));
    let linear = zero_extend(linear_convolution(a, b), n);
    assert(cyclic.len() == linear.len());
    assert forall|k: int| 0 <= k < n implies cyclic[k] == linear[k] by {
        lemma_cyclic_term_sum_padding(a, b, n, k, n);
        lemma_cyclic_term_sum_within(a, b, n, k, a.len());
        if k >= a.len() + b.len() - 1 {
            lemma_linear_term_sum_beyond(a, b, k, a.len());
        }
    }
    assert(cyclic =~= linear);
}

/// Against an empty sequence every term is zero.
proof fn lemma_linear_term_sum_empty(a: Seq<int>, b: Seq<int>, k: int, m: nat)
    requires
        b.len() == 0,
    ensures
        linear_term_sum(a, b, k, m) == 0,
    decreases m,
{
    if m > 0 {
        lemma_linear_term_sum_empty(a, b, k, (m - 1) as nat);
    }
}

/// The terms that meet the first coefficient of the second sequence taken
/// apart from the others.
proof fn lemma_linear_term_sum_split(a: Seq<int>, b: Seq<int>, k: int, m: nat)
    requires
        b.len() >= 1,
        m <= a.len(),
    ensures
        linear_term_sum(a, b, k, m) == b[0] * (if 0 <= k < m {
            a[k]
        } else {
            0
        }) + linear_term_sum(a, b.drop_first(), k - 1, m),
    decreases m,
{
    if m > 0 {
        lemma_linear_term_sum_split(a, b, k, (m - 1) as nat);
        let j = m - 1;
        let rest = b.drop_first();
        if k - j >= 1 && k - j < b.len() {
            assert(rest[k - j - 1] == b[k - j]);
        }
        assert(coefficient_at(b, k - j) == if k == j {
            b[0]
        } else {
            coefficient_at(rest, k - 1 - j)
        });
        if k == j {
            assert(a[j] * b[0] == b[0] * a[k]) by (nonlinear_arith)
                requires
                    k == j,
            ;
            assert(coefficient_at(rest, -1) == 0);
            assert(a[j] * 0 == 0);
            assert(b[0] * 0 == 0);
        }
    } else {
        assert(b[0] * 0 == 0);
    }
}

/// The sum over all pairs does not depend on which sequence is walked.
proof fn lemma_linear_term_sum_commutes(a: Seq<int>, b: Seq<int>, k: int)
    ensures
        linear_term_sum(a, b, k, a.len()) == linear_term_sum(b, a, k, b.len()),
    decreases a.len(),
{
    if a.len() == 0 {
        lemma_linear_term_sum_empty(b, a, k, b.len());
    } else {
        lemma_linear_term_sum_peel(a, b, k, a.len());
        lemma_linear_term_sum_commutes(a.drop_first(), b, k - 1);
        lemma_linear_term_sum_split(b, a, k, b.len());
    }
}

/// The linear convolution is commutative.
pub proof fn lemma_linear_convolution_commutes(a: Seq<int>, b: Seq<int>)
    ensures
        linear_convolution(a, b) == linear_convolution(b, a),
{
    assert forall|k: int| 0 <= k < linear_convolution(a, b).len() implies linear_convolution(
        a,
        b,
    )[k] == linear_convolution(b, a)[k] by {
        lemma_linear_term_sum_commutes(a, b, k);
    }
    assert(linear_convolution(a, b) =~= linear_convolution(b, a));
}

/// Partial sums of products of bounded nonnegative coefficients are bounded.
proof fn lemma_linear_term_sum_bounds(a: Seq<int>, b: Seq<int>, k: int, m: nat, p: int, q: int)
    requires
        m <= a.len(),
        0 <= p,
        0 <= q,
        forall|i: int| 0 <= i < a.len() ==> 0 <= #[trigger] a[i] <= p,
        forall|j: int| 0 <= j < b.len() ==> 0 <= #[trigger] b[j] <= q,
    ensures
        0 <= linear_term_sum(a, b, k, m) <= m * (p * q),
    decreases m,
{
    if m > 0 {
        lemma_linear_term_sum_bounds(a, b, k, (m - 1) as nat, p, q);
        let x = a[m - 1];
        let y = coefficient_at(b, k - (m - 1));
        assert(0 <= x * y <= p * q) by (nonlinear_arith)
            requires
                0 <= x <= p,
                0 <= y <= q,
        ;
        assert((m - 1) * (p * q) + p * q == m * (p * q)) by (nonlinear_arith);
    } else {
        assert(0 * (p * q) == 0);
    }
}

/// Magnitude of the coefficients: where the coefficients of `a` lie in
/// `0..=p` and those of `b` in `0..=q`, every coefficient of their linear
/// convolution lies between zero and `a.len() * p * q`.
pub proof fn lemma_linear_convolution_bounds(a: Seq<int>, b: Seq<int>, p: int, q: int)
    requires
        0 <= p,
        0 <= q,
        forall|i: int| 0 <= i < a.len() ==> 0 <= #[trigger] a[i] <= p,
        forall|j: int| 0 <= j < b.len() ==> 0 <= #[trigger] b[j] <= q,
    ensures
        forall|k: int|
            0 <= k < linear_convolution(a, b).len() ==> 0 <= #[trigger] linear_convolution(a, b)[k]
                <= a.len() * (p * q),
{
    assert forall|k: int| 0 <= k < linear_convolution(a, b).len() implies 0
        <= #[trigger] linear_convolution(a, b)[k] <= a.len() * (p * q) by {
        lemma_linear_term_sum_bounds(a, b, k, a.len(), p, q);
    }
}

} // verus!

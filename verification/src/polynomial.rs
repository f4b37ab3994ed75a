//! Evaluation of a polynomial in one variable.
//!
//! A polynomial is a sequence of coefficients; the coefficient at index `i`
//! belongs to the `i`-th power of the variable, so index 0 holds the constant
//! term. The empty sequence is the zero polynomial.

pub mod array_polynomial;
pub mod slice_polynomial;

use crate::modular::{ints, lemma_wrap_add, lemma_wrap_mul, wrap};
use vstd::arithmetic::power::pow;
use vstd::prelude::*;

verus! {

/// The sum of the first `n` terms of `p` at `x`: the sum of `p[i] * x^i` over
/// `0 <= i < n`.
pub open spec fn evaluation_prefix(p: Seq<int>, x: int, n: nat) -> int
    decreases n,
{
    if n == 0 {
        0
    } else {
        evaluation_prefix(p, x, (n - 1) as nat) + p[n - 1] * pow(x, (n - 1) as nat)
    }
}

/// The value of the polynomial `p` at `x`: the sum of `p[i] * x^i` over all
/// indices `i` of `p`. The empty polynomial has the value 0 everywhere.
pub open spec fn evaluation(p: Seq<int>, x: int) -> int {
    evaluation_prefix(p, x, p.len())
}

/// One step of the accumulation that the evaluators run: with the reduced sum
/// of the first `i` terms in `acc` and the reduced `i`-th power of `x` in `xn`,
/// adding `xn * c` gives the reduced sum of the first `i + 1` terms, and
/// `xn * x` the reduced next power.
pub proof fn lemma_evaluation_step(p: Seq<int>, x: int, i: nat, acc: i128, xn: i128)
    requires
        i < p.len(),
        acc == wrap(evaluation_prefix(p, x, i)),
        xn == wrap(pow(x, i)),
    ensures
        wrap(acc + wrap(xn * p[i as int])) == wrap(evaluation_prefix(p, x, i + 1)),
        wrap(xn * x) == wrap(pow(x, i + 1)),
{
    let c = p[i as int];
    let e = evaluation_prefix(p, x, i);
    lemma_wrap_mul(pow(x, i), c);
    assert(pow(x, i) * c == c * pow(x, i)) by (nonlinear_arith);
    lemma_wrap_add(e, c * pow(x, i));
    lemma_wrap_add(e, xn * c);
    lemma_wrap_mul(pow(x, i), x);
    assert(pow(x, i + 1) == x * pow(x, i)) by {
        reveal(pow);
    }
    assert(pow(x, i) * x == x * pow(x, i)) by (nonlinear_arith);
}

/// Coefficients that are 0 add nothing: the sum of the first `m` terms is the
/// sum of the first `n`, where the coefficients from `n` on are 0.
pub proof fn lemma_evaluation_prefix_zeros(p: Seq<int>, x: int, n: nat, m: nat)
    requires
        n <= m,
        forall|i: int| n <= i < m ==> p[i] == 0,
    ensures
        evaluation_prefix(p, x, m) == evaluation_prefix(p, x, n),
    decreases m,
{
    if m > n {
        lemma_evaluation_prefix_zeros(p, x, n, (m - 1) as nat);
        assert(p[m - 1] * pow(x, (m - 1) as nat) == 0) by (nonlinear_arith)
            requires
                p[m - 1] == 0,
        ;
    }
}

/// Evaluation is linear in the coefficients: where `r[i] == a * p[i] + b * q[i]`
/// for each index that is summed, the sum for `r` is `a` times the sum for `p`
/// plus `b` times the sum for `q`.
pub proof fn lemma_evaluation_prefix_linear(
    p: Seq<int>,
    q: Seq<int>,
    r: Seq<int>,
    a: int,
    b: int,
    x: int,
    n: nat,
)
    requires
        forall|i: int| 0 <= i < n ==> r[i] == a * p[i] + b * q[i],
    ensures
        evaluation_prefix(r, x, n) == a * evaluation_prefix(p, x, n) + b * evaluation_prefix(
            q,
            x,
            n,
        ),
    decreases n,
{
    if n > 0 {
        lemma_evaluation_prefix_linear(p, q, r, a, b, x, (n - 1) as nat);
        let e = pow(x, (n - 1) as nat);
        let sp = evaluation_prefix(p, x, (n - 1) as nat);
        let sq = evaluation_prefix(q, x, (n - 1) as nat);
        let pi = p[n - 1];
        let qi = q[n - 1];
        assert((a * pi + b * qi) * e == a * (pi * e) + b * (qi * e)) by (nonlinear_arith);
        assert(a * (sp + pi * e) == a * sp + a * (pi * e)) by (nonlinear_arith);
        assert(b * (sq + qi * e) == b * sq + b * (qi * e)) by (nonlinear_arith);
    } else {
        assert(a * 0 + b * 0 == 0);
    }
}

/// Moving the coefficients up by `d` places multiplies the value by `x^d`:
/// where `q` is 0 at its first `d` indices and `q[d + i] == p[i]` after them,
/// the sum of the first `d + n` terms of `q` is `x^d` times the sum of the
/// first `n` terms of `p`.
pub proof fn lemma_evaluation_prefix_shift(p: Seq<int>, q: Seq<int>, d: nat, x: int, n: nat)
    requires
        forall|i: int| 0 <= i < d ==> q[i] == 0,
        forall|i: int| 0 <= i < n ==> q[d + i] == p[i],
    ensures
        evaluation_prefix(q, x, d + n) == pow(x, d) * evaluation_prefix(p, x, n),
    decreases n,
{
    if n == 0 {
        lemma_evaluation_prefix_zeros(q, x, 0, d);
        assert(pow(x, d) * 0 == 0);
    } else {
        lemma_evaluation_prefix_shift(p, q, d, x, (n - 1) as nat);
        let c = p[n - 1];
        assert(q[d + (n - 1)] == c);
        vstd::arithmetic::power::lemma_pow_adds(x, d, (n - 1) as nat);
        let xd = pow(x, d);
        let xn = pow(x, (n - 1) as nat);
        let s = evaluation_prefix(p, x, (n - 1) as nat);
        assert(xd * s + c * (xd * xn) == xd * (s + c * xn)) by (nonlinear_arith);
    }
}

/// Polynomials whose coefficients agree modulo 2^128 have values that agree
/// modulo 2^128.
pub proof fn lemma_evaluation_prefix_congruent(p: Seq<int>, q: Seq<int>, x: int, n: nat)
    requires
        forall|i: int| 0 <= i < n ==> wrap(p[i]) == wrap(q[i]),
    ensures
        wrap(evaluation_prefix(p, x, n)) == wrap(evaluation_prefix(q, x, n)),
    decreases n,
{
    if n > 0 {
        lemma_evaluation_prefix_congruent(p, q, x, (n - 1) as nat);
        let e = pow(x, (n - 1) as nat);
        let sp = evaluation_prefix(p, x, (n - 1) as nat);
        let sq = evaluation_prefix(q, x, (n - 1) as nat);
        lemma_wrap_mul(p[n - 1], e);
        lemma_wrap_mul(q[n - 1], e);
        lemma_wrap_add(sp, p[n - 1] * e);
        lemma_wrap_add(sq, q[n - 1] * e);
    }
}

/// A value that can be evaluated as a polynomial at a point of type `X`.
pub trait Polynomial<X>: Sized {
    /// The type of the value of the polynomial.
    type Y;

    /// The value of this polynomial at `x`.
    spec fn evaluation_at(&self, x: X) -> Self::Y;

    /// Evaluates the polynomial at `x`.
    fn evaluate_as_polynomial(self, x: X) -> (y: Self::Y)
        ensures
            y == self.evaluation_at(x),
    ;
}

impl Polynomial<i128> for &[i128] {
    type Y = i128;

    open spec fn evaluation_at(&self, x: i128) -> i128 {
        wrap(evaluation(ints(self@), x as int))
    }

    fn evaluate_as_polynomial(self, x: i128) -> (y: i128) {
        slice_polynomial::evaluate_at_rt(self, x)
    }
}

impl Polynomial<i128> for Vec<i128> {
    type Y = i128;

    open spec fn evaluation_at(&self, x: i128) -> i128 {
        wrap(evaluation(ints(self@), x as int))
    }

    fn evaluate_as_polynomial(self, x: i128) -> (y: i128) {
        array_polynomial::evaluate_at_rt(self.as_slice(), x)
    }
}

impl<const N: usize> Polynomial<i128> for [i128; N] {
    type Y = i128;

    open spec fn evaluation_at(&self, x: i128) -> i128 {
        wrap(evaluation(ints(self@), x as int))
    }

    fn evaluate_as_polynomial(self, x: i128) -> (y: i128) {
        array_polynomial::evaluate_at_rt(self.as_slice(), x)
    }
}

} // verus!

//! Multiplication of two polynomials.
//!
//! The coefficients of a product are the convolution of the coefficients of
//! its factors: the coefficient at `k` is the sum of `a[i] * b[j]` over all
//! `i` and `j` with `i + j == k`. The product with the empty polynomial is
//! empty.

use crate::modular::{
    ints, lemma_wrap_add, lemma_wrap_exact, lemma_wrap_mul, plus, times, wrap, wraps,
};
use crate::polynomial::{
    evaluation, evaluation_prefix, lemma_evaluation_prefix_congruent,
    lemma_evaluation_prefix_linear, lemma_evaluation_prefix_shift, lemma_evaluation_prefix_zeros,
};
use vstd::arithmetic::power::pow;
use vstd::prelude::*;

verus! {

/// The coefficient of `p` at `i`, which is 0 outside of `p`.
pub open spec fn coefficient(p: Seq<int>, i: int) -> int {
    if 0 <= i < p.len() {
        p[i]
    } else {
        0
    }
}

/// The part of the coefficient at `k` of the product of `a` and `b` that the
/// first `n` coefficients of `a` give: the sum of `a[i] * b[k - i]` over
/// `0 <= i < n`, with 0 for `b[k - i]` outside of `b`.
pub open spec fn convolution_prefix(a: Seq<int>, b: Seq<int>, k: int, n: nat) -> int
    decreases n,
{
    if n == 0 {
        0
    } else {
        convolution_prefix(a, b, k, (n - 1) as nat) + a[n - 1] * coefficient(b, k - (n - 1))
    }
}

/// The coefficient at `k` of the product of `a` and `b`: the sum of
/// `a[i] * b[j]` over all `i` and `j` with `i + j == k`.
pub open spec fn convolution_at(a: Seq<int>, b: Seq<int>, k: int) -> int {
    convolution_prefix(a, b, k, a.len())
}

/// The number of coefficients of the product of a polynomial of `n` and one of
/// `m` coefficients.
pub open spec fn product_length(n: nat, m: nat) -> nat {
    if n == 0 || m == 0 {
        0
    } else {
        (n + m - 1) as nat
    }
}

/// The coefficients of the product of `a` and `b` over the integers.
pub open spec fn convolution(a: Seq<int>, b: Seq<int>) -> Seq<int> {
    Seq::new(product_length(a.len(), b.len()), |k: int| convolution_at(a, b, k))
}

/// The coefficients of the product of `a` and `b` modulo 2^128, which is what
/// the library computes.
pub open spec fn product(a: Seq<i128>, b: Seq<i128>) -> Seq<i128> {
    wraps(convolution(ints(a), ints(b)))
}

/// Terms whose partner lies outside of `b` add nothing: the sums over the
/// first `lo` and over the first `hi` coefficients of `a` agree where `k - i`
/// lies past the end of `b` for each `i` from `lo` to `hi - 1`, or before its
/// start for each of them.
pub proof fn lemma_convolution_prefix_window(a: Seq<int>, b: Seq<int>, k: int, lo: nat, hi: nat)
    requires
        lo <= hi,
        lo == hi || k - (hi - 1) >= b.len() || k < lo,
    ensures
        convolution_prefix(a, b, k, hi) == convolution_prefix(a, b, k, lo),
    decreases hi,
{
    if hi > lo {
        lemma_convolution_prefix_window(a, b, k, lo, (hi - 1) as nat);
        assert(a[hi - 1] * 0 == 0);
    }
}

/// The product with the empty polynomial is empty, whichever side it is on.
pub proof fn lemma_product_with_empty(a: Seq<i128>, b: Seq<i128>)
    requires
        a.len() == 0 || b.len() == 0,
    ensures
        product(a, b) == Seq::<i128>::empty(),
{
    assert(product(a, b) =~= Seq::<i128>::empty());
}

/// What the first `j` coefficients of `a` give to each of the first `len`
/// coefficients of the product of `a` and `b`.
spec fn partial_convolution(a: Seq<int>, b: Seq<int>, j: nat, len: nat) -> Seq<int> {
    Seq::new(len, |k: int| convolution_prefix(a, b, k, j))
}

/// The value of what the first `j` coefficients of `a` give to the product is
/// the value of those coefficients times the value of `b`.
proof fn lemma_partial_convolution_evaluation(a: Seq<int>, b: Seq<int>, x: int, j: nat)
    requires
        j <= a.len(),
        b.len() > 0,
    ensures
        evaluation_prefix(
            partial_convolution(a, b, j, product_length(a.len(), b.len())),
            x,
            product_length(a.len(), b.len()),
        ) == evaluation_prefix(a, x, j) * evaluation(b, x),
    decreases j,
{
    let len = product_length(a.len(), b.len());
    let whole = evaluation(b, x);
    if j == 0 {
        lemma_evaluation_prefix_zeros(partial_convolution(a, b, 0, len), x, 0, len);
        assert(0 * whole == 0);
    } else {
        let i = (j - 1) as nat;
        let before = partial_convolution(a, b, i, len);
        let now = partial_convolution(a, b, j, len);
        let moved = Seq::new(len, |k: int| coefficient(b, k - i));
        lemma_partial_convolution_evaluation(a, b, x, i);
        assert forall|k: int| 0 <= k < len implies now[k] == 1 * before[k] + a[i as int]
            * moved[k] by {}
        lemma_evaluation_prefix_linear(before, moved, now, 1, a[i as int], x, len);
        lemma_evaluation_prefix_zeros(moved, x, i + b.len(), len);
        lemma_evaluation_prefix_shift(b, moved, i, x, b.len());
        let sa = evaluation_prefix(a, x, i);
        let c = a[i as int];
        let e = pow(x, i);
        assert(1 * (sa * whole) + c * (e * whole) == (sa + c * e) * whole) by (nonlinear_arith);
    }
}

/// Multiplication of polynomials is multiplication of their values: the value
/// of the product at `x` is the product of the values of the factors at `x`.
pub proof fn lemma_convolution_evaluation(a: Seq<int>, b: Seq<int>, x: int)
    ensures
        evaluation(convolution(a, b), x) == evaluation(a, x) * evaluation(b, x),
{
    if a.len() == 0 {
        assert(0 * evaluation(b, x) == 0);
    } else if b.len() == 0 {
        assert(evaluation(a, x) * 0 == 0);
    } else {
        let len = product_length(a.len(), b.len());
        lemma_partial_convolution_evaluation(a, b, x, a.len());
        assert(partial_convolution(a, b, a.len(), len) =~= convolution(a, b));
    }
}

/// The same of what the library computes: the value of the computed product
/// at `x` is the product of the computed values of the factors at `x`, all of
/// them modulo 2^128.
pub proof fn lemma_product_evaluation(a: Seq<i128>, b: Seq<i128>, x: i128)
    ensures
        wrap(evaluation(ints(product(a, b)), x as int)) == wrap(
            wrap(evaluation(ints(a), x as int)) * wrap(evaluation(ints(b), x as int)),
        ),
{
    let exact = convolution(ints(a), ints(b));
    let computed = ints(product(a, b));
    assert forall|i: int| 0 <= i < exact.len() implies wrap(computed[i]) == wrap(exact[i]) by {
        lemma_wrap_exact(wrap(exact[i]) as int);
    }
    lemma_evaluation_prefix_congruent(computed, exact, x as int, exact.len());
    lemma_convolution_evaluation(ints(a), ints(b), x as int);
    lemma_wrap_mul(evaluation(ints(a), x as int), evaluation(ints(b), x as int));
}

/// The product of `a` and `b`.
pub fn convolve(a: &[i128], b: &[i128]) -> (y: Vec<i128>)
    ensures
        y@ == product(a@, b@),
{
    let mut y: Vec<i128> = Vec::new();
    convolve_into(a, b, &mut y);
    y
}

/// Puts the product of `a` and `b` in place of the contents of `y`.
pub fn convolve_into(a: &[i128], b: &[i128], y: &mut Vec<i128>)
    ensures
        final(y)@ == product(a@, b@),
{
    let n1 = a.len();
    let n2 = b.len();
    y.clear();
    if n1 == 0 || n2 == 0 {
        assert(y@ =~= product(a@, b@));
        return ;
    }
    let ghost ia = ints(a@);
    let ghost ib = ints(b@);
    loop
        invariant_except_break
            n1 == a@.len(),
            n2 == b@.len(),
            n1 > 0,
            n2 > 0,
            ia == ints(a@),
            ib == ints(b@),
            y@.len() <= n1 + n2 - 1,
            forall|k: int| 0 <= k < y@.len() ==> #[trigger] y@[k] == wrap(convolution_at(ia, ib, k)),
        ensures
            y@ == product(a@, b@),
        decreases n1 + n2 - 1 - y@.len(),
    {
        let k = y.len();
        if !(k < n2 || k - n2 < n1 - 1) {
            assert(y@ =~= product(a@, b@));
            break ;
        }
        let mut i = k.saturating_sub(n2 - 1);
        let upper = if k < n1 - 1 {
            k
        } else {
            n1 - 1
        };
        let mut sum = i128::default();
        proof {
            lemma_wrap_exact(0);
            lemma_convolution_prefix_window(ia, ib, k as int, 0, i as nat);
        }
        while i <= upper
            invariant
                n1 == a@.len(),
                n2 == b@.len(),
                ia == ints(a@),
                ib == ints(b@),
                k < n1 + n2 - 1,
                upper == if k < n1 - 1 { k as int } else { n1 - 1 },
                k - (n2 - 1) <= i <= upper + 1,
                sum == wrap(convolution_prefix(ia, ib, k as int, i as nat)),
            decreases upper + 1 - i,
        {
            let j = k - i;
            proof {
                let s = convolution_prefix(ia, ib, k as int, i as nat);
                lemma_wrap_mul(ia[i as int], ib[j as int]);
                lemma_wrap_add(s, ia[i as int] * ib[j as int]);
            }
            sum = plus(sum, times(a[i], b[j]));
            i += 1;
        }
        proof {
            lemma_convolution_prefix_window(ia, ib, k as int, i as nat, n1 as nat);
        }
        y.push(sum);
    }
}

/// A polynomial that can be multiplied by a polynomial of type `Rhs`.
pub trait MulPolynomial<Rhs>: Sized {
    /// The type of the product.
    type Output: View;

    /// The coefficients of the product of this polynomial and `rhs`.
    spec fn product_with(&self, rhs: &Rhs) -> <Self::Output as View>::V;

    /// Multiplies two polynomials, and yields a new, larger polynomial.
    fn mul_polynomial(self, rhs: Rhs) -> (y: Self::Output)
        ensures
            y@ == self.product_with(&rhs),
    ;
}

impl<const N1: usize, const N2: usize> MulPolynomial<[i128; N2]> for [i128; N1] {
    type Output = Vec<i128>;

    open spec fn product_with(&self, rhs: &[i128; N2]) -> Seq<i128> {
        product(self@, rhs@)
    }

    fn mul_polynomial(self, rhs: [i128; N2]) -> (y: Vec<i128>) {
        convolve(self.as_slice(), rhs.as_slice())
    }
}

impl<'a, 'b> MulPolynomial<&'b [i128]> for &'a [i128] {
    type Output = Vec<i128>;

    open spec fn product_with(&self, rhs: &&'b [i128]) -> Seq<i128> {
        product(self@, rhs@)
    }

    fn mul_polynomial(self, rhs: &'b [i128]) -> (y: Vec<i128>) {
        convolve(self, rhs)
    }
}

impl MulPolynomial<Vec<i128>> for Vec<i128> {
    type Output = Vec<i128>;

    open spec fn product_with(&self, rhs: &Vec<i128>) -> Seq<i128> {
        product(self@, rhs@)
    }

    fn mul_polynomial(self, rhs: Vec<i128>) -> (y: Vec<i128>) {
        self.as_slice().mul_polynomial(rhs.as_slice())
    }
}

impl<'b> MulPolynomial<&'b [i128]> for Vec<i128> {
    type Output = Vec<i128>;

    open spec fn product_with(&self, rhs: &&'b [i128]) -> Seq<i128> {
        product(self@, rhs@)
    }

    fn mul_polynomial(self, rhs: &'b [i128]) -> (y: Vec<i128>) {
        self.as_slice().mul_polynomial(rhs)
    }
}

impl<'a> MulPolynomial<Vec<i128>> for &'a [i128] {
    type Output = Vec<i128>;

    open spec fn product_with(&self, rhs: &Vec<i128>) -> Seq<i128> {
        product(self@, rhs@)
    }

    fn mul_polynomial(self, rhs: Vec<i128>) -> (y: Vec<i128>) {
        self.mul_polynomial(rhs.as_slice())
    }
}

impl<'b, const N: usize> MulPolynomial<&'b [i128]> for [i128; N] {
    type Output = Vec<i128>;

    open spec fn product_with(&self, rhs: &&'b [i128]) -> Seq<i128> {
        product(self@, rhs@)
    }

    fn mul_polynomial(self, rhs: &'b [i128]) -> (y: Vec<i128>) {
        self.as_slice().mul_polynomial(rhs)
    }
}

impl<const N: usize> MulPolynomial<Vec<i128>> for [i128; N] {
    type Output = Vec<i128>;

    open spec fn product_with(&self, rhs: &Vec<i128>) -> Seq<i128> {
        product(self@, rhs@)
    }

    fn mul_polynomial(self, rhs: Vec<i128>) -> (y: Vec<i128>) {
        self.as_slice().mul_polynomial(rhs)
    }
}

impl<'a, const N: usize> MulPolynomial<[i128; N]> for &'a [i128] {
    type Output = Vec<i128>;

    open spec fn product_with(&self, rhs: &[i128; N]) -> Seq<i128> {
        product(self@, rhs@)
    }

    fn mul_polynomial(self, rhs: [i128; N]) -> (y: Vec<i128>) {
        self.mul_polynomial(rhs.as_slice())
    }
}

impl<const N: usize> MulPolynomial<[i128; N]> for Vec<i128> {
    type Output = Vec<i128>;

    open spec fn product_with(&self, rhs: &[i128; N]) -> Seq<i128> {
        product(self@, rhs@)
    }

    fn mul_polynomial(self, rhs: [i128; N]) -> (y: Vec<i128>) {
        self.mul_polynomial(rhs.as_slice())
    }
}

} // verus!

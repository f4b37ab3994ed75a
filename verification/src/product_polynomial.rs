//! The product of many polynomials.
//!
//! The polynomials are multiplied from left to right. The product of no
//! polynomial at all is the empty polynomial, and the product of one
//! polynomial is that polynomial.

use crate::modular::{ints, lemma_wrap_mul, wrap};
use crate::mul_polynomial::{
    convolve, convolve_into, lemma_product_evaluation, product, product_length,
};
use crate::polynomial::evaluation;
use vstd::prelude::*;

verus! {

/// The product of the polynomials `ps`, multiplied from left to right.
pub open spec fn product_of(ps: Seq<Seq<i128>>) -> Seq<i128>
    decreases ps.len(),
{
    if ps.len() == 0 {
        Seq::empty()
    } else if ps.len() == 1 {
        ps[0]
    } else {
        product(product_of(ps.drop_last()), ps.last())
    }
}

/// The product of the values at `x` of the polynomials `ps`, over the integers.
pub open spec fn product_of_values(ps: Seq<Seq<i128>>, x: int) -> int
    decreases ps.len(),
{
    if ps.len() == 0 {
        1
    } else {
        product_of_values(ps.drop_last(), x) * evaluation(ints(ps.last()), x)
    }
}

/// The number of coefficients of the product of a polynomial of `n` and one of
/// `m` coefficients.
pub fn polynomial_product_length(n: usize, m: usize) -> (len: usize)
    requires
        product_length(n as nat, m as nat) <= usize::MAX,
    ensures
        len == product_length(n as nat, m as nat),
{
    if n == 0 || m == 0 {
        return 0;
    }
    n + (m - 1)
}

/// The product of two polynomials is their product as `mul_polynomial` gives it.
pub proof fn lemma_product_of_pair(a: Seq<i128>, b: Seq<i128>)
    ensures
        product_of(seq![a, b]) == product(a, b),
{
    let ps = seq![a, b];
    assert(ps.drop_last() =~= seq![a]);
    assert(product_of(ps.drop_last()) == a);
}

/// The product of three polynomials is the product of the first two, times the
/// third.
pub proof fn lemma_product_of_triple(a: Seq<i128>, b: Seq<i128>, c: Seq<i128>)
    ensures
        product_of(seq![a, b, c]) == product(product(a, b), c),
{
    let ps = seq![a, b, c];
    assert(ps.drop_last() =~= seq![a, b]);
    lemma_product_of_pair(a, b);
}

/// The value of a product of polynomials is the product of their values,
/// modulo 2^128. The product of no polynomial is left out: it is the empty
/// polynomial, whose value is 0.
pub proof fn lemma_product_of_evaluation(ps: Seq<Seq<i128>>, x: i128)
    requires
        ps.len() > 0,
    ensures
        wrap(evaluation(ints(product_of(ps)), x as int)) == wrap(product_of_values(ps, x as int)),
    decreases ps.len(),
{
    let last = evaluation(ints(ps.last()), x as int);
    if ps.len() == 1 {
        assert(ps.drop_last().len() == 0);
        assert(product_of_values(ps.drop_last(), x as int) == 1);
        assert(1 * last == last);
    } else {
        let rest = ps.drop_last();
        lemma_product_of_evaluation(rest, x);
        lemma_product_evaluation(product_of(rest), ps.last(), x);
        lemma_wrap_mul(evaluation(ints(product_of(rest)), x as int), last);
        lemma_wrap_mul(product_of_values(rest, x as int), last);
    }
}

/// The number of coefficients of the product of `count` polynomials of `n`
/// coefficients each: none for no polynomial or empty ones, else one more than
/// `count` times the degree `n - 1`.
pub proof fn lemma_product_of_uniform_length(ps: Seq<Seq<i128>>, n: nat)
    requires
        forall|i: int| 0 <= i < ps.len() ==> (#[trigger] ps[i]).len() == n,
    ensures
        product_of(ps).len() == if ps.len() == 0 || n == 0 {
            0
        } else {
            ps.len() * (n - 1) + 1
        },
    decreases ps.len(),
{
    if ps.len() == 1 {
        assert(1 * (n - 1) + 1 == n);
    } else if ps.len() > 1 {
        lemma_product_of_uniform_length(ps.drop_last(), n);
        if n > 0 {
            assert((ps.len() - 1) * (n - 1) + 1 + n - 1 == ps.len() * (n - 1) + 1)
                by (nonlinear_arith);
        }
    }
}

/// A value that holds the coefficients of one polynomial.
pub trait Coefficients {
    /// The coefficients, the constant term first.
    spec fn coefficients(&self) -> Seq<i128>;

    /// The coefficients as a slice.
    fn as_coefficients(&self) -> (s: &[i128])
        ensures
            s@ == self.coefficients(),
    ;
}

impl Coefficients for Vec<i128> {
    open spec fn coefficients(&self) -> Seq<i128> {
        self@
    }

    fn as_coefficients(&self) -> (s: &[i128]) {
        self.as_slice()
    }
}

impl<'a> Coefficients for &'a [i128] {
    open spec fn coefficients(&self) -> Seq<i128> {
        self@
    }

    fn as_coefficients(&self) -> (s: &[i128]) {
        self
    }
}

impl<const N: usize> Coefficients for [i128; N] {
    open spec fn coefficients(&self) -> Seq<i128> {
        self@
    }

    fn as_coefficients(&self) -> (s: &[i128]) {
        self.as_slice()
    }
}

impl<'a, const N: usize> Coefficients for &'a [i128; N] {
    open spec fn coefficients(&self) -> Seq<i128> {
        self@
    }

    fn as_coefficients(&self) -> (s: &[i128]) {
        self.as_slice()
    }
}

/// The coefficients of each of the polynomials `ps`.
pub open spec fn all_coefficients<E: Coefficients>(ps: Seq<E>) -> Seq<Seq<i128>> {
    Seq::new(ps.len(), |i: int| ps[i].coefficients())
}

/// The product of the polynomials in `ps`, in a buffer of its own.
pub fn product_of_slice<E: Coefficients>(ps: &[E]) -> (y: Vec<i128>)
    ensures
        y@ == product_of(all_coefficients(ps@)),
{
    let count = ps.len();
    if count == 0 {
        return Vec::new();
    }
    let ghost all = all_coefficients(ps@);
    let mut y = vstd::slice::slice_to_vec(ps[0].as_coefficients());
    proof {
        assert(all.take(1) =~= seq![all[0]]);
    }
    let mut k: usize = 1;
    while k < count
        invariant
            1 <= k <= count,
            count == ps@.len(),
            all == all_coefficients(ps@),
            y@ == product_of(all.take(k as int)),
        decreases count - k,
    {
        proof {
            assert(all.take(k + 1).drop_last() =~= all.take(k as int));
        }
        y = convolve(y.as_slice(), ps[k].as_coefficients());
        k += 1;
    }
    proof {
        assert(all.take(count as int) =~= all);
    }
    y
}

/// A collection of polynomials that can be multiplied together.
pub trait ProductPolynomial: Sized {
    /// The type of the product.
    type Output: View;

    /// The coefficients of the product of all the polynomials.
    spec fn product_of_all(&self) -> <Self::Output as View>::V;

    /// Multiplies all polynomials together.
    fn product_polynomial(self) -> (y: Self::Output)
        ensures
            y@ == self.product_of_all(),
    ;
}

impl<const N: usize, const M: usize> ProductPolynomial for [[i128; N]; M] {
    type Output = Vec<i128>;

    open spec fn product_of_all(&self) -> Seq<i128> {
        product_of(all_coefficients(self@))
    }

    /// Multiplies the running product by one polynomial after the other. The
    /// running product and one scratch buffer are the only buffers: each
    /// multiplication writes into the one that does not hold the running
    /// product, and the two change places.
    fn product_polynomial(self) -> (y: Vec<i128>) {
        let mut y: Vec<i128> = Vec::new();
        if M == 0 {
            return y;
        }
        let ghost all = all_coefficients(self@);
        let mut scratch: Vec<i128> = Vec::new();
        let mut i: usize = 0;
        while i < N
            invariant
                i <= N,
                0 < M,
                y@ == self@[0]@.take(i as int),
            decreases N - i,
        {
            y.push(self[0][i]);
            proof {
                assert(self@[0]@.take(i + 1) =~= self@[0]@.take(i as int).push(self@[0]@[i as int]));
            }
            i += 1;
        }
        proof {
            assert(self@[0]@.take(N as int) =~= self@[0]@);
            assert(all.take(1) =~= seq![all[0]]);
        }
        let mut k: usize = 1;
        while k < M
            invariant
                1 <= k <= M,
                all == all_coefficients(self@),
                y@ == product_of(all.take(k as int)),
            decreases M - k,
        {
            proof {
                assert(all.take(k + 1).drop_last() =~= all.take(k as int));
            }
            convolve_into(y.as_slice(), self[k].as_slice(), &mut scratch);
            core::mem::swap(&mut y, &mut scratch);
            k += 1;
        }
        proof {
            assert(all.take(M as int) =~= all);
        }
        y
    }
}

impl<E: Coefficients> ProductPolynomial for Vec<E> {
    type Output = Vec<i128>;

    open spec fn product_of_all(&self) -> Seq<i128> {
        product_of(all_coefficients(self@))
    }

    fn product_polynomial(self) -> (y: Vec<i128>) {
        product_of_slice(self.as_slice())
    }
}

impl<'a, E: Coefficients> ProductPolynomial for &'a [E] {
    type Output = Vec<i128>;

    open spec fn product_of_all(&self) -> Seq<i128> {
        product_of(all_coefficients(self@))
    }

    fn product_polynomial(self) -> (y: Vec<i128>) {
        product_of_slice(self)
    }
}

impl<const N: usize> ProductPolynomial for [Vec<i128>; N] {
    type Output = Vec<i128>;

    open spec fn product_of_all(&self) -> Seq<i128> {
        product_of(all_coefficients(self@))
    }

    fn product_polynomial(self) -> (y: Vec<i128>) {
        product_of_slice(self.as_slice())
    }
}

impl<'a, const N: usize> ProductPolynomial for [&'a [i128]; N] {
    type Output = Vec<i128>;

    open spec fn product_of_all(&self) -> Seq<i128> {
        product_of(all_coefficients(self@))
    }

    fn product_polynomial(self) -> (y: Vec<i128>) {
        product_of_slice(self.as_slice())
    }
}

impl<'a, const N: usize> ProductPolynomial for &'a [Vec<i128>; N] {
    type Output = Vec<i128>;

    open spec fn product_of_all(&self) -> Seq<i128> {
        product_of(all_coefficients(self@))
    }

    fn product_polynomial(self) -> (y: Vec<i128>) {
        product_of_slice(self.as_slice())
    }
}

impl<'a, 'b, const N: usize> ProductPolynomial for &'a [&'b [i128]; N] {
    type Output = Vec<i128>;

    open spec fn product_of_all(&self) -> Seq<i128> {
        product_of(all_coefficients(self@))
    }

    fn product_polynomial(self) -> (y: Vec<i128>) {
        product_of_slice(self.as_slice())
    }
}

} // verus!

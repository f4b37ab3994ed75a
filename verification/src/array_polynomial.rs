//! A polynomial with a fixed number of coefficients, held in an array.

use crate::modular::{ints, times, wrap};
use crate::mul_polynomial::{convolve, product};
use crate::polynomial::{array_polynomial, evaluation};
use vstd::prelude::*;

verus! {

/// A polynomial with the `N` coefficients of the array, the constant term
/// first.
#[derive(Clone, Copy, Debug)]
pub struct ArrayPolynomial<const N: usize>(pub [i128; N]);

impl<const N: usize> ArrayPolynomial<N> {
    /// The polynomial with the coefficients `array`.
    pub fn from(array: [i128; N]) -> (p: Self)
        ensures
            p.0 == array,
    {
        Self(array)
    }

    /// The coefficients of the polynomial.
    pub fn into_array(self) -> (array: [i128; N])
        ensures
            array == self.0,
    {
        self.0
    }

    /// The coefficients of the polynomial.
    pub fn get_array(&self) -> (array: &[i128; N])
        ensures
            *array == self.0,
    {
        &self.0
    }

    /// The coefficients of the polynomial, to be changed in place.
    pub fn get_array_mut(&mut self) -> (array: &mut [i128; N])
        ensures
            *array == old(self).0,
            final(self).0 == *final(array),
    {
        &mut self.0
    }

    /// The value of the polynomial at `x`.
    pub fn evaluate(self, x: i128) -> (y: i128)
        ensures
            y == wrap(evaluation(ints(self.0@), x as int)),
    {
        self.evaluate_at_rt(x)
    }

    /// The products of the coefficients of the two polynomials, index by
    /// index.
    pub fn mul_each(self, rhs: ArrayPolynomial<N>) -> (p: ArrayPolynomial<N>)
        ensures
            forall|i: int| 0 <= i < N ==> #[trigger] p.0@[i] == wrap(self.0@[i] * rhs.0@[i]),
    {
        self.mul_each_at_rt(rhs)
    }

    /// The polynomial times the constant `rhs`: each coefficient times `rhs`.
    pub fn mul_every(self, rhs: i128) -> (p: ArrayPolynomial<N>)
        ensures
            forall|i: int| 0 <= i < N ==> #[trigger] p.0@[i] == wrap(self.0@[i] * rhs),
    {
        let mut array = self.0;
        let mut i: usize = 0;
        while i < N
            invariant
                i <= N,
                forall|k: int| 0 <= k < i ==> #[trigger] array@[k] == wrap(self.0@[k] * rhs),
                forall|k: int| i <= k < N ==> #[trigger] array@[k] == self.0@[k],
            decreases N - i,
        {
            array[i] = times(array[i], rhs);
            i += 1;
        }
        ArrayPolynomial(array)
    }

    /// The value of the polynomial at `x`, from the array itself.
    pub fn evaluate_const(self, x: i128) -> (y: i128)
        ensures
            y == wrap(evaluation(ints(self.0@), x as int)),
    {
        array_polynomial::evaluate_const(self.0, x)
    }

    /// The value of the polynomial at `x`, from the array as a slice.
    pub fn evaluate_at_rt(self, x: i128) -> (y: i128)
        ensures
            y == wrap(evaluation(ints(self.0@), x as int)),
    {
        array_polynomial::evaluate_at_rt(self.0.as_slice(), x)
    }

    /// The products of the coefficients of the two polynomials, index by
    /// index.
    pub fn mul_each_const(self, rhs: ArrayPolynomial<N>) -> (p: ArrayPolynomial<N>)
        ensures
            forall|i: int| 0 <= i < N ==> #[trigger] p.0@[i] == wrap(self.0@[i] * rhs.0@[i]),
    {
        self.mul_each_at_rt(rhs)
    }

    /// The products of the coefficients of the two polynomials, index by
    /// index.
    pub fn mul_each_at_rt(self, rhs: ArrayPolynomial<N>) -> (p: ArrayPolynomial<N>)
        ensures
            forall|i: int| 0 <= i < N ==> #[trigger] p.0@[i] == wrap(self.0@[i] * rhs.0@[i]),
    {
        let mut array = self.0;
        let mut i: usize = 0;
        while i < N
            invariant
                i <= N,
                forall|k: int| 0 <= k < i ==> #[trigger] array@[k] == wrap(self.0@[k] * rhs.0@[k]),
                forall|k: int| i <= k < N ==> #[trigger] array@[k] == self.0@[k],
            decreases N - i,
        {
            array[i] = times(array[i], rhs.0[i]);
            i += 1;
        }
        ArrayPolynomial(array)
    }

    /// The product of the two polynomials.
    pub fn mul_polynomial<const M: usize>(self, rhs: ArrayPolynomial<M>) -> (y: Vec<i128>)
        ensures
            y@ == product(self.0@, rhs.0@),
    {
        convolve(self.0.as_slice(), rhs.0.as_slice())
    }
}

} // verus!

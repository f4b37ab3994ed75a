//! Evaluation of a polynomial held in a slice.

use crate::modular::{ints, lemma_wrap_exact, plus, times, wrap};
use crate::polynomial::{evaluation, evaluation_prefix, lemma_evaluation_step};
use vstd::arithmetic::power::{lemma_pow0, lemma_pow1, pow};
use vstd::prelude::*;

verus! {

/// Evaluates `polynomial` at `x`, starting from the constant term and adding
/// one term per further coefficient, with a running power of `x`.
pub fn evaluate_const(polynomial: &[i128], x: i128) -> (y: i128)
    ensures
        y == wrap(evaluation(ints(polynomial@), x as int)),
{
    let n = polynomial.len();
    if n == 0 {
        proof {
            lemma_wrap_exact(0);
        }
        return i128::default();
    }
    let ghost p = ints(polynomial@);
    let mut y = polynomial[0];
    let mut xn = x;
    proof {
        lemma_pow0(x as int);
        lemma_pow1(x as int);
        reveal_with_fuel(evaluation_prefix, 2);
        lemma_wrap_exact(y as int);
        lemma_wrap_exact(x as int);
    }
    let mut i: usize = 1;
    while i < n
        invariant
            1 <= i <= n,
            n == polynomial@.len(),
            p == ints(polynomial@),
            y == wrap(evaluation_prefix(p, x as int, i as nat)),
            xn == wrap(pow(x as int, i as nat)),
        decreases n - i,
    {
        proof {
            lemma_evaluation_step(p, x as int, i as nat, y, xn);
        }
        y = plus(y, times(xn, polynomial[i]));
        xn = times(xn, x);
        i += 1;
    }
    y
}

/// Evaluates `polynomial` at `x`.
pub fn evaluate_at_rt(polynomial: &[i128], x: i128) -> (y: i128)
    ensures
        y == wrap(evaluation(ints(polynomial@), x as int)),
{
    crate::polynomial::array_polynomial::evaluate_at_rt(polynomial, x)
}

} // verus!

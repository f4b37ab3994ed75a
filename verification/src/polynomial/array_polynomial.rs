//! Evaluation of a polynomial as a sum of its terms, taken in order.

use crate::modular::{ints, lemma_wrap_exact, plus, times, wrap};
use crate::polynomial::{evaluation, evaluation_prefix, lemma_evaluation_step};
use vstd::arithmetic::power::{lemma_pow0, lemma_pow1, pow};
use vstd::prelude::*;

verus! {

/// What the sum of the terms is once `i` of them were added: nothing before
/// the first, then the reduced sum of the first `i` terms.
pub open spec fn sum_so_far(p: Seq<int>, x: int, i: nat) -> Option<i128> {
    if i == 0 {
        None
    } else {
        Some(wrap(evaluation_prefix(p, x, i)))
    }
}

/// The power of `x` that the next term is multiplied by, once `i` terms were
/// made: `x` itself until the second term is made, then one power more for
/// each further term.
pub open spec fn next_power(x: int, i: nat) -> i128 {
    if i == 0 {
        wrap(x)
    } else {
        wrap(pow(x, i))
    }
}

/// The term that belongs to the coefficient `c` at index `i`: the coefficient
/// itself at index 0, where no power of `x` is involved, and `xn * c` after it.
fn term(one: bool, xn: i128, c: i128) -> (t: i128)
    ensures
        t == if one { c } else { wrap(xn * c) },
{
    if one {
        c
    } else {
        times(xn, c)
    }
}

/// Adds `t` to what has been summed, which is nothing before the first term.
fn reduce_step(sum: Option<i128>, t: i128) -> (r: Option<i128>)
    ensures
        r == match sum {
            None => Some(t),
            Some(a) => Some(wrap(a + t)),
        },
{
    match sum {
        None => Some(t),
        Some(a) => Some(plus(a, t)),
    }
}

proof fn lemma_term_added(p: Seq<int>, x: int, i: nat, one: bool, xn: i128, sum: Option<i128>)
    requires
        i < p.len(),
        i128::MIN <= x <= i128::MAX,
        i128::MIN <= p[i as int] <= i128::MAX,
        one == (i == 0),
        xn == next_power(x, i),
        sum == sum_so_far(p, x, i),
    ensures
        (match sum {
            None => Some(if one { p[i as int] as i128 } else { wrap(xn * p[i as int]) }),
            Some(a) => Some(wrap(a + (if one { p[i as int] as i128 } else { wrap(xn * p[i as int]) }))),
        }) == sum_so_far(p, x, i + 1),
        (if one { xn } else { wrap(xn * x) }) == next_power(x, i + 1),
{
    if i == 0 {
        lemma_pow0(x);
        lemma_pow1(x);
        reveal_with_fuel(evaluation_prefix, 2);
        lemma_wrap_exact(p[0]);
        lemma_wrap_exact(x);
    } else {
        lemma_evaluation_step(p, x, i, sum->0, xn);
    }
}

/// Evaluates the polynomial in the array `polynomial` at `x`: the sum of one
/// term per coefficient, or the default value where there is none.
pub fn evaluate_const<const N: usize>(polynomial: [i128; N], x: i128) -> (y: i128)
    ensures
        y == wrap(evaluation(ints(polynomial@), x as int)),
{
    evaluate_at_rt(polynomial.as_slice(), x)
}

/// Evaluates `polynomial` at `x`: the sum of one term per coefficient, or the
/// default value where there is none.
pub fn evaluate_at_rt(polynomial: &[i128], x: i128) -> (y: i128)
    ensures
        y == wrap(evaluation(ints(polynomial@), x as int)),
{
    let n = polynomial.len();
    let ghost p = ints(polynomial@);
    let mut one = true;
    let mut xn = x;
    let mut sum: Option<i128> = None;
    proof {
        lemma_wrap_exact(x as int);
    }
    let mut i: usize = 0;
    while i < n
        invariant
            i <= n,
            n == polynomial@.len(),
            p == ints(polynomial@),
            one == (i == 0),
            xn == next_power(x as int, i as nat),
            sum == sum_so_far(p, x as int, i as nat),
        decreases n - i,
    {
        let c = polynomial[i];
        proof {
            lemma_term_added(p, x as int, i as nat, one, xn, sum);
        }
        let t = term(one, xn, c);
        if one {
            one = false;
        } else {
            xn = times(xn, x);
        }
        sum = reduce_step(sum, t);
        i += 1;
    }
    proof {
        lemma_wrap_exact(0);
    }
    sum.unwrap_or(i128::default())
}

} // verus!

//! Chebyshev polynomials, as coefficients and as values.
//!
//! The polynomial of order 0 is 1, the polynomial of order 1 is `kind * x`,
//! and each further one is `2 * x` times the one before it minus the one
//! before that. The kinds 1 and 2 are the classical Chebyshev polynomials of
//! the first and of the second kind.

use crate::modular::{
    ints, lemma_wrap_exact, lemma_wrap_mul, lemma_wrap_sub, minus, negated, times, wrap, wraps,
};
use crate::polynomial::{
    evaluation, evaluation_prefix, lemma_evaluation_prefix_congruent,
    lemma_evaluation_prefix_linear, lemma_evaluation_prefix_shift, lemma_evaluation_prefix_zeros,
    Polynomial,
};
use vstd::arithmetic::power::{lemma_pow0, lemma_pow1};
use vstd::prelude::*;
use vstd::std_specs::convert::{FromSpecImpl, TryFromSpecImpl};

verus! {

/// The Chebyshev polynomial of the given kind and order.
#[derive(Clone, Copy, Debug)]
pub struct ChebyshevPolynomial {
    pub kind: usize,
    pub order: usize,
}

/// The value at `x` of the Chebyshev polynomial of the given kind and order.
pub open spec fn chebyshev_value(kind: int, order: nat, x: int) -> int
    decreases order,
{
    if order == 0 {
        1
    } else if order == 1 {
        kind * x
    } else {
        2 * x * chebyshev_value(kind, (order - 1) as nat, x) - chebyshev_value(
            kind,
            (order - 2) as nat,
            x,
        )
    }
}

/// The coefficient of `x^i` in the Chebyshev polynomial of the given kind and
/// order. It is 0 for every `i` outside `0..=order`.
pub open spec fn chebyshev_coefficient(kind: int, order: nat, i: int) -> int
    decreases order,
{
    if i < 0 || i > order {
        0
    } else if order == 0 {
        1
    } else if order == 1 {
        if i == 1 {
            kind
        } else {
            0
        }
    } else {
        2 * chebyshev_coefficient(kind, (order - 1) as nat, i - 1) - chebyshev_coefficient(
            kind,
            (order - 2) as nat,
            i,
        )
    }
}

/// The first `len` coefficients of the Chebyshev polynomial of the given kind
/// and order. With `len == order + 1` these are all of them; a longer sequence
/// ends in zeros.
pub open spec fn chebyshev_coefficients(kind: int, order: nat, len: nat) -> Seq<int> {
    Seq::new(len, |i: int| chebyshev_coefficient(kind, order, i))
}

/// The multiplicative identity of `i128` as `num_traits::One::one` gives it,
/// which is 1.
#[verifier::external_body]
fn one() -> (r: i128)
    ensures
        r == 1,
{
    num_traits::One::one()
}

/// The additive identity of `i128` as `num_traits::Zero::zero` gives it, which
/// is 0.
#[verifier::external_body]
fn zero() -> (r: i128)
    ensures
        r == 0,
{
    num_traits::Zero::zero()
}

/// The kind as a coefficient: `one` added to `zero` `kind` times.
fn kind_coefficient(kind: usize, zero: i128, one: i128) -> (kind_c: i128)
    requires
        zero == 0,
        one == 1,
    ensures
        kind_c == kind,
{
    let mut kind_c = zero;
    let mut k: usize = 0;
    while k < kind
        invariant
            k <= kind,
            kind_c == k,
            one == 1,
        decreases kind - k,
    {
        kind_c += one;
        k += 1;
    }
    kind_c
}

impl ChebyshevPolynomial {
    pub fn new(kind: usize, order: usize) -> (p: Self)
        ensures
            p.kind == kind,
            p.order == order,
    {
        Self { kind, order }
    }

    pub fn new_of_first_kind(order: usize) -> (p: Self)
        ensures
            p.kind == 1,
            p.order == order,
    {
        Self::new(1, order)
    }

    pub fn new_of_second_kind(order: usize) -> (p: Self)
        ensures
            p.kind == 2,
            p.order == order,
    {
        Self::new(2, order)
    }
}

/// The value at `x` of the Chebyshev polynomial `p`, by the recurrence on
/// values, in `p.order` steps and without any coefficient.
fn evaluate_chebyshev_given_one_and_zero(
    p: ChebyshevPolynomial,
    x: i128,
    zero: i128,
    one: i128,
    two: i128,
) -> (y: i128)
    requires
        zero == 0,
        one == 1,
        two == 2,
    ensures
        y == wrap(chebyshev_value(p.kind as int, p.order as nat, x as int)),
{
    let mut t_prev = one;
    proof {
        lemma_wrap_exact(1);
    }
    if p.order == 0 {
        return t_prev;
    }
    let kind_c = kind_coefficient(p.kind, zero, one);
    let mut t = times(x, kind_c);
    proof {
        assert(x * kind_c == kind_c * x) by (nonlinear_arith);
    }
    let mut k: usize = 1;
    while k < p.order
        invariant
            1 <= k <= p.order,
            two == 2,
            t == wrap(chebyshev_value(p.kind as int, k as nat, x as int)),
            t_prev == wrap(chebyshev_value(p.kind as int, (k - 1) as nat, x as int)),
        decreases p.order - k,
    {
        proof {
            let v = chebyshev_value(p.kind as int, k as nat, x as int);
            let u = chebyshev_value(p.kind as int, (k - 1) as nat, x as int);
            lemma_wrap_mul(2 * x, v);
            lemma_wrap_sub(2 * x * v, u);
        }
        let t_next = minus(times(times(two, x), t), t_prev);
        t_prev = t;
        t = t_next;
        k += 1;
    }
    t
}

/// The recurrence on coefficients holds at every index, also outside the
/// polynomial, where all three coefficients are 0.
pub proof fn lemma_chebyshev_recurrence(kind: int, order: nat, i: int)
    requires
        order >= 2,
    ensures
        chebyshev_coefficient(kind, order, i) == 2 * chebyshev_coefficient(
            kind,
            (order - 1) as nat,
            i - 1,
        ) - chebyshev_coefficient(kind, (order - 2) as nat, i),
{
}

/// One coefficient of the next polynomial, from the reduced coefficients of the
/// two before it.
proof fn lemma_next_coefficient(kind: int, k: nat, i: int, below: i128, before: i128)
    requires
        k >= 1,
        below == wrap(chebyshev_coefficient(kind, k, i - 1)),
        before == wrap(chebyshev_coefficient(kind, (k - 1) as nat, i)),
    ensures
        wrap(wrap(2 * below) - before) == wrap(chebyshev_coefficient(kind, k + 1, i)),
{
    let c = chebyshev_coefficient(kind, k, i - 1);
    let b = chebyshev_coefficient(kind, (k - 1) as nat, i);
    lemma_chebyshev_recurrence(kind, k + 1, i);
    lemma_wrap_mul(2, c);
    lemma_wrap_sub(2 * c, b);
}

/// The coefficients of the Chebyshev polynomial of the given kind and order in
/// an array of `N`, where they fit: where `order < N`.
fn chebyshev_array_with_one_and_zero_given_as<const N: usize>(
    kind: usize,
    order: usize,
    zero: i128,
    one: i128,
    two: i128,
) -> (r: Option<[i128; N]>)
    requires
        zero == 0,
        one == 1,
        two == 2,
    ensures
        r is Some <==> order < N,
        r matches Some(t) ==> t@ == wraps(
            chebyshev_coefficients(kind as int, order as nat, N as nat),
        ),
{
    if order >= N {
        return None;
    }
    proof {
        lemma_wrap_exact(0);
        lemma_wrap_exact(1);
        lemma_wrap_exact(kind as int);
    }
    let mut t_prev = [zero;N];
    t_prev[0] = one;
    if order == 0 {
        assert(t_prev@ =~= wraps(chebyshev_coefficients(kind as int, 0, N as nat)));
        return Some(t_prev);
    }
    let kind_c = kind_coefficient(kind, zero, one);
    let mut t = [zero;N];
    t[1] = kind_c;
    assert(t_prev@ =~= wraps(chebyshev_coefficients(kind as int, 0, N as nat)));
    assert(t@ =~= wraps(chebyshev_coefficients(kind as int, 1, N as nat)));
    let mut k: usize = 1;
    while k < order
        invariant
            1 <= k <= order < N,
            zero == 0,
            two == 2,
            t@ == wraps(chebyshev_coefficients(kind as int, k as nat, N as nat)),
            t_prev@ == wraps(chebyshev_coefficients(kind as int, (k - 1) as nat, N as nat)),
        decreases order - k,
    {
        let mut t_next = [zero;N];
        proof {
            let b = chebyshev_coefficient(kind as int, (k - 1) as nat, 0);
            lemma_chebyshev_recurrence(kind as int, (k + 1) as nat, 0);
            lemma_wrap_sub(0, b);
        }
        t_next[0] = negated(t_prev[0]);
        let mut i: usize = 1;
        while i < N
            invariant
                1 <= i <= N,
                1 <= k,
                two == 2,
                t@ == wraps(chebyshev_coefficients(kind as int, k as nat, N as nat)),
                t_prev@ == wraps(chebyshev_coefficients(kind as int, (k - 1) as nat, N as nat)),
                forall|j: int|
                    0 <= j < i ==> #[trigger] t_next@[j] == wrap(
                        chebyshev_coefficient(kind as int, (k + 1) as nat, j),
                    ),
            decreases N - i,
        {
            proof {
                lemma_next_coefficient(kind as int, k as nat, i as int, t[i - 1], t_prev[i as int]);
            }
            t_next[i] = minus(times(two, t[i - 1]), t_prev[i]);
            i += 1;
        }
        assert(t_next@ =~= wraps(chebyshev_coefficients(kind as int, (k + 1) as nat, N as nat)));
        t_prev = t;
        t = t_next;
        k += 1;
    }
    Some(t)
}

impl<const N: usize> FromSpecImpl<ChebyshevPolynomial> for Option<[i128; N]> {
    open spec fn obeys_from_spec() -> bool {
        false
    }

    open spec fn from_spec(p: ChebyshevPolynomial) -> Self {
        None
    }
}

impl<const N: usize> From<ChebyshevPolynomial> for Option<[i128; N]> {
    /// The coefficients of `p` in an array of `N`, the constant term first and
    /// zeros after the last: `Some` where `p.order < N`, `None` where the
    /// polynomial has more than `N` coefficients.
    fn from(p: ChebyshevPolynomial) -> (r: Self)
        ensures
            r is Some <==> p.order < N,
            r matches Some(t) ==> t@ == wraps(
                chebyshev_coefficients(p.kind as int, p.order as nat, N as nat),
            ),
    {
        let one = one();
        chebyshev_array_with_one_and_zero_given_as(p.kind, p.order, zero(), one, one + one)
    }
}

impl<const N: usize> TryFromSpecImpl<ChebyshevPolynomial> for [i128; N] {
    open spec fn obeys_try_from_spec() -> bool {
        false
    }

    open spec fn try_from_spec(p: ChebyshevPolynomial) -> Result<Self, ChebyshevPolynomial> {
        Err(p)
    }
}

impl<const N: usize> TryFrom<ChebyshevPolynomial> for [i128; N] {
    type Error = ChebyshevPolynomial;

    /// The coefficients of `p` in an array of `N`, or `p` itself where the
    /// polynomial has more than `N` coefficients.
    fn try_from(p: ChebyshevPolynomial) -> (r: Result<Self, ChebyshevPolynomial>)
        ensures
            r is Ok <==> p.order < N,
            r matches Ok(t) ==> t@ == wraps(
                chebyshev_coefficients(p.kind as int, p.order as nat, N as nat),
            ),
            r matches Err(e) ==> e == p,
    {
        let coefficients: Option<[i128; N]> = Option::from(p);
        coefficients.ok_or(p)
    }
}

impl FromSpecImpl<ChebyshevPolynomial> for Vec<i128> {
    open spec fn obeys_from_spec() -> bool {
        false
    }

    open spec fn from_spec(p: ChebyshevPolynomial) -> Self {
        arbitrary()
    }
}

impl From<ChebyshevPolynomial> for Vec<i128> {
    /// The `p.order + 1` coefficients of `p`, the constant term first.
    fn from(p: ChebyshevPolynomial) -> (t: Self)
        ensures
            t@ == wraps(
                chebyshev_coefficients(p.kind as int, p.order as nat, (p.order + 1) as nat),
            ),
    {
        let zero = zero();
        let one = one();
        proof {
            lemma_wrap_exact(0);
            lemma_wrap_exact(1);
            lemma_wrap_exact(p.kind as int);
        }
        let mut t_prev: Vec<i128> = Vec::new();
        t_prev.push(one);
        if p.order == 0 {
            assert(t_prev@ =~= wraps(chebyshev_coefficients(p.kind as int, 0, 1)));
            return t_prev;
        }
        let kind = kind_coefficient(p.kind, zero, one);
        let mut t: Vec<i128> = Vec::new();
        t.push(zero);
        t.push(kind);
        assert(t_prev@ =~= wraps(chebyshev_coefficients(p.kind as int, 0, 1)));
        assert(t@ =~= wraps(chebyshev_coefficients(p.kind as int, 1, 2)));
        let two = one + one;
        let mut k: usize = 1;
        while k < p.order
            invariant
                1 <= k <= p.order,
                zero == 0,
                two == 2,
                t@ == wraps(chebyshev_coefficients(p.kind as int, k as nat, (k + 1) as nat)),
                t_prev@ == wraps(
                    chebyshev_coefficients(p.kind as int, (k - 1) as nat, k as nat),
                ),
            decreases p.order - k,
        {
            let mut t_next: Vec<i128> = Vec::new();
            proof {
                let b = chebyshev_coefficient(p.kind as int, (k - 1) as nat, 0);
                lemma_chebyshev_recurrence(p.kind as int, (k + 1) as nat, 0);
                lemma_wrap_sub(0, b);
            }
            t_next.push(negated(t_prev[0]));
            let mut i: usize = 0;
            while i <= k
                invariant
                    i <= k + 1,
                    1 <= k < p.order,
                    zero == 0,
                    two == 2,
                    t@ == wraps(chebyshev_coefficients(p.kind as int, k as nat, (k + 1) as nat)),
                    t_prev@ == wraps(
                        chebyshev_coefficients(p.kind as int, (k - 1) as nat, k as nat),
                    ),
                    t_next@.len() == i + 1,
                    forall|j: int|
                        0 <= j <= i ==> #[trigger] t_next@[j] == wrap(
                            chebyshev_coefficient(p.kind as int, (k + 1) as nat, j),
                        ),
                decreases k + 1 - i,
            {
                let tn_prev = if i + 1 < k {
                    t_prev[i + 1]
                } else {
                    zero
                };
                proof {
                    lemma_next_coefficient(p.kind as int, k as nat, i + 1, t[i as int], tn_prev);
                }
                t_next.push(minus(times(two, t[i]), tn_prev));
                i += 1;
            }
            assert(t_next@ =~= wraps(
                chebyshev_coefficients(p.kind as int, (k + 1) as nat, (k + 2) as nat),
            ));
            t_prev = t;
            t = t_next;
            k += 1;
        }
        t
    }
}

/// The coefficients and the recurrence on values describe the same
/// polynomial: the value at `x` of the polynomial with the coefficients of the
/// Chebyshev polynomial of the given kind and order is the value that the
/// recurrence on values gives. Zeros after the last coefficient change nothing.
pub proof fn lemma_chebyshev_evaluation(kind: int, order: nat, x: int, len: nat)
    requires
        len > order,
    ensures
        evaluation(chebyshev_coefficients(kind, order, len), x) == chebyshev_value(kind, order, x),
    decreases order,
{
    let p = chebyshev_coefficients(kind, order, len);
    if order == 0 {
        lemma_evaluation_prefix_zeros(p, x, 1, len);
        reveal_with_fuel(evaluation_prefix, 2);
        lemma_pow0(x);
    } else if order == 1 {
        lemma_evaluation_prefix_zeros(p, x, 2, len);
        reveal_with_fuel(evaluation_prefix, 3);
        lemma_pow0(x);
        lemma_pow1(x);
    } else {
        let a = chebyshev_coefficients(kind, (order - 1) as nat, (len - 1) as nat);
        let moved = Seq::new(len, |i: int| chebyshev_coefficient(kind, (order - 1) as nat, i - 1));
        let b = chebyshev_coefficients(kind, (order - 2) as nat, len);
        assert forall|i: int| 0 <= i < len implies p[i] == 2 * moved[i] + (-1) * b[i] by {
            lemma_chebyshev_recurrence(kind, order, i);
        }
        lemma_evaluation_prefix_linear(moved, b, p, 2, -1, x, len);
        lemma_evaluation_prefix_shift(a, moved, 1, x, (len - 1) as nat);
        lemma_chebyshev_evaluation(kind, (order - 1) as nat, x, (len - 1) as nat);
        lemma_chebyshev_evaluation(kind, (order - 2) as nat, x, len);
        lemma_pow1(x);
        let v = chebyshev_value(kind, (order - 1) as nat, x);
        assert(2 * (x * v) == 2 * x * v) by (nonlinear_arith);
    }
}

/// The same of what the library computes: evaluating the generated
/// coefficients of `p` at `x` gives what evaluating `p` itself at `x` gives.
pub proof fn lemma_chebyshev_generated_evaluation(p: ChebyshevPolynomial, x: i128, len: nat)
    requires
        len > p.order,
    ensures
        wrap(
            evaluation(
                ints(wraps(chebyshev_coefficients(p.kind as int, p.order as nat, len))),
                x as int,
            ),
        ) == wrap(chebyshev_value(p.kind as int, p.order as nat, x as int)),
{
    let exact = chebyshev_coefficients(p.kind as int, p.order as nat, len);
    let generated = ints(wraps(exact));
    assert forall|i: int| 0 <= i < len implies wrap(generated[i]) == wrap(exact[i]) by {
        lemma_wrap_exact(wrap(exact[i]) as int);
    }
    lemma_evaluation_prefix_congruent(generated, exact, x as int, len);
    lemma_chebyshev_evaluation(p.kind as int, p.order as nat, x as int, len);
}

impl Polynomial<i128> for ChebyshevPolynomial {
    type Y = i128;

    open spec fn evaluation_at(&self, x: i128) -> i128 {
        wrap(chebyshev_value(self.kind as int, self.order as nat, x as int))
    }

    fn evaluate_as_polynomial(self, x: i128) -> (y: i128) {
        let one = one();
        evaluate_chebyshev_given_one_and_zero(self, x, zero(), one, one + one)
    }
}

} // verus!

//! Evaluation of a polynomial in several variables.
//!
//! The coefficients of a polynomial in `N` variables form a tensor with `N`
//! axes. The coefficient at the multi-index `(i_0, .., i_{N-1})` belongs to the
//! monomial `x_0^i_0 * .. * x_{N-1}^i_{N-1}`. The tensor is held flat, in
//! row-major order: the last index moves fastest.

use crate::modular::{ints, lemma_wrap_add, lemma_wrap_exact, lemma_wrap_mul, plus, times, wrap};
use crate::polynomial::{evaluation, evaluation_prefix};
use vstd::arithmetic::div_mod::{lemma_fundamental_div_mod_converse, lemma_small_mod};
use vstd::arithmetic::power::{lemma_pow0, lemma_pow1, pow};
use vstd::prelude::*;

verus! {

/// The sum of the sizes `dims`.
pub open spec fn dims_sum(dims: Seq<usize>) -> int
    decreases dims.len(),
{
    if dims.len() == 0 {
        0
    } else {
        dims_sum(dims.drop_last()) + dims.last()
    }
}

/// The number of coefficients of a tensor with the sizes `dims`: their
/// product, which is 1 for no axis at all.
pub open spec fn volume(dims: Seq<usize>) -> int
    decreases dims.len(),
{
    if dims.len() == 0 {
        1
    } else {
        volume(dims.drop_last()) * dims.last()
    }
}

/// The value at the point `x` of the monomial that belongs to the flat
/// position `f` of a tensor with the sizes `dims`: the product over the axes
/// of `x_n^i_n`, where `(i_0, .., i_{N-1})` is the multi-index at `f`.
pub open spec fn monomial(dims: Seq<usize>, x: Seq<int>, f: int) -> int
    decreases dims.len(),
{
    if dims.len() == 0 {
        1
    } else {
        monomial(dims.drop_last(), x.drop_last(), f / (dims.last() as int)) * pow(
            x.last(),
            (f % (dims.last() as int)) as nat,
        )
    }
}

/// The sum of the first `n` terms of the tensor `c` at `x`: the sum of
/// `c[f] * monomial(dims, x, f)` over `0 <= f < n`.
pub open spec fn evaluation_nd_prefix(dims: Seq<usize>, c: Seq<int>, x: Seq<int>, n: nat) -> int
    decreases n,
{
    if n == 0 {
        0
    } else {
        evaluation_nd_prefix(dims, c, x, (n - 1) as nat) + c[n - 1] * monomial(dims, x, n - 1)
    }
}

/// The value at the point `x` of the polynomial whose coefficient tensor has
/// the sizes `dims` and the flat contents `c`: the sum over all multi-indices
/// of the coefficient times its monomial. An empty tensor has the value 0.
pub open spec fn evaluation_nd(dims: Seq<usize>, c: Seq<int>, x: Seq<int>) -> int {
    evaluation_nd_prefix(dims, c, x, c.len())
}

/// The sum of the sizes `dims`: the number of powers that an evaluation keeps,
/// counting the zeroth power of each axis.
pub fn sum_dims<const D: usize>(dims: [usize; D]) -> (s: usize)
    requires
        dims_sum(dims@) <= usize::MAX,
    ensures
        s == dims_sum(dims@),
{
    let mut s: usize = 0;
    let mut d: usize = 0;
    while d < D
        invariant
            d <= D,
            s == dims_sum(dims@.take(d as int)),
            dims_sum(dims@) <= usize::MAX,
        decreases D - d,
    {
        proof {
            assert(dims@.take(d + 1).drop_last() =~= dims@.take(d as int));
            lemma_dims_sum_monotone(dims@, d + 1);
        }
        s += dims[d];
        d += 1;
    }
    proof {
        assert(dims@.take(D as int) =~= dims@);
    }
    s
}

/// The sum of some of the first sizes is at most the sum of all.
proof fn lemma_dims_sum_monotone(dims: Seq<usize>, n: int)
    requires
        0 <= n <= dims.len(),
    ensures
        0 <= dims_sum(dims.take(n)) <= dims_sum(dims),
    decreases dims.len(),
{
    if n == dims.len() {
        assert(dims.take(n) =~= dims);
        if n > 0 {
            lemma_dims_sum_monotone(dims.drop_last(), n - 1);
            assert(dims.drop_last().take(n - 1) =~= dims.drop_last());
        }
    } else {
        lemma_dims_sum_monotone(dims.drop_last(), n);
        assert(dims.drop_last().take(n) =~= dims.take(n));
    }
}

/// The sizes of a tensor that holds at least one coefficient are all positive.
pub proof fn lemma_volume_positive(dims: Seq<usize>, n: int)
    requires
        volume(dims) > 0,
        0 <= n < dims.len(),
    ensures
        dims[n] > 0,
    decreases dims.len(),
{
    let v = volume(dims.drop_last());
    let d = dims.last() as int;
    lemma_volume_nonnegative(dims.drop_last());
    assert(v > 0 && d > 0) by (nonlinear_arith)
        requires
            v * d > 0,
            v >= 0,
            d >= 0,
    ;
    if n < dims.len() - 1 {
        lemma_volume_positive(dims.drop_last(), n);
    }
}

/// No tensor has a negative number of coefficients.
pub proof fn lemma_volume_nonnegative(dims: Seq<usize>)
    ensures
        volume(dims) >= 0,
    decreases dims.len(),
{
    if dims.len() > 0 {
        lemma_volume_nonnegative(dims.drop_last());
        let v = volume(dims.drop_last());
        let d = dims.last() as int;
        assert(v * d >= 0) by (nonlinear_arith)
            requires
                v >= 0,
                d >= 0,
        ;
    }
}

/// A tensor with a zero size holds no coefficient.
proof fn lemma_volume_zero(dims: Seq<usize>, n: int)
    requires
        0 <= n < dims.len(),
        dims[n] == 0,
    ensures
        volume(dims) == 0,
    decreases dims.len(),
{
    let v = volume(dims.drop_last());
    let d = dims.last() as int;
    if n < dims.len() - 1 {
        lemma_volume_zero(dims.drop_last(), n);
    }
    assert(v * d == 0) by (nonlinear_arith)
        requires
            v == 0 || d == 0,
    ;
}

/// A tensor whose sizes are all positive holds at least one coefficient.
proof fn lemma_volume_of_positive(dims: Seq<usize>)
    requires
        forall|k: int| 0 <= k < dims.len() ==> dims[k] > 0,
    ensures
        volume(dims) > 0,
    decreases dims.len(),
{
    if dims.len() > 0 {
        lemma_volume_of_positive(dims.drop_last());
        let v = volume(dims.drop_last());
        let d = dims.last() as int;
        assert(v * d > 0) by (nonlinear_arith)
            requires
                v > 0,
                d > 0,
        ;
    }
}

/// The volume of a tensor is 0 or at least the volume of its first `n` axes.
proof fn lemma_volume_extends(dims: Seq<usize>, n: int)
    requires
        0 <= n <= dims.len(),
    ensures
        volume(dims) == 0 || volume(dims) >= volume(dims.take(n)),
    decreases dims.len(),
{
    if n == dims.len() {
        assert(dims.take(n) =~= dims);
    } else {
        lemma_volume_extends(dims.drop_last(), n);
        assert(dims.drop_last().take(n) =~= dims.take(n));
        lemma_volume_nonnegative(dims.take(n));
        let v = volume(dims.drop_last());
        let w = volume(dims.take(n));
        let d = dims.last() as int;
        assert(v * d == 0 || v * d >= w) by (nonlinear_arith)
            requires
                v == 0 || v >= w,
                w >= 0,
                d >= 0,
        ;
    }
}

/// The number of powers that are kept for an axis of the size `d`: the first
/// to the `(d - 1)`-th. The zeroth power is never kept.
pub open spec fn kept_powers(d: usize) -> int {
    if d < 2 {
        0
    } else {
        d - 1
    }
}

/// `powers` holds, for each axis `n`, the reduced powers of `x[n]` from the
/// first to the `(dims[n] - 1)`-th, the `i`-th at index `i - 1`.
pub open spec fn is_power_table(dims: Seq<usize>, x: Seq<int>, powers: Seq<Vec<i128>>) -> bool {
    &&& powers.len() == dims.len()
    &&& forall|n: int| 0 <= n < dims.len() ==> (#[trigger] powers[n])@.len() == kept_powers(dims[n])
    &&& forall|n: int, i: int|
        0 <= n < dims.len() && 0 <= i < powers[n]@.len() ==> #[trigger] powers[n]@[i] == wrap(
            pow(x[n], (i + 1) as nat),
        )
}

/// What a product of powers stands for: 1 where no power was multiplied in.
pub open spec fn product_so_far(acc: Option<i128>) -> int {
    match acc {
        Some(v) => v as int,
        None => 1,
    }
}

/// The powers of `x` that are kept for an axis of the size `d`.
fn axis_powers(x: i128, d: usize) -> (v: Vec<i128>)
    ensures
        v@.len() == kept_powers(d),
        forall|i: int| 0 <= i < v@.len() ==> #[trigger] v@[i] == wrap(pow(x as int, (i + 1) as nat)),
{
    let mut v: Vec<i128> = Vec::new();
    let mut x_accum = x;
    proof {
        lemma_pow1(x as int);
        lemma_wrap_exact(x as int);
    }
    let mut i: usize = 1;
    while i < d
        invariant
            1 <= i,
            i <= d || i == 1,
            v@.len() == i - 1,
            x_accum == wrap(pow(x as int, i as nat)),
            forall|k: int| 0 <= k < v@.len() ==> #[trigger] v@[k] == wrap(pow(x as int, (k + 1) as nat)),
        decreases d - i,
    {
        v.push(x_accum);
        proof {
            lemma_wrap_mul(pow(x as int, i as nat), x as int);
            assert(pow(x as int, (i + 1) as nat) == x * pow(x as int, i as nat)) by {
                reveal(pow);
            }
            assert(pow(x as int, i as nat) * x == x * pow(x as int, i as nat)) by (nonlinear_arith);
        }
        x_accum = times(x_accum, x);
        i += 1;
    }
    v
}

/// The powers of the coordinates of `x` that are kept for a tensor with the
/// sizes `dims`.
fn power_table<const N: usize>(dims: &[usize; N], x: &[i128; N]) -> (powers: Vec<Vec<i128>>)
    ensures
        is_power_table(dims@, ints(x@), powers@),
{
    let mut powers: Vec<Vec<i128>> = Vec::new();
    let mut n: usize = 0;
    while n < N
        invariant
            n <= N,
            powers@.len() == n,
            forall|m: int| 0 <= m < n ==> (#[trigger] powers@[m])@.len() == kept_powers(dims@[m]),
            forall|m: int, i: int|
                0 <= m < n && 0 <= i < powers@[m]@.len() ==> #[trigger] powers@[m]@[i] == wrap(
                    pow(ints(x@)[m], (i + 1) as nat),
                ),
        decreases N - n,
    {
        let v = axis_powers(x[n], dims[n]);
        powers.push(v);
        n += 1;
    }
    powers
}

/// Peeling the last of the first `n` axes off a monomial: where `next` stands
/// for the power of that axis times `tail`, the rest of the monomial times
/// `next` is the whole times `tail`, modulo 2^128.
proof fn lemma_monomial_step(dims: Seq<usize>, x: Seq<int>, n: int, rest: int, tail: int, next: int)
    requires
        0 < n <= dims.len(),
        dims.len() == x.len(),
        dims[n - 1] > 0,
        rest >= 0,
        wrap(next) == wrap(pow(x[n - 1], (rest % (dims[n - 1] as int)) as nat) * tail),
    ensures
        wrap(monomial(dims.take(n), x.take(n), rest) * tail) == wrap(
            monomial(dims.take(n - 1), x.take(n - 1), rest / (dims[n - 1] as int)) * next,
        ),
{
    let d = dims[n - 1] as int;
    let p = pow(x[n - 1], (rest % d) as nat);
    let m = monomial(dims.take(n - 1), x.take(n - 1), rest / d);
    assert(dims.take(n).drop_last() =~= dims.take(n - 1));
    assert(x.take(n).drop_last() =~= x.take(n - 1));
    assert(monomial(dims.take(n), x.take(n), rest) == m * p);
    lemma_wrap_mul(m, next);
    lemma_wrap_mul(m, p * tail);
    assert(m * (p * tail) == (m * p) * tail) by (nonlinear_arith);
}

/// The value of the monomial at the flat position `f`, as the product of the
/// kept powers of the axes whose index is not 0: `None` where every index is
/// 0, so that nothing was multiplied.
fn monomial_at<const N: usize>(
    dims: &[usize; N],
    powers: &Vec<Vec<i128>>,
    f: usize,
    Ghost(x): Ghost<Seq<int>>,
) -> (m: Option<i128>)
    requires
        x.len() == N,
        is_power_table(dims@, x, powers@),
        forall|n: int| 0 <= n < N ==> dims@[n] > 0,
    ensures
        wrap(product_so_far(m)) == wrap(monomial(dims@, x, f as int)),
{
    let mut acc: Option<i128> = None;
    let mut rest = f;
    let mut n: usize = N;
    proof {
        assert(dims@.take(N as int) =~= dims@);
        assert(x.take(N as int) =~= x);
        assert(monomial(dims@, x, f as int) * 1 == monomial(dims@, x, f as int));
    }
    while n > 0
        invariant
            n <= N,
            x.len() == N,
            is_power_table(dims@, x, powers@),
            forall|k: int| 0 <= k < N ==> dims@[k] > 0,
            wrap(monomial(dims@, x, f as int)) == wrap(
                monomial(dims@.take(n as int), x.take(n as int), rest as int) * product_so_far(acc),
            ),
        decreases n,
    {
        let d = dims[n - 1];
        let i = rest % d;
        let ghost tail = product_so_far(acc);
        let ghost power = pow(x[n - 1], i as nat);
        if i > 0 {
            assert(powers@[n - 1]@.len() == kept_powers(d));
            let p = powers[n - 1][i - 1];
            assert(p == wrap(power));
            acc = match acc {
                Some(a) => {
                    proof {
                        lemma_wrap_mul(power, a as int);
                        lemma_wrap_exact(wrap(power * a) as int);
                    }
                    Some(times(p, a))
                },
                None => {
                    proof {
                        lemma_wrap_exact(p as int);
                        assert(power * 1 == power);
                    }
                    Some(p)
                },
            };
        } else {
            proof {
                lemma_pow0(x[n - 1]);
                assert(1 * tail == tail);
            }
        }
        proof {
            lemma_monomial_step(dims@, x, n as int, rest as int, tail, product_so_far(acc));
        }
        rest = rest / d;
        n -= 1;
    }
    proof {
        assert(dims@.take(0).len() == 0);
        assert(1 * product_so_far(acc) == product_so_far(acc));
    }
    acc
}

/// The coefficients of a polynomial in `N` variables: a tensor with the sizes
/// `dims`, held flat in row-major order. The number of coefficients is the
/// product of the sizes.
pub struct CoefficientTensor<const N: usize> {
    dims: [usize; N],
    coefficients: Vec<i128>,
}

impl<const N: usize> CoefficientTensor<N> {
    #[verifier::type_invariant]
    spec fn well_formed(self) -> bool {
        self.coefficients@.len() == volume(self.dims@)
    }

    /// The sizes of the axes.
    pub closed spec fn shape(self) -> Seq<usize> {
        self.dims@
    }

    /// The coefficients, in row-major order.
    pub closed spec fn flat(self) -> Seq<i128> {
        self.coefficients@
    }

    /// A tensor with the sizes `dims` and the contents `coefficients`, where
    /// the number of coefficients is the product of the sizes.
    pub fn new(dims: [usize; N], coefficients: Vec<i128>) -> (r: Option<Self>)
        ensures
            r is Some <==> coefficients@.len() == volume(dims@),
            r matches Some(t) ==> t.shape() == dims@ && t.flat() == coefficients@,
    {
        let len = coefficients.len();
        let mut n: usize = 0;
        if len == 0 {
            while n < N
                invariant
                    n <= N,
                    coefficients@.len() == 0,
                    forall|k: int| 0 <= k < n ==> dims@[k] > 0,
                decreases N - n,
            {
                if dims[n] == 0 {
                    proof {
                        lemma_volume_zero(dims@, n as int);
                    }
                    return Some(CoefficientTensor { dims, coefficients });
                }
                n += 1;
            }
            proof {
                lemma_volume_of_positive(dims@);
            }
            return None;
        }
        let mut v: usize = 1;
        while n < N
            invariant
                n <= N,
                v == volume(dims@.take(n as int)),
                v > 0,
                0 < len == coefficients@.len(),
            decreases N - n,
        {
            let d = dims[n];
            proof {
                assert(dims@.take(n + 1).drop_last() =~= dims@.take(n as int));
                lemma_volume_extends(dims@, n + 1);
            }
            if d == 0 {
                proof {
                    lemma_volume_zero(dims@, n as int);
                }
                return None;
            }
            match v.checked_mul(d) {
                Some(w) => {
                    assert(w > 0) by (nonlinear_arith)
                        requires
                            w == v * d,
                            v > 0,
                            d > 0,
                    ;
                    v = w;
                },
                None => {
                    return None;
                },
            }
            n += 1;
        }
        proof {
            assert(dims@.take(N as int) =~= dims@);
        }
        if v == len {
            Some(CoefficientTensor { dims, coefficients })
        } else {
            None
        }
    }

    /// The sizes of the axes.
    pub fn dims(&self) -> (d: &[usize; N])
        ensures
            d@ == self.shape(),
    {
        &self.dims
    }

    /// The coefficients, in row-major order.
    pub fn coefficients(&self) -> (c: &[i128])
        ensures
            c@ == self.flat(),
    {
        self.coefficients.as_slice()
    }
}

/// With one axis, the monomial at the position `i` is `x^i`.
pub proof fn lemma_monomial_1d(d0: usize, x: int, i: int)
    requires
        0 <= i < d0,
    ensures
        monomial(seq![d0], seq![x], i) == pow(x, i as nat),
{
    let dims = seq![d0];
    let xs = seq![x];
    assert(dims.drop_last().len() == 0);
    lemma_small_mod(i as nat, d0 as nat);
    reveal_with_fuel(monomial, 2);
    assert(1 * pow(x, i as nat) == pow(x, i as nat));
}

/// With two axes, the monomial at the position of row `i` and column `j` is
/// `x^i * y^j`.
pub proof fn lemma_monomial_2d(d0: usize, d1: usize, x: int, y: int, i: int, j: int)
    requires
        0 <= i < d0,
        0 <= j < d1,
    ensures
        monomial(seq![d0, d1], seq![x, y], i * d1 + j) == pow(x, i as nat) * pow(y, j as nat),
{
    let dims = seq![d0, d1];
    let xs = seq![x, y];
    assert(dims.drop_last() =~= seq![d0]);
    assert(xs.drop_last() =~= seq![x]);
    lemma_fundamental_div_mod_converse(i * d1 + j, d1 as int, i, j);
    assert(d1 * i == i * d1) by (nonlinear_arith);
    lemma_monomial_1d(d0, x, i);
}

/// With one axis, the evaluation in several variables is the evaluation in one.
pub proof fn lemma_evaluation_1d(d0: usize, c: Seq<int>, x: int, n: nat)
    requires
        n <= d0,
    ensures
        evaluation_nd_prefix(seq![d0], c, seq![x], n) == evaluation_prefix(c, x, n),
    decreases n,
{
    if n > 0 {
        lemma_evaluation_1d(d0, c, x, (n - 1) as nat);
        lemma_monomial_1d(d0, x, n - 1);
    }
}

/// The coefficients of row `i` of a tensor with rows of `d1` coefficients.
pub open spec fn row(c: Seq<int>, d1: usize, i: int) -> Seq<int> {
    Seq::new(d1 as nat, |j: int| c[i * d1 + j])
}

/// The value at `y` of each of the `d0` rows of a tensor.
pub open spec fn row_values(c: Seq<int>, d0: usize, d1: usize, y: int) -> Seq<int> {
    Seq::new(d0 as nat, |i: int| evaluation(row(c, d1, i), y))
}

/// The sum of the terms of the rows before row `i` and of the first `j` terms
/// of row `i` is the value at `x` of the rows before, as coefficients of a
/// polynomial in `x`, plus `x^i` times the sum of those `j` terms as a
/// polynomial in `y`.
proof fn lemma_evaluation_2d_prefix(d0: usize, d1: usize, c: Seq<int>, x: int, y: int, i: nat, j: nat)
    requires
        (i < d0 && j <= d1) || (i == d0 && j == 0),
    ensures
        i * d1 + j >= 0,
        evaluation_nd_prefix(seq![d0, d1], c, seq![x, y], (i * d1 + j) as nat) == evaluation_prefix(
            row_values(c, d0, d1, y),
            x,
            i,
        ) + pow(x, i) * evaluation_prefix(row(c, d1, i as int), y, j),
    decreases i, j,
{
    let dims = seq![d0, d1];
    let xs = seq![x, y];
    let values = row_values(c, d0, d1, y);
    assert(i * d1 >= 0) by (nonlinear_arith)
        requires
            i >= 0,
            d1 >= 0,
    ;
    if j > 0 {
        let f = i * d1 + j - 1;
        lemma_evaluation_2d_prefix(d0, d1, c, x, y, i, (j - 1) as nat);
        lemma_monomial_2d(d0, d1, x, y, i as int, j - 1);
        let s = evaluation_prefix(row(c, d1, i as int), y, (j - 1) as nat);
        let xi = pow(x, i);
        let yj = pow(y, (j - 1) as nat);
        assert(row(c, d1, i as int)[j - 1] == c[f]);
        assert(xi * s + c[f] * (xi * yj) == xi * (s + c[f] * yj)) by (nonlinear_arith);
    } else if i > 0 {
        lemma_evaluation_2d_prefix(d0, d1, c, x, y, (i - 1) as nat, d1 as nat);
        assert((i - 1) * d1 + d1 == i * d1) by (nonlinear_arith);
        let e = evaluation(row(c, d1, i - 1), y);
        assert(values[i - 1] == e);
        assert(pow(x, (i - 1) as nat) * e == e * pow(x, (i - 1) as nat)) by (nonlinear_arith);
        assert(pow(x, i) * 0 == 0);
    } else {
        assert(i * d1 == 0) by (nonlinear_arith)
            requires
                i == 0,
        ;
        assert(pow(x, 0) * 0 == 0);
    }
}

/// With two axes, the evaluation is the double sum of `c[i][j] * x^i * y^j`:
/// the value at `x` of the polynomial whose coefficients are the values of
/// the rows at `y`.
pub proof fn lemma_evaluation_2d(d0: usize, d1: usize, c: Seq<int>, x: int, y: int)
    requires
        c.len() == d0 * d1,
    ensures
        evaluation_nd(seq![d0, d1], c, seq![x, y]) == evaluation(row_values(c, d0, d1, y), x),
{
    lemma_evaluation_2d_prefix(d0, d1, c, x, y, d0 as nat, 0);
    assert(pow(x, d0 as nat) * 0 == 0);
}

/// A value that can be evaluated as a polynomial in `N` variables at a point
/// with coordinates of type `X`, with a result of type `Y`.
pub trait PolynomialNd<X, Y, const N: usize>: Sized {
    /// The value of this polynomial at the point `x`.
    spec fn evaluation_nd_at(&self, x: [X; N]) -> Y;

    /// Evaluates the polynomial at the point `x`.
    fn evaluate_as_polynomial_nd(self, x: [X; N]) -> (y: Y)
        ensures
            y == self.evaluation_nd_at(x),
    ;
}

impl<const N: usize> PolynomialNd<i128, i128, N> for CoefficientTensor<N> {
    open spec fn evaluation_nd_at(&self, x: [i128; N]) -> i128 {
        wrap(evaluation_nd(self.shape(), ints(self.flat()), ints(x@)))
    }

    /// Sums, over the flat positions, the coefficient times its monomial. The
    /// powers of each coordinate are computed once, before the sum. A
    /// coefficient whose indices are all 0 is added as it is.
    fn evaluate_as_polynomial_nd(self, x: [i128; N]) -> (y: i128) {
        proof {
            use_type_invariant(&self);
            lemma_wrap_exact(0);
        }
        let total = self.coefficients.len();
        let mut y = i128::default();
        if total == 0 {
            return y;
        }
        let ghost c = ints(self.coefficients@);
        let ghost xs = ints(x@);
        proof {
            assert forall|n: int| 0 <= n < N implies self.dims@[n] > 0 by {
                lemma_volume_positive(self.dims@, n);
            }
        }
        let powers = power_table(&self.dims, &x);
        let mut f: usize = 0;
        while f < total
            invariant
                f <= total,
                total == self.coefficients@.len(),
                c == ints(self.coefficients@),
                xs == ints(x@),
                xs.len() == N,
                is_power_table(self.dims@, xs, powers@),
                forall|n: int| 0 <= n < N ==> self.dims@[n] > 0,
                y == wrap(evaluation_nd_prefix(self.dims@, c, xs, f as nat)),
            decreases total - f,
        {
            let coefficient = self.coefficients[f];
            let m = monomial_at(&self.dims, &powers, f, Ghost(xs));
            let ghost exact = monomial(self.dims@, xs, f as int);
            let t = match m {
                Some(v) => {
                    proof {
                        lemma_wrap_exact(v as int);
                        lemma_wrap_mul(exact, coefficient as int);
                    }
                    times(v, coefficient)
                },
                None => {
                    proof {
                        lemma_wrap_mul(exact, coefficient as int);
                        assert(1 * coefficient == coefficient);
                        lemma_wrap_exact(coefficient as int);
                    }
                    coefficient
                },
            };
            proof {
                assert(t == wrap(exact * coefficient));
                assert(exact * coefficient == coefficient * exact) by (nonlinear_arith);
                lemma_wrap_add(
                    evaluation_nd_prefix(self.dims@, c, xs, f as nat),
                    coefficient * exact,
                );
            }
            y = plus(y, t);
            f += 1;
        }
        y
    }
}

/// Evaluates the polynomial whose coefficient tensor has the sizes `dims` and
/// the flat contents `coefficients`.
fn evaluate_flat<const N: usize>(dims: [usize; N], coefficients: Vec<i128>, x: [i128; N]) -> (y:
    i128)
    requires
        coefficients@.len() == volume(dims@),
    ensures
        y == wrap(evaluation_nd(dims@, ints(coefficients@), ints(x@))),
{
    let tensor = CoefficientTensor { dims, coefficients };
    tensor.evaluate_as_polynomial_nd(x)
}

/// The coefficients of a polynomial in two variables that is held as rows: the
/// rows one after the other.
pub open spec fn flat_2d<const D0: usize, const D1: usize>(rows: [[i128; D1]; D0]) -> Seq<i128> {
    Seq::new((D0 * D1) as nat, |f: int| rows@[f / (D1 as int)]@[f % (D1 as int)])
}

/// The rows of `rows`, one after the other.
fn flatten_2d<const D0: usize, const D1: usize>(rows: &[[i128; D1]; D0]) -> (v: Vec<i128>)
    ensures
        v@ == flat_2d(*rows),
{
    let mut v: Vec<i128> = Vec::new();
    let mut i: usize = 0;
    while i < D0
        invariant
            i <= D0,
            v@.len() == i * D1,
            forall|f: int|
                0 <= f < v@.len() ==> #[trigger] v@[f] == rows@[f / (D1 as int)]@[f % (D1 as int)],
        decreases D0 - i,
    {
        let mut j: usize = 0;
        while j < D1
            invariant
                i < D0,
                j <= D1,
                v@.len() == i * D1 + j,
                forall|f: int|
                    0 <= f < v@.len() ==> #[trigger] v@[f] == rows@[f / (D1 as int)]@[f % (
                    D1 as int)],
            decreases D1 - j,
        {
            proof {
                vstd::arithmetic::div_mod::lemma_fundamental_div_mod_converse(
                    i * D1 + j,
                    D1 as int,
                    i as int,
                    j as int,
                );
                assert(D1 * i == i * D1) by (nonlinear_arith);
            }
            v.push(rows[i][j]);
            j += 1;
        }
        proof {
            assert((i + 1) * D1 == i * D1 + D1) by (nonlinear_arith);
        }
        i += 1;
    }
    v
}

impl<const D0: usize> PolynomialNd<i128, i128, 1> for [i128; D0] {
    open spec fn evaluation_nd_at(&self, x: [i128; 1]) -> i128 {
        wrap(evaluation_nd(seq![D0], ints(self@), ints(x@)))
    }

    fn evaluate_as_polynomial_nd(self, x: [i128; 1]) -> (y: i128) {
        let dims = [D0];
        let coefficients = vstd::slice::slice_to_vec(self.as_slice());
        proof {
            assert(dims@ =~= seq![D0]);
            reveal_with_fuel(volume, 2);
            assert(dims@.drop_last().len() == 0);
        }
        evaluate_flat(dims, coefficients, x)
    }
}

impl<const D0: usize, const D1: usize> PolynomialNd<i128, i128, 2> for [[i128; D1]; D0] {
    open spec fn evaluation_nd_at(&self, x: [i128; 2]) -> i128 {
        wrap(evaluation_nd(seq![D0, D1], ints(flat_2d(*self)), ints(x@)))
    }

    fn evaluate_as_polynomial_nd(self, x: [i128; 2]) -> (y: i128) {
        let dims = [D0, D1];
        let coefficients = flatten_2d(&self);
        proof {
            assert(dims@ =~= seq![D0, D1]);
            reveal_with_fuel(volume, 3);
            assert(dims@.drop_last() =~= seq![D0]);
            assert(dims@.drop_last().drop_last().len() == 0);
            assert(1 * D0 * D1 == D0 * D1) by (nonlinear_arith);
        }
        evaluate_flat(dims, coefficients, x)
    }
}

/// What `evaluate_as_polynomial_nd` returns for rows of coefficients is the
/// double sum of `rows[i][j] * x^i * y^j` modulo 2^128: the value at `x` of the
/// polynomial whose coefficients are the values of the rows at `y`.
pub proof fn lemma_evaluation_of_rows<const D0: usize, const D1: usize>(
    rows: [[i128; D1]; D0],
    point: [i128; 2],
)
    ensures
        rows.evaluation_nd_at(point) == wrap(
            evaluation(
                Seq::new(D0 as nat, |i: int| evaluation(ints(rows@[i]@), point@[1] as int)),
                point@[0] as int,
            ),
        ),
{
    let x = point@[0] as int;
    let y = point@[1] as int;
    let c = ints(flat_2d(rows));
    let values = Seq::new(D0 as nat, |i: int| evaluation(ints(rows@[i]@), y));
    assert(ints(point@) =~= seq![x, y]);
    assert(D0 * D1 >= 0) by (nonlinear_arith);
    lemma_evaluation_2d(D0, D1, c, x, y);
    assert forall|i: int| 0 <= i < D0 implies #[trigger] row_values(c, D0, D1, y)[i] == values[i] by {
        assert forall|j: int| 0 <= j < D1 implies #[trigger] row(c, D1, i)[j] == ints(rows@[i]@)[j] by {
            lemma_fundamental_div_mod_converse(i * D1 + j, D1 as int, i, j);
            assert(D1 * i == i * D1) by (nonlinear_arith);
            assert(i * D1 + j < D0 * D1) by (nonlinear_arith)
                requires
                    0 <= i < D0,
                    0 <= j < D1,
            ;
        }
        assert(row(c, D1, i) =~= ints(rows@[i]@));
    }
    assert(row_values(c, D0, D1, y) =~= values);
}

} // verus!

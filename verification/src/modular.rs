//! Arithmetic on `i128` as the ring of integers modulo 2^128.
//!
//! Every operation of the library adds, subtracts and multiplies with two's
//! complement wrap-around. Reduction modulo 2^128 is a ring homomorphism, so a
//! result computed this way is the reduction of the exact integer result,
//! whatever happened to the intermediate values. Whenever the exact result
//! fits in an `i128`, the computed result is that exact result.

use vstd::prelude::*;
use vstd::arithmetic::div_mod::{
    lemma_add_mod_noop, lemma_mul_mod_noop, lemma_small_mod, lemma_sub_mod_noop,
};

verus! {

/// 2^128, the number of values of an `i128`.
pub open spec fn modulus() -> int {
    0x1_0000_0000_0000_0000_0000_0000_0000_0000int
}

/// The `i128` that is congruent to `v` modulo 2^128.
pub open spec fn wrap(v: int) -> i128 {
    let r = v % modulus();
    if r > i128::MAX {
        (r - modulus()) as i128
    } else {
        r as i128
    }
}

/// The values of a sequence of `i128` as integers.
pub open spec fn ints(s: Seq<i128>) -> Seq<int> {
    Seq::new(s.len(), |i: int| s[i] as int)
}

/// The reductions of a sequence of integers.
pub open spec fn wraps(s: Seq<int>) -> Seq<i128> {
    Seq::new(s.len(), |i: int| wrap(s[i]))
}

/// An integer that fits in an `i128` is its own reduction.
pub proof fn lemma_wrap_exact(v: int)
    requires
        i128::MIN <= v <= i128::MAX,
    ensures
        wrap(v) == v,
{
    if v >= 0 {
        lemma_small_mod(v as nat, modulus() as nat);
    } else {
        lemma_small_mod((v + modulus()) as nat, modulus() as nat);
        assert((v + modulus()) % modulus() == v % modulus());
    }
}

/// `wrap(v)` and `v` leave the same remainder modulo 2^128.
pub proof fn lemma_wrap_residue(v: int)
    ensures
        (wrap(v) as int) % modulus() == v % modulus(),
{
    let r = v % modulus();
    if r > i128::MAX {
        assert((r - modulus()) % modulus() == r % modulus());
    }
    lemma_small_mod(r as nat, modulus() as nat);
}

/// Reduction commutes with addition.
pub proof fn lemma_wrap_add(a: int, b: int)
    ensures
        wrap(wrap(a) + wrap(b)) == wrap(a + b),
        wrap(wrap(a) + b) == wrap(a + b),
        wrap(a + wrap(b)) == wrap(a + b),
{
    let m = modulus();
    lemma_wrap_residue(a);
    lemma_wrap_residue(b);
    lemma_add_mod_noop(a, b, m);
    lemma_add_mod_noop(wrap(a) as int, wrap(b) as int, m);
    lemma_add_mod_noop(wrap(a) as int, b, m);
    lemma_add_mod_noop(a, wrap(b) as int, m);
}

/// Reduction commutes with subtraction.
pub proof fn lemma_wrap_sub(a: int, b: int)
    ensures
        wrap(wrap(a) - wrap(b)) == wrap(a - b),
        wrap(wrap(a) - b) == wrap(a - b),
        wrap(a - wrap(b)) == wrap(a - b),
{
    let m = modulus();
    lemma_wrap_residue(a);
    lemma_wrap_residue(b);
    lemma_sub_mod_noop(a, b, m);
    lemma_sub_mod_noop(wrap(a) as int, wrap(b) as int, m);
    lemma_sub_mod_noop(wrap(a) as int, b, m);
    lemma_sub_mod_noop(a, wrap(b) as int, m);
}

/// Reduction commutes with multiplication.
pub proof fn lemma_wrap_mul(a: int, b: int)
    ensures
        wrap(wrap(a) * wrap(b)) == wrap(a * b),
        wrap(wrap(a) * b) == wrap(a * b),
        wrap(a * wrap(b)) == wrap(a * b),
{
    let m = modulus();
    lemma_wrap_residue(a);
    lemma_wrap_residue(b);
    lemma_mul_mod_noop(a, b, m);
    lemma_mul_mod_noop(wrap(a) as int, wrap(b) as int, m);
    lemma_mul_mod_noop(wrap(a) as int, b, m);
    lemma_mul_mod_noop(a, wrap(b) as int, m);
}

/// The sum of `a` and `b` modulo 2^128.
pub fn plus(a: i128, b: i128) -> (r: i128)
    ensures
        r == wrap(a + b),
{
    proof {
        let s = a + b;
        if s > i128::MAX {
            lemma_small_mod((s - modulus() + modulus()) as nat, modulus() as nat);
        } else if s < i128::MIN {
            lemma_wrap_exact(s + modulus());
            assert((s + modulus()) % modulus() == s % modulus());
        } else {
            lemma_wrap_exact(s);
        }
    }
    a.wrapping_add(b)
}

/// The difference of `a` and `b` modulo 2^128.
pub fn minus(a: i128, b: i128) -> (r: i128)
    ensures
        r == wrap(a - b),
{
    proof {
        let s = a - b;
        if s > i128::MAX {
            lemma_small_mod((s - modulus() + modulus()) as nat, modulus() as nat);
        } else if s < i128::MIN {
            lemma_wrap_exact(s + modulus());
            assert((s + modulus()) % modulus() == s % modulus());
        } else {
            lemma_wrap_exact(s);
        }
    }
    a.wrapping_sub(b)
}

/// The negative of `a` modulo 2^128.
pub fn negated(a: i128) -> (r: i128)
    ensures
        r == wrap(-a),
{
    minus(0, a)
}

/// The product of `a` and `b` modulo 2^128.
pub fn times(a: i128, b: i128) -> (r: i128)
    ensures
        r == wrap(a * b),
{
    a.wrapping_mul(b)
}

} // verus!

//! Greatest common divisors, Bézout coefficients and the uniqueness of a
//! fraction in lowest terms.

use vstd::arithmetic::div_mod::{lemma_fundamental_div_mod, lemma_mod_multiples_basic};
use vstd::prelude::*;

verus! {

/// The greatest common divisor, as Euclid's algorithm computes it:
/// `gcd(a, 0) = a` and `gcd(a, b) = gcd(b, a mod b)`.
pub open spec fn greatest_common_divisor(a: nat, b: nat) -> nat
    decreases b,
{
    if b == 0 {
        a
    } else {
        greatest_common_divisor(b, a % b)
    }
}

/// `p / q` is a fraction in lowest terms with a positive denominator.
pub open spec fn is_reduced(p: nat, q: nat) -> bool {
    q > 0 && greatest_common_divisor(p, q) == 1
}

/// The greatest common divisor of `a` and `b`, by Euclid's algorithm.
pub fn gcd(a: u64, b: u64) -> (g: u64)
    ensures
        g == greatest_common_divisor(a as nat, b as nat),
    decreases b,
{
    if b == 0 {
        a
    } else {
        gcd(b, a % b)
    }
}

/// The greatest common divisor of two numbers, not both zero, is positive.
pub proof fn lemma_gcd_positive(a: nat, b: nat)
    requires
        a > 0 || b > 0,
    ensures
        greatest_common_divisor(a, b) > 0,
    decreases b,
{
    if b > 0 {
        lemma_gcd_positive(b, a % b);
    }
}

/// Bézout's identity: some integers `x`, `y` give `a x + b y = gcd(a, b)`.
pub proof fn lemma_bezout(a: nat, b: nat) -> (xy: (int, int))
    ensures
        a * xy.0 + b * xy.1 == greatest_common_divisor(a, b),
    decreases b,
{
    if b == 0 {
        assert(a * 1 + b * 0 == a) by (nonlinear_arith)
            requires
                b == 0,
        ;
        (1, 0)
    } else {
        let r = a % b;
        let q = a / b;
        let (x, y) = lemma_bezout(b, r);
        lemma_fundamental_div_mod(a as int, b as int);
        assert(a * y + b * (x - q * y) == b * x + r * y) by (nonlinear_arith)
            requires
                a == b * q + r,
        ;
        (y, x - q * y)
    }
}

/// If `a x + b y = 1` for some integers `x`, `y`, then `a` and `b` are
/// coprime.
pub proof fn lemma_coprime_from_combination(a: nat, b: nat, x: int, y: int)
    requires
        a * x + b * y == 1,
    ensures
        greatest_common_divisor(a, b) == 1,
    decreases b,
{
    if b == 0 {
        assert(a == 1) by (nonlinear_arith)
            requires
                a * x == 1,
                a >= 0,
        ;
    } else {
        let r = a % b;
        let q = a / b;
        lemma_fundamental_div_mod(a as int, b as int);
        assert(b * (q * x + y) + r * x == 1) by (nonlinear_arith)
            requires
                a == b * q + r,
                a * x + b * y == 1,
        ;
        lemma_coprime_from_combination(b, r, q * x + y, x);
    }
}

/// A fraction has only one form in lowest terms: two reduced fractions of
/// equal value are the same pair.
pub proof fn lemma_reduced_unique(a: nat, b: nat, c: nat, d: nat)
    requires
        is_reduced(a, b),
        is_reduced(c, d),
        a * d == c * b,
    ensures
        a == c,
        b == d,
{
    let (x, y) = lemma_bezout(a, b);
    let (u, v) = lemma_bezout(c, d);
    assert(d == b * (c * x + d * y)) by (nonlinear_arith)
        requires
            a * x + b * y == 1,
            a * d == c * b,
    ;
    assert(b == d * (a * u + b * v)) by (nonlinear_arith)
        requires
            c * u + d * v == 1,
            a * d == c * b,
    ;
    assert(d >= b) by (nonlinear_arith)
        requires
            d == b * (c * x + d * y),
            d > 0,
            b > 0,
    ;
    assert(b >= d) by (nonlinear_arith)
        requires
            b == d * (a * u + b * v),
            d > 0,
            b > 0,
    ;
    assert(a == c) by (nonlinear_arith)
        requires
            a * d == c * b,
            b == d,
            d > 0,
    ;
}

/// The greatest common divisor divides both numbers; with Bézout's identity
/// this makes it the greatest of their common divisors.
pub proof fn lemma_gcd_divides(a: nat, b: nat)
    requires
        a > 0 || b > 0,
    ensures
        a % greatest_common_divisor(a, b) == 0,
        b % greatest_common_divisor(a, b) == 0,
    decreases b,
{
    let g = greatest_common_divisor(a, b);
    lemma_gcd_positive(a, b);
    if b == 0 {
        assert(a % a == 0) by (nonlinear_arith)
            requires
                a > 0,
        ;
        assert(0nat % a == 0);
    } else {
        let r = a % b;
        lemma_gcd_divides(b, r);
        lemma_fundamental_div_mod(a as int, b as int);
        lemma_fundamental_div_mod(b as int, g as int);
        lemma_fundamental_div_mod(r as int, g as int);
        let q = a / b;
        let kb = b / g;
        let kr = r / g;
        assert(a == g * (q * kb + kr)) by (nonlinear_arith)
            requires
                a == b * q + r,
                b == g * kb,
                r == g * kr,
        ;
        lemma_mod_multiples_basic((q * kb + kr) as int, g as int);
        assert((g * (q * kb + kr)) == (q * kb + kr) * g) by (nonlinear_arith);
    }
}

} // verus!

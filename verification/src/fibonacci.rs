//! The Fibonacci numbers and the identities that the rest of the library
//! leans on.

use vstd::arithmetic::power2::*;
use vstd::prelude::*;

verus! {

/// The Fibonacci numbers: `fib(0) = 0`, `fib(1) = 1`,
/// `fib(n + 2) = fib(n + 1) + fib(n)`.
pub open spec fn fib(n: nat) -> nat
    decreases n,
{
    if n == 0 {
        0
    } else if n == 1 {
        1
    } else {
        fib((n - 1) as nat) + fib((n - 2) as nat)
    }
}

/// The Fibonacci number that comes before `fib(n)`, with the usual
/// extension `fib(-1) = 1`: it is `fib(n + 1) - fib(n)`.
pub open spec fn fib_before(n: nat) -> int {
    fib(n + 1) - fib(n)
}

/// The first few Fibonacci numbers.
pub proof fn lemma_fib_small()
    ensures
        fib(0) == 0,
        fib(1) == 1,
        fib(2) == 1,
        fib(3) == 2,
{
    reveal_with_fuel(fib, 4);
}

/// One step of the recurrence, stated for any index.
pub proof fn lemma_fib_step(n: nat)
    ensures
        fib(n + 2) == fib(n + 1) + fib(n),
{
}

/// The Fibonacci numbers never decrease.
pub proof fn lemma_fib_monotone(i: nat, j: nat)
    requires
        i <= j,
    ensures
        fib(i) <= fib(j),
    decreases j - i,
{
    if i < j {
        lemma_fib_monotone(i, (j - 1) as nat);
        if j >= 2 {
            lemma_fib_step((j - 2) as nat);
        }
    }
}

/// From index 1 on, the Fibonacci numbers are positive.
pub proof fn lemma_fib_positive(n: nat)
    requires
        n >= 1,
    ensures
        fib(n) >= 1,
{
    lemma_fib_monotone(1, n);
}

/// `fib(n + 2) < 2^(n + 1)`.
pub proof fn lemma_fib_below_pow2(n: nat)
    ensures
        fib(n + 2) < pow2(n + 1),
    decreases n,
{
    lemma2_to64();
    lemma_fib_small();
    if n >= 2 {
        lemma_fib_below_pow2((n - 1) as nat);
        lemma_fib_below_pow2((n - 2) as nat);
        lemma_fib_step(n);
        lemma_pow2_unfold(n + 1);
        lemma_pow2_unfold(n);
    }
}

/// The addition law `fib(m + n + 1) = fib(m + 1) fib(n + 1) + fib(m) fib(n)`.
pub proof fn lemma_fib_add(m: nat, n: nat)
    ensures
        fib(m + n + 1) == fib(m + 1) * fib(n + 1) + fib(m) * fib(n),
    decreases n,
{
    lemma_fib_small();
    if n == 0 {
        assert(fib(n + 1) == 1 && fib(n) == 0);
        let a = fib(m + 1) as int;
        let b = fib(m) as int;
        assert(a == a * 1 + b * 0) by (nonlinear_arith);
    } else if n == 1 {
        lemma_fib_step(m);
        assert(fib(n + 1) == 1 && fib(n) == 1 && m + n + 1 == m + 2);
        let a = fib(m + 1) as int;
        let b = fib(m) as int;
        assert(a + b == a * 1 + b * 1) by (nonlinear_arith);
    } else {
        let n1 = (n - 1) as nat;
        let n2 = (n - 2) as nat;
        lemma_fib_add(m, n1);
        lemma_fib_add(m, n2);
        assert(m + n1 + 1 == m + n);
        assert(m + n2 + 1 == m + n1);
        lemma_fib_step(m + n1);
        assert(m + n1 + 2 == m + n + 1);
        lemma_fib_step(n1);
        lemma_fib_step(n2);
        assert(n1 + 2 == n + 1 && n2 + 2 == n && n2 + 1 == n1 && n1 + 1 == n);
        let a = fib(m + 1) as int;
        let b = fib(m) as int;
        let (f0, f1, f2) = (fib(n) as int, fib(n1) as int, fib(n2) as int);
        assert(a * f0 + b * f1 + (a * f1 + b * f2) == a * (f0 + f1) + b * (f1 + f2))
            by (nonlinear_arith);
        assert(fib(n + 1) == f0 + f1 && fib(n) == f1 + f2);
        assert(fib(m + n + 1) == fib(m + n) + fib(m + n1));
    }
}

/// The addition law in the form that uses `fib_before`:
/// `fib(m + n) = fib(m + 1) fib(n) + fib(m) fib_before(n)`.
pub proof fn lemma_fib_add_before(m: nat, n: nat)
    ensures
        fib(m + n) == fib(m + 1) * fib(n) + fib(m) * fib_before(n),
{
    lemma_fib_small();
    let a = fib(m + 1) as int;
    let b = fib(m) as int;
    if n > 0 {
        let n1 = (n - 1) as nat;
        lemma_fib_add(m, n1);
        lemma_fib_step(n1);
        assert(m + n1 + 1 == m + n && n1 + 1 == n && n1 + 2 == n + 1);
        assert(fib_before(n) == fib(n1));
    } else {
        assert(fib_before(n) == 1 && fib(n) == 0);
        assert(b == a * 0 + b * 1) by (nonlinear_arith);
    }
}

} // verus!

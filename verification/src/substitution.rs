//! The Fibonacci substitution matrix `[[1, 1], [1, 0]]` and its powers.

use crate::fibonacci::{
    fib, fib_before, lemma_fib_add, lemma_fib_add_before, lemma_fib_below_pow2, lemma_fib_monotone,
    lemma_fib_positive, lemma_fib_small, lemma_fib_step,
};
use vstd::arithmetic::power2::*;
use vstd::prelude::*;

verus! {

/// A 2×2 integer matrix `[[a, b], [c, d]]`, written as `(a, b, c, d)`.
pub type Mat2 = (int, int, int, int);

/// The matrix that a `[[u64; 2]; 2]` holds.
pub open spec fn mat_of(m: [[u64; 2]; 2]) -> Mat2 {
    (m[0][0] as int, m[0][1] as int, m[1][0] as int, m[1][1] as int)
}

/// The matrix product `x · y`.
pub open spec fn mat_mul(x: Mat2, y: Mat2) -> Mat2 {
    (
        x.0 * y.0 + x.1 * y.2,
        x.0 * y.1 + x.1 * y.3,
        x.2 * y.0 + x.3 * y.2,
        x.2 * y.1 + x.3 * y.3,
    )
}

/// The identity matrix.
pub open spec fn mat_identity() -> Mat2 {
    (1, 0, 0, 1)
}

/// `m` raised to the power `n`.
pub open spec fn mat_pow(m: Mat2, n: nat) -> Mat2
    decreases n,
{
    if n == 0 {
        mat_identity()
    } else {
        mat_mul(mat_pow(m, (n - 1) as nat), m)
    }
}

/// The substitution matrix `[[1, 1], [1, 0]]`: a thick rhomb becomes a thick
/// and a thin one, a thin rhomb becomes a thick one.
pub open spec fn substitution() -> Mat2 {
    (1, 1, 1, 0)
}

/// The Fibonacci matrix `[[F(n+1), F(n)], [F(n), F(n-1)]]`.
pub open spec fn fib_matrix(n: nat) -> Mat2 {
    (fib(n + 1) as int, fib(n) as int, fib(n) as int, fib_before(n))
}

/// The entries of the product of two `u64` matrices fit in a `u64` (and with
/// them the products of entries that they add up).
pub open spec fn mat_mul_fits(a: [[u64; 2]; 2], b: [[u64; 2]; 2]) -> bool {
    let p = mat_mul(mat_of(a), mat_of(b));
    &&& p.0 <= u64::MAX
    &&& p.1 <= u64::MAX
    &&& p.2 <= u64::MAX
    &&& p.3 <= u64::MAX
}

/// Fibonacci matrices multiply by adding their indices:
/// `fib_matrix(p) · fib_matrix(q) = fib_matrix(p + q)`.
pub proof fn lemma_fib_matrix_mul(p: nat, q: nat)
    ensures
        mat_mul(fib_matrix(p), fib_matrix(q)) == fib_matrix(p + q),
{
    lemma_fib_add(p, q);
    lemma_fib_add_before(p, q);
    lemma_fib_add_before(q, p);
    let fp1 = fib(p + 1) as int;
    let fp = fib(p) as int;
    let fq1 = fib(q + 1) as int;
    let fq = fib(q) as int;
    assert(fp * fq + (fp1 - fp) * (fq1 - fq) == fp1 * fq1 + fp * fq - (fp1 * fq + fp * (fq1
        - fq))) by (nonlinear_arith);
    assert(fp * fq1 + (fp1 - fp) * fq == fq1 * fp + fq * (fp1 - fp)) by (nonlinear_arith);
    assert(p + q + 1 == q + p + 1);
}

/// Every power of the substitution matrix is a Fibonacci matrix:
/// `[[1, 1], [1, 0]]^n = [[F(n+1), F(n)], [F(n), F(n-1)]]`.
pub proof fn lemma_substitution_pow(n: nat)
    ensures
        mat_pow(substitution(), n) == fib_matrix(n),
    decreases n,
{
    lemma_fib_small();
    if n > 0 {
        lemma_substitution_pow((n - 1) as nat);
        lemma_fib_matrix_mul((n - 1) as nat, 1);
        assert(fib_matrix(1) == substitution());
    }
}

/// The determinant of a 2×2 matrix.
pub open spec fn mat_det(m: Mat2) -> int {
    m.0 * m.3 - m.1 * m.2
}

/// `(a b + c d)(e f + g h) = a b e f + a b g h + c d e f + c d g h`.
proof fn lemma_expand_products(a: int, b: int, c: int, d: int, e: int, f: int, g: int, h: int)
    ensures
        (a * b + c * d) * (e * f + g * h) == (a * e) * (b * f) + (a * g) * (b * h) + (c * e) * (d * f)
            + (c * g) * (d * h),
{
    assert((a * b + c * d) * (e * f + g * h) == (a * b) * (e * f) + (a * b) * (g * h) + (c * d) * (e
        * f) + (c * d) * (g * h)) by (nonlinear_arith);
    assert((a * b) * (e * f) == (a * e) * (b * f)) by (nonlinear_arith);
    assert((a * b) * (g * h) == (a * g) * (b * h)) by (nonlinear_arith);
    assert((c * d) * (e * f) == (c * e) * (d * f)) by (nonlinear_arith);
    assert((c * d) * (g * h) == (c * g) * (d * h)) by (nonlinear_arith);
}

/// The determinant of a product is the product of the determinants.
pub proof fn lemma_mat_det_mul(x: Mat2, y: Mat2)
    ensures
        mat_det(mat_mul(x, y)) == mat_det(x) * mat_det(y),
{
    let (a, b, c, d) = x;
    let (e, f, g, h) = y;
    // (ae + bg)(cf + dh) − (af + bh)(ce + dg) = (ad − bc)(eh − fg)
    lemma_expand_products(a, e, b, g, c, f, d, h);
    lemma_expand_products(a, f, b, h, c, e, d, g);
    assert((a * d - b * c) * (e * h - f * g) == (a * d) * (e * h) - (a * d) * (f * g) - (b * c) * (e
        * h) + (b * c) * (f * g)) by (nonlinear_arith);
}

/// Cassini's identity: `det [[F(n+1), F(n)], [F(n), F(n-1)]] = (−1)^n`.
pub proof fn lemma_fib_matrix_det(n: nat)
    ensures
        mat_det(fib_matrix(n)) == if n % 2 == 0 {
            1int
        } else {
            -1int
        },
    decreases n,
{
    lemma_fib_small();
    if n > 0 {
        lemma_fib_matrix_det((n - 1) as nat);
        lemma_fib_matrix_mul((n - 1) as nat, 1);
        lemma_mat_det_mul(fib_matrix((n - 1) as nat), fib_matrix(1));
        let one = fib_matrix(1);
        assert(one == (1int, 1int, 1int, 0int));
        assert(mat_det(one) == -1) by (nonlinear_arith)
            requires
                one == (1int, 1int, 1int, 0int),
        ;
        let prev = mat_det(fib_matrix((n - 1) as nat));
        assert(prev * -1 == -prev) by (nonlinear_arith);
        assert((n - 1) as nat + 1 == n);
        assert(mat_det(fib_matrix(n)) == -prev);
        assert((n % 2 == 0) == ((n - 1) as nat % 2 != 0));
    } else {
        let zero = fib_matrix(0);
        assert(zero == (1int, 0int, 0int, 1int));
        assert(mat_det(zero) == 1) by (nonlinear_arith)
            requires
                zero == (1int, 0int, 0int, 1int),
        ;
    }
}

/// The product of two `u64` 2×2 matrices, `c[i][j] = Σ_k a[i][k] · b[k][j]`.
pub fn mat2_mul_u64(a: &[[u64; 2]; 2], b: &[[u64; 2]; 2]) -> (c: [[u64; 2]; 2])
    requires
        mat_mul_fits(*a, *b),
    ensures
        mat_of(c) == mat_mul(mat_of(*a), mat_of(*b)),
{
    let c00 = a[0][0] * b[0][0] + a[0][1] * b[1][0];
    let c01 = a[0][0] * b[0][1] + a[0][1] * b[1][1];
    let c10 = a[1][0] * b[0][0] + a[1][1] * b[1][0];
    let c11 = a[1][0] * b[0][1] + a[1][1] * b[1][1];
    [[c00, c01], [c10, c11]]
}

/// The Fibonacci substitution: the matrix `[[1, 1], [1, 0]]`, its eigenvalues
/// φ and −1/φ, and its powers.
pub struct SubstitutionMatrix;

impl SubstitutionMatrix {
    /// The `n`-th power of the substitution matrix,
    /// `[[F(n+1), F(n)], [F(n), F(n-1)]]`, by repeated squaring.
    ///
    /// The squaring loop forms `[[1, 1], [1, 0]]^(2^b)`, with `b` the number of
    /// bits of `n`, before it stops; from `n = 64` on that power no longer fits
    /// in `u64`.
    pub fn apply_n(n: usize) -> (m: [[u64; 2]; 2])
        requires
            n < 64,
        ensures
            mat_of(m) == fib_matrix(n as nat),
    {
        let mut a: [[u64; 2]; 2] = [[1, 0], [0, 1]];
        let mut base: [[u64; 2]; 2] = [[1, 1], [1, 0]];
        let mut exp = n;
        let ghost mut p: nat = 0;
        let ghost mut k: nat = 0;
        proof {
            lemma2_to64();
            lemma_fib_small();
            lemma_fib_below_pow2(63);
            lemma2_to64_rest();
        }
        while exp > 0
            invariant
                n < 64,
                mat_of(a) == fib_matrix(p),
                mat_of(base) == fib_matrix(pow2(k)),
                p + pow2(k) * exp == n,
                fib(65) < pow2(64),
                pow2(64) == 0x10000000000000000,
            decreases exp,
        {
            let ghost q = pow2(k);
            proof {
                lemma_pow2_pos(k);
                assert(q <= 63) by (nonlinear_arith)
                    requires q * exp <= n, exp >= 1, n < 64, q > 0;
                lemma2_to64();
                if k > 6 {
                    lemma_pow2_strictly_increases(6, k);
                }
                if k + 1 < 6 {
                    lemma_pow2_strictly_increases(k + 1, 6);
                }
                lemma_pow2_unfold(k + 1);
            }
            if exp % 2 == 1 {
                proof {
                    lemma_fib_matrix_mul(p, q);
                    assert(p + q <= n) by (nonlinear_arith)
                        requires p + q * exp == n, exp >= 1, q > 0;
                    lemma_fib_monotone(p + q + 1, 65);
                    lemma_fib_monotone(p + q, 65);
                    lemma_fib_step(p + q);
                }
                a = mat2_mul_u64(&a, &base);
                proof {
                    assert(p + q * exp == p + q + q * (exp - 1)) by (nonlinear_arith);
                    p = p + q;
                }
            }
            proof {
                lemma_fib_matrix_mul(q, q);
                lemma_fib_monotone(q + q + 1, 65);
                lemma_fib_monotone(q + q, 65);
                lemma_fib_step(q + q);
            }
            base = mat2_mul_u64(&base, &base);
            proof {
                assert(p + q * 2 * (exp / 2) == n) by (nonlinear_arith)
                    requires
                        exp % 2 == 0 ==> p + q * exp == n,
                        exp % 2 == 1 ==> p + q * (exp - 1) == n;
                lemma_pow2_unfold(k + 1);
                k = k + 1;
            }
            exp = exp / 2;
        }
        a
    }

    /// The thick and thin tile counts after `k` substitutions of a thick and a
    /// thin rhomb, for `k = 1, ..., n`: row sums of the `k`-th power,
    /// `(F(k+1) + F(k), F(k) + F(k-1)) = (F(k+2), F(k+1))`, whose ratios
    /// converge to φ.
    pub fn golden_ratio_terms(n: usize) -> (terms: Vec<(u64, u64)>)
        requires
            n < 64,
        ensures
            terms@.len() == n,
            forall|k: int|
                0 <= k < n ==> (#[trigger] terms@[k]).0 == fib((k + 3) as nat) && terms@[k].1 == fib(
                    (k + 2) as nat,
                ),
    {
        let mut terms: Vec<(u64, u64)> = Vec::new();
        let mut k: usize = 1;
        proof {
            lemma_fib_below_pow2(63);
            lemma2_to64();
            lemma2_to64_rest();
        }
        while k <= n
            invariant
                1 <= k <= n + 1,
                n < 64,
                fib(65) < pow2(64),
                pow2(64) == 0x10000000000000000,
                terms@.len() == k - 1,
                forall|i: int|
                    0 <= i < k - 1 ==> (#[trigger] terms@[i]).0 == fib((i + 3) as nat) && terms@[i].1
                        == fib((i + 2) as nat),
            decreases n + 1 - k,
        {
            let m = Self::apply_n(k);
            proof {
                lemma_fib_step(k as nat);
                lemma_fib_step((k - 1) as nat);
                lemma_fib_monotone(k as nat + 2, 65);
                lemma_fib_positive(k as nat + 1);
            }
            let thick = m[0][0] + m[0][1];
            let thin = m[1][0] + m[1][1];
            if thin > 0 {
                terms.push((thick, thin));
            }
            k = k + 1;
        }
        terms
    }
}

} // verus!

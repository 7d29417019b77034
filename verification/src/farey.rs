//! Farey sequences, the Farey graph, mediants and the Stern–Brocot tree.

use crate::fibonacci::{fib, lemma_fib_below_pow2, lemma_fib_monotone, lemma_fib_small, lemma_fib_step};
use crate::number_theory::{
    gcd, greatest_common_divisor, is_reduced, lemma_reduced_unique,
};
use vstd::arithmetic::power2::lemma2_to64;
use vstd::prelude::*;

verus! {

/// A fraction `p / q`, written as the pair `(p, q)`.
pub type Fraction = (u64, u64);

/// `x < y` as fractions with positive denominators, by cross multiplication.
pub open spec fn frac_lt(x: Fraction, y: Fraction) -> bool {
    x.0 * y.1 < y.0 * x.1
}

/// Both parts of the fraction are at most `u32::MAX`, so that cross products
/// fit in a `u64`.
spec fn frac_small(x: Fraction) -> bool {
    x.0 <= u32::MAX && x.1 <= u32::MAX
}

/// The largest denominator of the Farey sequence of order `n`: `n`, and `1`
/// for the order `0`, whose sequence is `0/1, 1/1` as for order `1`.
pub open spec fn farey_bound(n: nat) -> nat {
    if n == 0 {
        1
    } else {
        n
    }
}

/// `x` belongs to the Farey sequence of order `n`: it is a fraction in lowest
/// terms between 0 and 1 whose denominator is at most `farey_bound(n)`.
pub open spec fn in_farey(n: nat, x: Fraction) -> bool {
    &&& is_reduced(x.0 as nat, x.1 as nat)
    &&& x.0 <= x.1
    &&& x.1 <= farey_bound(n)
}

/// The fractions of `s` strictly increase.
pub open spec fn strictly_increasing(s: Seq<Fraction>) -> bool {
    forall|i: int, j: int| 0 <= i < j < s.len() ==> frac_lt(#[trigger] s[i], #[trigger] s[j])
}

/// `s` is the Farey sequence of order `n`: every fraction in lowest terms in
/// `[0, 1]` with denominator at most `n`, once each, in increasing order.
pub open spec fn is_farey_sequence(s: Seq<Fraction>, n: nat) -> bool {
    &&& strictly_increasing(s)
    &&& forall|x: Fraction| s.contains(x) <==> in_farey(n, x)
}

/// Every fraction of `s` is in lowest terms and small enough for cross
/// multiplication in `u64`.
spec fn all_reduced_small(s: Seq<Fraction>) -> bool {
    forall|k: int|
        0 <= k < s.len() ==> is_reduced((#[trigger] s[k]).0 as nat, s[k].1 as nat) && frac_small(s[k])
}

/// The fractions that `of_order(n)` has gathered once it has tried every
/// numerator below `numer` over the denominator `denom`: `0/1`, and the members
/// of the sequence with a positive numerator that come before that point.
spec fn farey_gathered(n: nat, denom: nat, numer: nat, y: Fraction) -> bool {
    ||| y == (0u64, 1u64)
    ||| in_farey(n, y) && y.0 >= 1 && (y.1 < denom || (y.1 == denom && y.0 < numer))
}

/// Fractions `i` and `j` of `s` are joined in the Farey graph: they are
/// distinct places and `|b c − a d| = 1` for `s[i] = a/b`, `s[j] = c/d`.
pub open spec fn farey_adjacent(s: Seq<Fraction>, i: int, j: int) -> bool {
    let (a, b) = s[i];
    let (c, d) = s[j];
    i != j && (b * c - a * d == 1 || a * d - b * c == 1)
}

/// For every `i < j`, the cross products of the fractions `a/b = s[i]` and
/// `c/d = s[j]`, `b c` and `a d`, fit in a `u64`.
pub open spec fn cross_products_fit(s: Seq<Fraction>) -> bool {
    forall|i: int, j: int|
        0 <= i < j < s.len() ==> #[trigger] s[i].1 * #[trigger] s[j].0 <= u64::MAX && s[i].0 * s[j].1
            <= u64::MAX
}

/// The fractions of a sequence as pairs of natural numbers.
pub open spec fn pairs_view(s: Seq<Fraction>) -> Seq<(nat, nat)> {
    s.map_values(|p: Fraction| (p.0 as nat, p.1 as nat))
}

/// The part of the Stern–Brocot tree below the fractions `a/b` and `c/d`, at
/// level `lvl` of a tree of `depth` levels: the mediant, then the part below
/// `a/b` and the mediant, then the part below the mediant and `c/d`.
pub open spec fn sb_subtree(a: nat, b: nat, c: nat, d: nat, lvl: nat, depth: nat) -> Seq<(nat, nat)>
    decreases depth - lvl,
{
    let p = a + c;
    let q = b + d;
    if lvl + 1 < depth {
        seq![(p, q)] + sb_subtree(a, b, p, q, lvl + 1, depth) + sb_subtree(p, q, c, d, lvl + 1, depth)
    } else {
        seq![(p, q)]
    }
}

/// The Stern–Brocot tree of `depth` levels, in the order node, left subtree,
/// right subtree, grown from `0/1` and `1/0`.
pub open spec fn stern_brocot_seq(depth: nat) -> Seq<(nat, nat)> {
    sb_subtree(0, 1, 1, 0, 0, depth)
}

/// A pending node of the Stern–Brocot walk: the fractions `a/b`, `c/d` that
/// bound it, and its level.
type SternBrocotEntry = (u64, u64, u64, u64, usize);

/// What the pending nodes of a stack still have to give, the top first.
spec fn stack_pending(st: Seq<SternBrocotEntry>, depth: nat) -> Seq<(nat, nat)>
    decreases st.len(),
{
    if st.len() == 0 {
        Seq::empty()
    } else {
        let e = st.last();
        sb_subtree(e.0 as nat, e.1 as nat, e.2 as nat, e.3 as nat, e.4 as nat, depth) + stack_pending(
            st.drop_last(),
            depth,
        )
    }
}

/// A pending node lies within the tree and its bounds are small enough that
/// the mediants below it fit in a `u64`.
spec fn entry_ok(e: SternBrocotEntry, depth: nat) -> bool {
    let (a, b, c, d, lvl) = e;
    &&& (lvl == 0 || lvl < depth)
    &&& lvl < depth + 1
    &&& a <= fib(lvl as nat + 1)
    &&& b <= fib(lvl as nat + 1)
    &&& c <= fib(lvl as nat + 1)
    &&& d <= fib(lvl as nat + 1)
    &&& a + c <= fib(lvl as nat + 2)
    &&& b + d <= fib(lvl as nat + 2)
}

/// A tree of at most `usize::BITS` levels has at most 64, and its mediants
/// fit in a `u64`.
proof fn lemma_depth_fits(depth: nat)
    requires
        depth <= usize::BITS,
    ensures
        depth <= 64,
        fib(depth + 1) <= u64::MAX,
{
    lemma2_to64();
    lemma_fib_below_pow2(63);
    lemma_fib_monotone(depth + 1, 65);
}

/// `x < y < z` implies `x < z`, for fractions with positive denominators.
pub proof fn lemma_frac_lt_trans(x: Fraction, y: Fraction, z: Fraction)
    requires
        x.1 > 0,
        y.1 > 0,
        z.1 > 0,
        frac_lt(x, y),
        frac_lt(y, z),
    ensures
        frac_lt(x, z),
{
    let (a, b, c, d, e, f) = (x.0 as int, x.1 as int, y.0 as int, y.1 as int, z.0 as int, z.1 as int);
    assert(a * f < e * b) by (nonlinear_arith)
        requires
            a * d < c * b,
            c * f < e * d,
            b > 0,
            d > 0,
            f > 0,
            a >= 0,
            c >= 0,
            e >= 0,
    {
        assert(a * d * f < c * b * f);
        assert(c * f * b < e * d * b);
        assert(a * f * d < e * b * d);
    }
}

/// Of two distinct fractions in lowest terms, one is smaller than the other.
pub proof fn lemma_frac_trichotomy(x: Fraction, y: Fraction)
    requires
        is_reduced(x.0 as nat, x.1 as nat),
        is_reduced(y.0 as nat, y.1 as nat),
        x != y,
    ensures
        frac_lt(x, y) || frac_lt(y, x),
{
    if x.0 * y.1 == y.0 * x.1 {
        lemma_reduced_unique(x.0 as nat, x.1 as nat, y.0 as nat, y.1 as nat);
    }
}

/// What a sequence holds after a push: what it held, and the new element.
proof fn lemma_push_contains<A>(s: Seq<A>, x: A)
    ensures
        forall|y: A| #[trigger] s.push(x).contains(y) <==> (s.contains(y) || y == x),
{
    assert forall|y: A| s.push(x).contains(y) <==> (s.contains(y) || y == x) by {
        if s.push(x).contains(y) && y != x {
            let k = choose|k: int| 0 <= k < s.push(x).len() && s.push(x)[k] == y;
            assert(s[k] == y);
        }
        if s.contains(y) {
            let k = choose|k: int| 0 <= k < s.len() && s[k] == y;
            assert(s.push(x)[k] == y);
        }
        assert(s.push(x)[s.len() as int] == x);
    }
}

/// `x <= y` as fractions with positive denominators, by cross multiplication.
spec fn frac_le(x: Fraction, y: Fraction) -> bool {
    x.0 * y.1 <= y.0 * x.1
}

/// The fractions of `s` never decrease.
spec fn nondecreasing(s: Seq<Fraction>) -> bool {
    forall|i: int, j: int| 0 <= i < j < s.len() ==> frac_le(#[trigger] s[i], #[trigger] s[j])
}

/// `x <= y <= z` implies `x <= z`, for fractions with positive denominators.
proof fn lemma_frac_le_trans(x: Fraction, y: Fraction, z: Fraction)
    requires
        x.1 > 0,
        y.1 > 0,
        z.1 > 0,
        frac_le(x, y),
        frac_le(y, z),
    ensures
        frac_le(x, z),
{
    let (a, b, c, d, e, f) = (x.0 as int, x.1 as int, y.0 as int, y.1 as int, z.0 as int, z.1 as int);
    assert(a * f <= e * b) by (nonlinear_arith)
        requires
            a * d <= c * b,
            c * f <= e * d,
            b > 0,
            d > 0,
            f > 0,
            a >= 0,
            c >= 0,
            e >= 0,
    {
        assert(a * d * f <= c * b * f);
        assert(c * f * b <= e * d * b);
        assert(a * f * d <= e * b * d);
    }
}

/// Compares two fractions whose parts fit in 32 bits: `x <= y`.
fn frac_at_most(x: Fraction, y: Fraction) -> (r: bool)
    requires
        frac_small(x),
        frac_small(y),
    ensures
        r == frac_le(x, y),
{
    proof {
        assert(x.0 * y.1 <= u64::MAX && y.0 * x.1 <= u64::MAX) by (nonlinear_arith)
            requires
                frac_small(x),
                frac_small(y),
        ;
    }
    x.0 * y.1 <= y.0 * x.1
}

/// Merges two lists that never decrease into one that never decreases.
fn merge_fractions(left: Vec<Fraction>, right: Vec<Fraction>) -> (merged: Vec<Fraction>)
    requires
        nondecreasing(left@),
        nondecreasing(right@),
        all_reduced_small(left@),
        all_reduced_small(right@),
    ensures
        nondecreasing(merged@),
        all_reduced_small(merged@),
        merged@.len() == left@.len() + right@.len(),
        forall|y: Fraction| merged@.contains(y) <==> (left@.contains(y) || right@.contains(y)),
{
    let mut merged: Vec<Fraction> = Vec::new();
    let mut i: usize = 0;
    let mut j: usize = 0;
    while i < left.len() || j < right.len()
        invariant
            nondecreasing(left@),
            nondecreasing(right@),
            all_reduced_small(left@),
            all_reduced_small(right@),
            i <= left@.len(),
            j <= right@.len(),
            merged@.len() == i + j,
            nondecreasing(merged@),
            all_reduced_small(merged@),
            merged@.len() > 0 && i < left@.len() ==> frac_le(merged@.last(), left@[i as int]),
            merged@.len() > 0 && j < right@.len() ==> frac_le(merged@.last(), right@[j as int]),
            forall|y: Fraction|
                merged@.contains(y) <==> (left@.take(i as int).contains(y) || right@.take(
                    j as int,
                ).contains(y)),
        decreases left@.len() + right@.len() - i - j,
    {
        let ghost before = merged@;
        let take_left = j >= right.len() || (i < left.len() && frac_at_most(left[i], right[j]));
        let x = if take_left {
            left[i]
        } else {
            right[j]
        };
        proof {
            if before.len() > 0 {
                assert(frac_le(before.last(), x));
                assert forall|k: int| 0 <= k < before.len() implies frac_le(#[trigger] before[k], x) by {
                    if k < before.len() - 1 {
                        assert(frac_le(before[k], before[before.len() - 1]));
                        lemma_frac_le_trans(before[k], before.last(), x);
                    }
                }
            }
        }
        merged.push(x);
        proof {
            assert forall|a: int, b: int| 0 <= a < b < merged@.len() implies frac_le(
                #[trigger] merged@[a],
                #[trigger] merged@[b],
            ) by {
                if b < before.len() {
                    assert(merged@[a] == before[a] && merged@[b] == before[b]);
                } else {
                    assert(merged@[a] == before[a]);
                }
            }
            assert forall|k: int| 0 <= k < merged@.len() implies is_reduced(
                (#[trigger] merged@[k]).0 as nat,
                merged@[k].1 as nat,
            ) && frac_small(merged@[k]) by {
                if k < before.len() {
                    assert(merged@[k] == before[k]);
                }
            }
        }
        if take_left {
            proof {
                assert(left@.take(i as int + 1) =~= left@.take(i as int).push(x));
                if i + 1 < left@.len() {
                    assert(frac_le(left@[i as int], left@[i as int + 1]));
                }
                if !(j >= right@.len()) {
                    assert(frac_le(x, right@[j as int]));
                }
                assert(merged@ == before.push(x));
                lemma_push_contains(before, x);
                lemma_push_contains(left@.take(i as int), x);
                assert forall|y: Fraction|
                    merged@.contains(y) <==> (left@.take(i as int + 1).contains(y) || right@.take(
                        j as int,
                    ).contains(y)) by {
                    assert(before.push(x).contains(y) <==> (before.contains(y) || y == x));
                    assert(merged@.contains(y) <==> (before.contains(y) || y == x));
                    assert(before.contains(y) <==> (left@.take(i as int).contains(y) || right@.take(
                        j as int,
                    ).contains(y)));
                }
            }
            i = i + 1;
        } else {
            proof {
                assert(right@.take(j as int + 1) =~= right@.take(j as int).push(x));
                if j + 1 < right@.len() {
                    assert(frac_le(right@[j as int], right@[j as int + 1]));
                }
                if i < left@.len() {
                    assert(!frac_le(left@[i as int], x));
                    assert(frac_le(x, left@[i as int])) by (nonlinear_arith)
                        requires
                            !(left@[i as int].0 * x.1 <= x.0 * left@[i as int].1),
                    ;
                }
                assert(merged@ == before.push(x));
                lemma_push_contains(before, x);
                lemma_push_contains(right@.take(j as int), x);
                assert forall|y: Fraction|
                    merged@.contains(y) <==> (left@.take(i as int).contains(y) || right@.take(
                        j as int + 1,
                    ).contains(y)) by {
                    assert(before.push(x).contains(y) <==> (before.contains(y) || y == x));
                    assert(merged@.contains(y) <==> (before.contains(y) || y == x));
                    assert(before.contains(y) <==> (left@.take(i as int).contains(y) || right@.take(
                        j as int,
                    ).contains(y)));
                }
            }
            j = j + 1;
        }
    }
    proof {
        assert(left@.take(left@.len() as int) =~= left@);
        assert(right@.take(right@.len() as int) =~= right@);
    }
    merged
}

/// Sorts fractions in lowest terms by value, by merge sort.
fn sort_fractions(v: Vec<Fraction>) -> (sorted: Vec<Fraction>)
    requires
        all_reduced_small(v@),
    ensures
        nondecreasing(sorted@),
        all_reduced_small(sorted@),
        sorted@.len() == v@.len(),
        forall|y: Fraction| sorted@.contains(y) <==> v@.contains(y),
    decreases v@.len(),
{
    if v.len() <= 1 {
        return v;
    }
    let mid = v.len() / 2;
    let mut left = v;
    let ghost whole = left@;
    let right = left.split_off(mid);
    proof {
        assert forall|k: int| 0 <= k < left@.len() implies is_reduced(
            (#[trigger] left@[k]).0 as nat,
            left@[k].1 as nat,
        ) && frac_small(left@[k]) by {
            assert(left@[k] == whole[k]);
        }
        assert forall|k: int| 0 <= k < right@.len() implies is_reduced(
            (#[trigger] right@[k]).0 as nat,
            right@[k].1 as nat,
        ) && frac_small(right@[k]) by {
            assert(right@[k] == whole[k + mid]);
        }
    }
    let sorted_left = sort_fractions(left);
    let sorted_right = sort_fractions(right);
    let merged = merge_fractions(sorted_left, sorted_right);
    proof {
        assert(whole =~= left@ + right@);
        assert forall|y: Fraction| merged@.contains(y) <==> whole.contains(y) by {
            if whole.contains(y) {
                let k = choose|k: int| 0 <= k < whole.len() && whole[k] == y;
                if k < mid {
                    assert(left@[k] == y);
                } else {
                    assert(right@[k - mid] == y);
                }
            }
            if left@.contains(y) {
                let k = choose|k: int| 0 <= k < left@.len() && left@[k] == y;
                assert(whole[k] == y);
            }
            if right@.contains(y) {
                let k = choose|k: int| 0 <= k < right@.len() && right@[k] == y;
                assert(whole[k + mid] == y);
            }
        }
    }
    merged
}

/// Drops the repeats from a sorted list of fractions in lowest terms; what is
/// left strictly increases.
fn dedup_fractions(v: Vec<Fraction>) -> (r: Vec<Fraction>)
    requires
        nondecreasing(v@),
        all_reduced_small(v@),
    ensures
        strictly_increasing(r@),
        all_reduced_small(r@),
        forall|y: Fraction| r@.contains(y) <==> v@.contains(y),
{
    let mut r: Vec<Fraction> = Vec::new();
    let mut i: usize = 0;
    while i < v.len()
        invariant
            nondecreasing(v@),
            all_reduced_small(v@),
            i <= v@.len(),
            strictly_increasing(r@),
            all_reduced_small(r@),
            r@.len() > 0 ==> i > 0 && r@.last() == v@[i - 1],
            r@.len() == 0 ==> i == 0,
            forall|y: Fraction| r@.contains(y) <==> v@.take(i as int).contains(y),
        decreases v@.len() - i,
    {
        let x = v[i];
        let ghost before = r@;
        proof {
            assert(v@.take(i as int + 1) =~= v@.take(i as int).push(x));
        }
        let repeat = r.len() > 0 && r[r.len() - 1].0 == x.0 && r[r.len() - 1].1 == x.1;
        if !repeat {
            proof {
                if before.len() > 0 {
                    let last = before.last();
                    assert(frac_le(v@[i - 1], v@[i as int]));
                    assert(last != x);
                    lemma_frac_trichotomy(last, x);
                    if frac_lt(x, last) {
                        assert(false) by (nonlinear_arith)
                            requires
                                x.0 * last.1 < last.0 * x.1,
                                last.0 * x.1 <= x.0 * last.1,
                        ;
                    }
                    assert forall|k: int| 0 <= k < before.len() implies frac_lt(#[trigger] before[k], x) by {
                        if k < before.len() - 1 {
                            assert(frac_lt(before[k], before[before.len() - 1]));
                            lemma_frac_lt_trans(before[k], last, x);
                        }
                    }
                }
            }
            r.push(x);
            proof {
                assert forall|a: int, b: int| 0 <= a < b < r@.len() implies frac_lt(
                    #[trigger] r@[a],
                    #[trigger] r@[b],
                ) by {
                    if b < before.len() {
                        assert(r@[a] == before[a] && r@[b] == before[b]);
                    } else {
                        assert(r@[a] == before[a]);
                    }
                }
                assert forall|k: int| 0 <= k < r@.len() implies is_reduced(
                    (#[trigger] r@[k]).0 as nat,
                    r@[k].1 as nat,
                ) && frac_small(r@[k]) by {
                    if k < before.len() {
                        assert(r@[k] == before[k]);
                    }
                }
                assert(r@ == before.push(x));
                lemma_push_contains(before, x);
                lemma_push_contains(v@.take(i as int), x);
                assert forall|y: Fraction| r@.contains(y) <==> v@.take(i as int + 1).contains(y) by {
                    assert(before.push(x).contains(y) <==> (before.contains(y) || y == x));
                    assert(r@.contains(y) <==> (before.contains(y) || y == x));
                    assert(before.contains(y) <==> v@.take(i as int).contains(y));
                }
            }
        } else {
            proof {
                assert(before.contains(x)) by {
                    assert(before[before.len() - 1] == x);
                }
                lemma_push_contains(v@.take(i as int), x);
            }
        }
        i = i + 1;
    }
    proof {
        assert(v@.take(v@.len() as int) =~= v@);
    }
    r
}

/// The Farey sequence of some order: the fractions in lowest terms in
/// `[0, 1]` whose denominators do not exceed the order, in increasing order.
pub struct FareySequence {
    pub n: usize,
    pub fractions: Vec<Fraction>,
}

impl FareySequence {
    /// The Farey sequence of order `n`.
    ///
    /// Beyond `u32::MAX` the order would ask for more than `2^59` fractions,
    /// more than a `Vec` of pairs can hold.
    pub fn of_order(n: usize) -> (r: FareySequence)
        requires
            n <= u32::MAX,
        ensures
            r.n == n,
            is_farey_sequence(r.fractions@, n as nat),
    {
        let mut fracs: Vec<Fraction> = Vec::new();
        proof {
            assert(greatest_common_divisor(0, 1) == 1) by {
                assert(greatest_common_divisor(1, 0) == 1);
            }
        }
        fracs.push((0, 1));
        let order = n as u64;
        let mut denom: u64 = 1;
        proof {
            assert forall|y: Fraction| #[trigger] fracs@.contains(y) <==> farey_gathered(
                n as nat,
                1,
                1,
                y,
            ) by {
                if y == (0u64, 1u64) {
                    assert(fracs@[0] == y);
                }
            }
        }
        while denom <= order
            invariant
                order == n,
                n <= u32::MAX,
                1 <= denom <= order + 1,
                all_reduced_small(fracs@),
                forall|y: Fraction|
                    #[trigger] fracs@.contains(y) <==> farey_gathered(n as nat, denom as nat, 1, y),
            decreases order + 1 - denom,
        {
            let mut numer: u64 = 1;
            while numer <= denom
                invariant
                    order == n,
                    n <= u32::MAX,
                    1 <= denom <= order,
                    1 <= numer <= denom + 1,
                    all_reduced_small(fracs@),
                    forall|y: Fraction|
                        #[trigger] fracs@.contains(y) <==> farey_gathered(
                            n as nat,
                            denom as nat,
                            numer as nat,
                            y,
                        ),
                decreases denom + 1 - numer,
            {
                let ghost before = fracs@;
                let coprime = gcd(numer, denom) == 1;
                if coprime {
                    fracs.push((numer, denom));
                }
                proof {
                    if coprime {
                        assert forall|k: int| 0 <= k < fracs@.len() implies is_reduced(
                            (#[trigger] fracs@[k]).0 as nat,
                            fracs@[k].1 as nat,
                        ) && frac_small(fracs@[k]) by {
                            if k < before.len() {
                                assert(fracs@[k] == before[k]);
                            }
                        }
                    }
                    assert forall|y: Fraction|
                        #[trigger] fracs@.contains(y) <==> farey_gathered(
                            n as nat,
                            denom as nat,
                            (numer + 1) as nat,
                            y,
                        ) by {
                        if coprime {
                            if fracs@.contains(y) && y != (numer, denom) {
                                let k = choose|k: int| 0 <= k < fracs@.len() && fracs@[k] == y;
                                assert(before[k] == y);
                            }
                            if before.contains(y) {
                                let k = choose|k: int| 0 <= k < before.len() && before[k] == y;
                                assert(fracs@[k] == y);
                            }
                            assert(fracs@[before.len() as int] == (numer, denom));
                        }
                        if y == (numer, denom) {
                            if coprime {
                                assert(in_farey(n as nat, y));
                            } else {
                                assert(!in_farey(n as nat, y));
                            }
                        }
                    }
                }
                numer = numer + 1;
            }
            proof {
                assert forall|y: Fraction|
                    #[trigger] fracs@.contains(y) <==> farey_gathered(
                        n as nat,
                        (denom + 1) as nat,
                        1,
                        y,
                    ) by {
                    assert(farey_gathered(n as nat, denom as nat, (denom + 1) as nat, y)
                        == farey_gathered(n as nat, (denom + 1) as nat, 1, y));
                }
            }
            denom = denom + 1;
        }
        proof {
            assert(greatest_common_divisor(1, 1) == 1) by {
                assert(1nat % 1nat == 0);
                assert(greatest_common_divisor(1, 0) == 1);
            }
        }
        let ghost gathered = fracs@;
        fracs.push((1, 1));
        proof {
            assert forall|k: int| 0 <= k < fracs@.len() implies is_reduced(
                (#[trigger] fracs@[k]).0 as nat,
                fracs@[k].1 as nat,
            ) && frac_small(fracs@[k]) by {
                if k < gathered.len() {
                    assert(fracs@[k] == gathered[k]);
                }
            }
            assert forall|y: Fraction| fracs@.contains(y) <==> in_farey(n as nat, y) by {
                if fracs@.contains(y) && y != (1u64, 1u64) {
                    let k = choose|k: int| 0 <= k < fracs@.len() && fracs@[k] == y;
                    assert(gathered[k] == y);
                }
                if gathered.contains(y) {
                    let k = choose|k: int| 0 <= k < gathered.len() && gathered[k] == y;
                    assert(fracs@[k] == y);
                }
                assert(fracs@[gathered.len() as int] == (1u64, 1u64));
                assert(gathered.contains(y) <==> farey_gathered(n as nat, (order + 1) as nat, 1, y));
                if in_farey(n as nat, y) && y.0 == 0 {
                    assert(0nat % (y.1 as nat) == 0);
                    assert(greatest_common_divisor(0, y.1 as nat) == greatest_common_divisor(
                        y.1 as nat,
                        0,
                    ));
                }
            }
        }
        let sorted = sort_fractions(fracs);
        let fractions = dedup_fractions(sorted);
        FareySequence { n, fractions }
    }

    /// The Farey graph on the fractions: `i` and `j` are joined when the
    /// fractions `a/b` and `c/d` at those places have `|bc − ad| = 1`. The
    /// cross products are formed for `i < j`, and the matrix is mirrored.
    pub fn farey_adjacency(&self) -> (adj: Vec<Vec<bool>>)
        requires
            cross_products_fit(self.fractions@),
        ensures
            adj@.len() == self.fractions@.len(),
            forall|i: int| 0 <= i < adj@.len() ==> (#[trigger] adj@[i])@.len() == self.fractions@.len(),
            forall|i: int, j: int|
                0 <= i < adj@.len() && 0 <= j < adj@.len() ==> (#[trigger] adj@[i]@[j] == farey_adjacent(
                    self.fractions@,
                    i,
                    j,
                )),
            forall|i: int, j: int|
                0 <= i < adj@.len() && 0 <= j < adj@.len() ==> (#[trigger] adj@[i]@[j] <==> (i != j && (
                self.fractions@[i].1 * self.fractions@[j].0 - self.fractions@[i].0 * self.fractions@[j].1
                    == 1 || self.fractions@[i].1 * self.fractions@[j].0 - self.fractions@[i].0
                    * self.fractions@[j].1 == -1))),
    {
        let m = self.fractions.len();
        let mut adj: Vec<Vec<bool>> = Vec::new();
        let mut i: usize = 0;
        while i < m
            invariant
                m == self.fractions@.len(),
                i <= m,
                cross_products_fit(self.fractions@),
                adj@.len() == i,
                forall|r: int| 0 <= r < i ==> (#[trigger] adj@[r])@.len() == m,
                forall|r: int, j: int|
                    0 <= r < i && 0 <= j < m ==> (#[trigger] adj@[r]@[j] == farey_adjacent(
                        self.fractions@,
                        r,
                        j,
                    )),
            decreases m - i,
        {
            let mut row: Vec<bool> = Vec::new();
            let mut j: usize = 0;
            while j < m
                invariant
                    m == self.fractions@.len(),
                    i < m,
                    j <= m,
                    cross_products_fit(self.fractions@),
                    adj@.len() == i,
                    forall|r: int| 0 <= r < i ==> (#[trigger] adj@[r])@.len() == m,
                    forall|r: int, c: int|
                        0 <= r < i && 0 <= c < m ==> (#[trigger] adj@[r]@[c] == farey_adjacent(
                            self.fractions@,
                            r,
                            c,
                        )),
                    row@.len() == j,
                    forall|c: int|
                        0 <= c < j ==> (#[trigger] row@[c] == farey_adjacent(self.fractions@, i as int, c)),
                decreases m - j,
            {
                let joined = if j < i {
                    // the pair was decided in row `j`
                    adj[j][i]
                } else if j == i {
                    false
                } else {
                    let (a, b) = self.fractions[i];
                    let (c, d) = self.fractions[j];
                    let bc = b * c;
                    let ad = a * d;
                    (bc >= ad && bc - ad == 1) || (ad > bc && ad - bc == 1)
                };
                row.push(joined);
                j = j + 1;
            }
            adj.push(row);
            i = i + 1;
        }
        adj
    }

    /// The mediant `(a + c) / (b + d)` of the fractions `a / b` and `c / d`.
    pub fn mediant(a: u64, b: u64, c: u64, d: u64) -> (m: Fraction)
        requires
            a + c <= u64::MAX,
            b + d <= u64::MAX,
        ensures
            m == ((a + c) as u64, (b + d) as u64),
    {
        (a + c, b + d)
    }

    /// The Stern–Brocot tree down to `depth` levels (at least one), walked
    /// node, left subtree, right subtree, from the root `1/1` between `0/1`
    /// and `1/0`.
    ///
    /// The tree has `2^depth − 1` nodes, which fit in a `usize` exactly when
    /// `depth <= usize::BITS`.
    pub fn stern_brocot_tree(depth: usize) -> (r: Vec<Fraction>)
        requires
            depth <= usize::BITS,
        ensures
            pairs_view(r@) == stern_brocot_seq(depth as nat),
    {
        let ghost dep = depth as nat;
        proof {
            lemma_depth_fits(dep);
            lemma_fib_small();
        }
        let mut result: Vec<Fraction> = Vec::new();
        let mut stack: Vec<SternBrocotEntry> = Vec::new();
        stack.push((0, 1, 1, 0, 0));
        proof {
            assert(stack@.drop_last() =~= Seq::<SternBrocotEntry>::empty());
            assert(stack_pending(Seq::<SternBrocotEntry>::empty(), dep) == Seq::<(nat, nat)>::empty());
            assert(stack_pending(stack@, dep) =~= sb_subtree(0, 1, 1, 0, 0, dep));
            assert(pairs_view(result@) =~= Seq::<(nat, nat)>::empty());
        }
        loop
            invariant
                dep == depth,
                depth <= 64,
                fib(dep + 1) <= u64::MAX,
                forall|k: int| 0 <= k < stack@.len() ==> entry_ok(#[trigger] stack@[k], dep),
                pairs_view(result@) + stack_pending(stack@, dep) == stern_brocot_seq(dep),
            ensures
                pairs_view(result@) == stern_brocot_seq(dep),
            decreases stern_brocot_seq(dep).len() - result@.len(),
        {
            let ghost old_stack = stack@;
            let ghost old_result = result@;
            match stack.pop() {
                None => {
                    proof {
                        assert(pairs_view(result@) + stack_pending(stack@, dep) =~= pairs_view(result@));
                    }
                    break;
                },
                Some(entry) => {
                    let (a, b, c, d, lvl) = entry;
                    let ghost rest = stack@;
                    proof {
                        assert(old_stack.last() == entry);
                        assert(entry_ok(old_stack[old_stack.len() - 1], dep));
                        assert(old_stack.drop_last() == rest);
                        if lvl as nat + 1 <= dep {
                            lemma_fib_monotone(lvl as nat + 2, dep + 1);
                        }
                        lemma_fib_monotone(lvl as nat + 1, lvl as nat + 2);
                        lemma_fib_step(lvl as nat + 1);
                    }
                    let (m_num, m_den) = Self::mediant(a, b, c, d);
                    result.push((m_num, m_den));
                    proof {
                        let lv = lvl as nat;
                        assert(pairs_view(result@) =~= pairs_view(old_result).push(
                            (m_num as nat, m_den as nat),
                        ));
                        reveal_with_fuel(sb_subtree, 1);
                    }
                    if lvl + 1 < depth {
                        stack.push((m_num, m_den, c, d, lvl + 1));
                        stack.push((a, b, m_num, m_den, lvl + 1));
                        proof {
                            let left: SternBrocotEntry = (a, b, m_num, m_den, (lvl + 1) as usize);
                            let right: SternBrocotEntry = (m_num, m_den, c, d, (lvl + 1) as usize);
                            assert(stack@ == rest.push(right).push(left));
                            assert(stack@.drop_last() == rest.push(right));
                            assert(rest.push(right).drop_last() == rest);
                            assert(rest.push(right).last() == right);
                            assert(stack_pending(rest.push(right), dep) == sb_subtree(
                                m_num as nat,
                                m_den as nat,
                                c as nat,
                                d as nat,
                                lvl as nat + 1,
                                dep,
                            ) + stack_pending(rest, dep));
                            assert(stack_pending(stack@, dep) == sb_subtree(
                                a as nat,
                                b as nat,
                                m_num as nat,
                                m_den as nat,
                                lvl as nat + 1,
                                dep,
                            ) + (sb_subtree(m_num as nat, m_den as nat, c as nat, d as nat, lvl as nat + 1, dep)
                                + stack_pending(rest, dep)));
                            assert(pairs_view(result@) + stack_pending(stack@, dep) =~= pairs_view(old_result)
                                + stack_pending(old_stack, dep));
                            assert forall|k: int| 0 <= k < stack@.len() implies entry_ok(#[trigger] stack@[k], dep) by {
                                if k < rest.len() {
                                    assert(stack@[k] == old_stack[k]);
                                }
                            }
                        }
                    } else {
                        proof {
                            assert(pairs_view(result@) + stack_pending(stack@, dep) =~= pairs_view(old_result)
                                + stack_pending(old_stack, dep));
                            assert forall|k: int| 0 <= k < stack@.len() implies entry_ok(#[trigger] stack@[k], dep) by {
                                assert(stack@[k] == old_stack[k]);
                            }
                        }
                    }
                },
            }
        }
        result
    }
}

} // verus!

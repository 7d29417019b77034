//! What holds of every Farey sequence, of mediants and of the Stern–Brocot
//! tree.

use crate::farey::{
    cross_products_fit, farey_adjacent, farey_bound, frac_lt, in_farey, is_farey_sequence, sb_subtree,
    stern_brocot_seq, strictly_increasing, Fraction,
};
use crate::number_theory::{is_reduced, lemma_bezout, lemma_coprime_from_combination};
use vstd::arithmetic::div_mod::{lemma_fundamental_div_mod, lemma_mod_bound};
use vstd::arithmetic::power2::{lemma2_to64, lemma_pow2_unfold, pow2};
use vstd::seq_lib::seq_to_set_is_finite;
use vstd::prelude::*;

verus! {

/// Neighbours in a Farey sequence: for consecutive fractions `a/b < c/d`,
/// `b c − a d = 1`.
pub proof fn lemma_farey_neighbors(s: Seq<Fraction>, n: nat, i: int)
    requires
        is_farey_sequence(s, n),
        0 <= i < s.len() - 1,
    ensures
        s[i + 1].0 * s[i].1 - s[i].0 * s[i + 1].1 == 1,
{
    let left = s[i];
    let right = s[i + 1];
    assert(s.contains(left));
    assert(s.contains(right));
    assert(frac_lt(left, right));
    let a = left.0 as int;
    let b = left.1 as int;
    let c = right.0 as int;
    let d = right.1 as int;
    // `a/b < c/d <= 1`, so `a < b`.
    assert(a < b) by (nonlinear_arith)
        requires
            a * d < c * b,
            c <= d,
            a <= b,
            d > 0,
            b > 0,
    ;
    let bound: int = if farey_bound(n) < u64::MAX {
        farey_bound(n) as int
    } else {
        u64::MAX as int
    };
    // A solution of `b x − a y = 1` with `bound − b < y <= bound`.
    let (x0, y0) = lemma_bezout(a as nat, b as nat);
    let start = -x0;
    let t = (bound - start) / b;
    let r = (bound - start) % b;
    lemma_fundamental_div_mod(bound - start, b);
    lemma_mod_bound(bound - start, b);
    let y = start + b * t;
    let x = y0 + a * t;
    assert(b * x - a * y == 1) by (nonlinear_arith)
        requires
            a * x0 + b * y0 == 1,
            y == -x0 + b * t,
            x == y0 + a * t,
    ;
    assert(y == bound - r);
    assert(bound - b < y <= bound);
    assert(y >= 1);
    assert(1 <= x <= y) by (nonlinear_arith)
        requires
            b * x - a * y == 1,
            0 <= a < b,
            y >= 1,
    {
        assert(b * x == 1 + a * y);
        assert(a * y <= (b - 1) * y);
        assert(b * x <= b * y);
    }
    let z: Fraction = (x as u64, y as u64);
    assert((x as nat) * b + (y as nat) * (-a) == 1) by (nonlinear_arith)
        requires
            b * x - a * y == 1,
            x >= 1,
            y >= 1,
    ;
    lemma_coprime_from_combination(x as nat, y as nat, b, -a);
    assert(in_farey(n, z));
    assert(s.contains(z));
    let k = choose|k: int| 0 <= k < s.len() && s[k] == z;
    assert(frac_lt(left, z)) by (nonlinear_arith)
        requires
            b * x - a * y == 1,
            z.0 == x,
            z.1 == y,
            left.0 == a,
            left.1 == b,
    ;
    if k <= i {
        if k < i {
            assert(frac_lt(s[k], s[i]));
        }
        assert(false) by (nonlinear_arith)
            requires
                a * y < x * b,
                x * b < a * y || (x == a && y == b),
        ;
    }
    if k > i + 1 {
        assert(frac_lt(right, s[k]));
        assert(d == b * (x * d - c * y) + y * (c * b - a * d)) by (nonlinear_arith)
            requires
                b * x - a * y == 1,
        ;
        assert(d >= b + y) by (nonlinear_arith)
            requires
                d == b * (x * d - c * y) + y * (c * b - a * d),
                c * y < x * d,
                a * d < c * b,
                b > 0,
                y > 0,
        ;
        assert(d <= bound);
        assert(false);
    }
}

/// A strictly increasing sequence of fractions holds no fraction twice.
pub proof fn lemma_strictly_increasing_no_duplicates(s: Seq<Fraction>)
    requires
        strictly_increasing(s),
    ensures
        s.no_duplicates(),
{
    assert forall|i: int, j: int| 0 <= i < s.len() && 0 <= j < s.len() && i != j implies s[i] != s[j] by {
        if i < j {
            assert(frac_lt(s[i], s[j]));
        } else {
            assert(frac_lt(s[j], s[i]));
        }
    }
}

/// A Farey sequence of higher order is longer: for `m < n` with `n >= 2`
/// (orders 0 and 1 give the same sequence), `|F_m| < |F_n|`.
pub proof fn lemma_farey_grows(s1: Seq<Fraction>, m: nat, s2: Seq<Fraction>, n: nat)
    requires
        is_farey_sequence(s1, m),
        is_farey_sequence(s2, n),
        m < n,
        2 <= n <= u64::MAX,
    ensures
        s1.len() < s2.len(),
{
    lemma_strictly_increasing_no_duplicates(s1);
    lemma_strictly_increasing_no_duplicates(s2);
    s1.unique_seq_to_set();
    s2.unique_seq_to_set();
    seq_to_set_is_finite(s2);
    let witness: Fraction = (1u64, n as u64);
    lemma_coprime_from_combination(1, n, 1, 0);
    assert(in_farey(n, witness));
    assert(s2.contains(witness));
    assert(s2.to_set().contains(witness));
    assert(!s1.to_set().contains(witness)) by {
        if s1.contains(witness) {
            assert(in_farey(m, witness));
        }
    }
    assert(s1.to_set().subset_of(s2.to_set())) by {
        assert forall|x: Fraction| s1.to_set().contains(x) implies s2.to_set().contains(x) by {
            assert(s1.contains(x));
            assert(in_farey(m, x));
            assert(in_farey(n, x));
            assert(s2.contains(x));
        }
    }
    s1.to_set().lemma_subset_not_in_lt(s2.to_set(), witness);
}

/// Consecutive fractions of a Farey sequence are joined in its Farey graph.
pub proof fn lemma_farey_neighbors_adjacent(s: Seq<Fraction>, n: nat, i: int)
    requires
        is_farey_sequence(s, n),
        0 <= i < s.len() - 1,
    ensures
        farey_adjacent(s, i, i + 1),
{
    lemma_farey_neighbors(s, n, i);
}

/// The mediant of two fractions lies strictly between them.
pub proof fn lemma_mediant_between(x: Fraction, y: Fraction)
    requires
        x.1 > 0,
        y.1 > 0,
        frac_lt(x, y),
    ensures
        ({
            let (p, q) = (x.0 + y.0, x.1 + y.1);
            &&& x.0 * q < p * x.1
            &&& p * y.1 < y.0 * q
        }),
{
    let (a, b, c, d) = (x.0 as int, x.1 as int, y.0 as int, y.1 as int);
    assert(a * (b + d) < (a + c) * b && (a + c) * d < c * (b + d)) by (nonlinear_arith)
        requires
            a * d < c * b,
    ;
}

/// Below two fractions with `c b − a d = 1`, every node of the Stern–Brocot
/// tree is a fraction in lowest terms with a positive denominator.
pub proof fn lemma_sb_subtree_reduced(a: nat, b: nat, c: nat, d: nat, lvl: nat, depth: nat)
    requires
        c * b - a * d == 1,
    ensures
        forall|k: int|
            0 <= k < sb_subtree(a, b, c, d, lvl, depth).len() ==> is_reduced(
                (#[trigger] sb_subtree(a, b, c, d, lvl, depth)[k]).0,
                sb_subtree(a, b, c, d, lvl, depth)[k].1,
            ),
    decreases depth - lvl,
{
    let p = a + c;
    let q = b + d;
    assert(q > 0) by (nonlinear_arith)
        requires
            c * b - a * d == 1,
            q == b + d,
    ;
    assert(p * b + q * (-(a as int)) == 1) by (nonlinear_arith)
        requires
            c * b - a * d == 1,
            p == a + c,
            q == b + d,
    ;
    lemma_coprime_from_combination(p, q, b as int, -(a as int));
    let t = sb_subtree(a, b, c, d, lvl, depth);
    if lvl + 1 < depth {
        assert(p * b - a * q == 1) by (nonlinear_arith)
            requires
                c * b - a * d == 1,
                p == a + c,
                q == b + d,
        ;
        assert(c * q - p * d == 1) by (nonlinear_arith)
            requires
                c * b - a * d == 1,
                p == a + c,
                q == b + d,
        ;
        lemma_sb_subtree_reduced(a, b, p, q, lvl + 1, depth);
        lemma_sb_subtree_reduced(p, q, c, d, lvl + 1, depth);
        let l = sb_subtree(a, b, p, q, lvl + 1, depth);
        let r = sb_subtree(p, q, c, d, lvl + 1, depth);
        assert(t == seq![(p, q)] + l + r);
        assert forall|k: int| 0 <= k < t.len() implies is_reduced((#[trigger] t[k]).0, t[k].1) by {
            if k == 0 {
            } else if k < 1 + l.len() {
                assert(t[k] == l[k - 1]);
            } else {
                assert(t[k] == r[k - 1 - l.len()]);
            }
        }
    }
}

/// Every node of the Stern–Brocot tree is a fraction in lowest terms with a
/// positive denominator.
pub proof fn lemma_stern_brocot_reduced(depth: nat)
    ensures
        forall|k: int|
            0 <= k < stern_brocot_seq(depth).len() ==> is_reduced(
                (#[trigger] stern_brocot_seq(depth)[k]).0,
                stern_brocot_seq(depth)[k].1,
            ),
{
    lemma_sb_subtree_reduced(0, 1, 1, 0, 0, depth);
}

/// The Farey graph of a sequence of order at most `u32::MAX` can be built:
/// its cross products fit in a `u64`.
pub proof fn lemma_farey_cross_products_fit(s: Seq<Fraction>, n: nat)
    requires
        is_farey_sequence(s, n),
        n <= u32::MAX,
    ensures
        cross_products_fit(s),
{
    assert forall|i: int, j: int| 0 <= i < j < s.len() implies #[trigger] s[i].1 * #[trigger] s[j].0
        <= u64::MAX && s[i].0 * s[j].1 <= u64::MAX by {
        assert(s.contains(s[i]));
        assert(s.contains(s[j]));
        let (a, b, c, d) = (s[i].0 as int, s[i].1 as int, s[j].0 as int, s[j].1 as int);
        assert(b * c <= u64::MAX && a * d <= u64::MAX) by (nonlinear_arith)
            requires
                0 <= a <= b <= u32::MAX,
                0 <= c <= d <= u32::MAX,
        ;
    }
}

/// Below a node at level `lvl < depth`, the Stern–Brocot tree of `depth`
/// levels holds `2^(depth − lvl) − 1` nodes.
pub proof fn lemma_sb_subtree_len(a: nat, b: nat, c: nat, d: nat, lvl: nat, depth: nat)
    requires
        lvl < depth,
    ensures
        sb_subtree(a, b, c, d, lvl, depth).len() == pow2((depth - lvl) as nat) - 1,
    decreases depth - lvl,
{
    lemma2_to64();
    let p = a + c;
    let q = b + d;
    if lvl + 1 < depth {
        lemma_sb_subtree_len(a, b, p, q, lvl + 1, depth);
        lemma_sb_subtree_len(p, q, c, d, lvl + 1, depth);
        lemma_pow2_unfold((depth - lvl) as nat);
        assert((depth - lvl - 1) as nat == (depth - (lvl + 1)) as nat);
    } else {
        assert((depth - lvl) as nat == 1);
    }
}

/// The Stern–Brocot tree of `depth >= 1` levels has `2^depth − 1` nodes; with
/// no levels asked for, the root alone is given.
pub proof fn lemma_stern_brocot_len(depth: nat)
    ensures
        stern_brocot_seq(depth).len() == if depth == 0 {
            1
        } else {
            pow2(depth) - 1
        },
{
    if depth > 0 {
        lemma_sb_subtree_len(0, 1, 1, 0, 0, depth);
    }
}

/// The Farey graph joins fractions by their values alone, however far apart
/// they stand: for distinct places `i`, `j` with `s[i] = a/b`, `s[j] = c/d`,
/// they are joined exactly when `(b c − a d)² = 1`, and the graph is
/// symmetric.
pub proof fn lemma_farey_adjacent_by_value(s: Seq<Fraction>, i: int, j: int)
    requires
        0 <= i < s.len(),
        0 <= j < s.len(),
    ensures
        farey_adjacent(s, i, j) <==> (i != j && (s[i].1 * s[j].0 - s[i].0 * s[j].1) * (s[i].1
            * s[j].0 - s[i].0 * s[j].1) == 1),
        farey_adjacent(s, i, j) == farey_adjacent(s, j, i),
{
    let x: int = s[i].1 * s[j].0 - s[i].0 * s[j].1;
    assert(x * x == 1 <==> (x == 1 || x == -1)) by (nonlinear_arith);
}

/// A Farey sequence runs from `0/1` to `1/1`, and in its Farey graph these
/// two ends are joined, whatever the order.
pub proof fn lemma_farey_ends_joined(s: Seq<Fraction>, n: nat)
    requires
        is_farey_sequence(s, n),
    ensures
        s.len() >= 2,
        s[0] == (0u64, 1u64),
        s[s.len() - 1] == (1u64, 1u64),
        farey_adjacent(s, 0, s.len() - 1),
        farey_adjacent(s, s.len() - 1, 0),
{
    let zero: Fraction = (0u64, 1u64);
    let one: Fraction = (1u64, 1u64);
    lemma_coprime_from_combination(0, 1, 0, 1);
    lemma_coprime_from_combination(1, 1, 1, 0);
    assert(in_farey(n, zero));
    assert(in_farey(n, one));
    assert(s.contains(zero));
    assert(s.contains(one));
    let k0 = choose|k: int| 0 <= k < s.len() && s[k] == zero;
    let k1 = choose|k: int| 0 <= k < s.len() && s[k] == one;
    assert(k0 != k1);
    assert(s.len() >= 2);
    if k0 > 0 {
        assert(frac_lt(s[0], s[k0]));
        assert(false);
    }
    let last = s.len() - 1;
    if k1 < last {
        assert(frac_lt(s[k1], s[last]));
        assert(s.contains(s[last]));
        assert(in_farey(n, s[last]));
        assert(false);
    }
    lemma_farey_adjacent_by_value(s, 0, last);
}

/// Below two fractions `a/b < c/d` with `c b − a d = 1`, every node of the
/// Stern–Brocot tree lies strictly between them, the first node is their
/// mediant, and the nodes after it are first those below the mediant, then
/// those above it, as many of each.
pub proof fn lemma_sb_subtree_between(a: nat, b: nat, c: nat, d: nat, lvl: nat, depth: nat)
    requires
        c * b - a * d == 1,
    ensures
        sb_subtree(a, b, c, d, lvl, depth)[0] == (a + c, b + d),
        forall|k: int|
            0 <= k < sb_subtree(a, b, c, d, lvl, depth).len() ==> {
                let e = #[trigger] sb_subtree(a, b, c, d, lvl, depth)[k];
                a * e.1 < e.0 * b && e.0 * d < c * e.1
            },
        forall|k: int|
            0 < k < sb_subtree(a, b, c, d, lvl, depth).len() ==> {
                let e = #[trigger] sb_subtree(a, b, c, d, lvl, depth)[k];
                let half = (sb_subtree(a, b, c, d, lvl, depth).len() - 1) / 2;
                &&& k <= half ==> e.0 * (b + d) < (a + c) * e.1
                &&& k > half ==> (a + c) * e.1 < e.0 * (b + d)
            },
    decreases depth - lvl,
{
    let p = a + c;
    let q = b + d;
    let t = sb_subtree(a, b, c, d, lvl, depth);
    lemma_sb_subtree_reduced(a, b, c, d, lvl, depth);
    assert(a * q < p * b && p * d < c * q) by (nonlinear_arith)
        requires
            c * b - a * d == 1,
            p == a + c,
            q == b + d,
    ;
    if lvl + 1 < depth {
        assert(p * b - a * q == 1) by (nonlinear_arith)
            requires
                c * b - a * d == 1,
                p == a + c,
                q == b + d,
        ;
        assert(c * q - p * d == 1) by (nonlinear_arith)
            requires
                c * b - a * d == 1,
                p == a + c,
                q == b + d,
        ;
        lemma_sb_subtree_between(a, b, p, q, lvl + 1, depth);
        lemma_sb_subtree_between(p, q, c, d, lvl + 1, depth);
        lemma_sb_subtree_len(a, b, p, q, lvl + 1, depth);
        lemma_sb_subtree_len(p, q, c, d, lvl + 1, depth);
        let l = sb_subtree(a, b, p, q, lvl + 1, depth);
        let r = sb_subtree(p, q, c, d, lvl + 1, depth);
        assert(t == seq![(p, q)] + l + r);
        assert(l.len() == r.len());
        assert((t.len() - 1) / 2 == l.len());
        assert forall|k: int| 0 <= k < t.len() implies {
            let e = #[trigger] t[k];
            a * e.1 < e.0 * b && e.0 * d < c * e.1
        } by {
            let e = t[k];
            assert(is_reduced(e.0, e.1));
            if k == 0 {
            } else if k < 1 + l.len() {
                assert(e == l[k - 1]);
                let (u, v) = (e.0 as int, e.1 as int);
                assert(u * d < c * v) by (nonlinear_arith)
                    requires
                        u * q < p * v,
                        p * d < c * q,
                        q > 0,
                        v > 0,
                        d >= 0,
                {
                    assert(u * q * d <= p * v * d);
                    assert(p * d * v < c * q * v);
                    assert(u * d * q < c * v * q);
                }
            } else {
                assert(e == r[k - 1 - l.len()]);
                let (u, v) = (e.0 as int, e.1 as int);
                assert(a * v < u * b) by (nonlinear_arith)
                    requires
                        a * q < p * b,
                        p * v < u * q,
                        q > 0,
                        v > 0,
                        b >= 0,
                {
                    assert(a * q * v < p * b * v);
                    assert(p * v * b <= u * q * b);
                    assert(a * v * q < u * b * q);
                }
            }
        }
        assert forall|k: int| 0 < k < t.len() implies {
            let e = #[trigger] t[k];
            let half = (t.len() - 1) / 2;
            &&& k <= half ==> e.0 * (b + d) < (a + c) * e.1
            &&& k > half ==> (a + c) * e.1 < e.0 * (b + d)
        } by {
            if k < 1 + l.len() {
                assert(t[k] == l[k - 1]);
            } else {
                assert(t[k] == r[k - 1 - l.len()]);
            }
        }
    }
}

/// Every node of the Stern–Brocot tree is a positive fraction, `0/1 < p/q < 1/0`,
/// the root is `1/1`, and the nodes below it in the walk come first, those
/// above it after them.
pub proof fn lemma_stern_brocot_order(depth: nat)
    ensures
        stern_brocot_seq(depth)[0] == (1nat, 1nat),
        forall|k: int| 0 <= k < stern_brocot_seq(depth).len() ==> (#[trigger] stern_brocot_seq(depth)[k]).0
            > 0,
        forall|k: int|
            0 < k < stern_brocot_seq(depth).len() ==> {
                let e = #[trigger] stern_brocot_seq(depth)[k];
                let half = (stern_brocot_seq(depth).len() - 1) / 2;
                &&& k <= half ==> e.0 < e.1
                &&& k > half ==> e.1 < e.0
            },
{
    lemma_sb_subtree_between(0, 1, 1, 0, 0, depth);
    let t = stern_brocot_seq(depth);
    assert forall|k: int| 0 <= k < t.len() implies (#[trigger] t[k]).0 > 0 by {
        let e = t[k];
        assert(0 * e.1 < e.0 * 1);
    }
}

} // verus!

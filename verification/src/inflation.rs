//! Inflation of a graph given by its adjacency pattern: every edge receives a
//! bridge node, numbered after the nodes of the graph in the order of the edges.

use vstd::prelude::*;

verus! {

/// `(i, j)` comes before `(k, l)` row by row: `i < k`, or `i = k` and `j < l`.
pub open spec fn pair_before(x: (usize, usize), y: (usize, usize)) -> bool {
    x.0 < y.0 || (x.0 == y.0 && x.1 < y.1)
}

/// Every row that the pairs above the diagonal reach holds all `n` columns.
pub open spec fn upper_rows_complete(pattern: Seq<Vec<bool>>) -> bool {
    forall|i: int| 0 <= i < pattern.len() - 1 ==> (#[trigger] pattern[i])@.len() >= pattern.len()
}

/// `(i, j)` is an edge above the diagonal of the adjacency pattern.
pub open spec fn is_upper_edge(pattern: Seq<Vec<bool>>, p: (usize, usize)) -> bool {
    &&& p.0 < p.1 < pattern.len()
    &&& pattern[p.0 as int]@[p.1 as int]
}

/// Graph inflation by bridge nodes.
pub struct InflationDeflation;

impl InflationDeflation {
    /// The edges `(i, j)`, `i < j`, of the graph with adjacency pattern
    /// `pattern`, row by row. Inflation puts the bridge node `n + k` of the
    /// `k`-th of them between `i` and `j`, so the inflated graph has
    /// `n + pairs.len()` nodes and twice as many edges.
    pub fn bridge_pairs(pattern: &Vec<Vec<bool>>) -> (pairs: Vec<(usize, usize)>)
        requires
            upper_rows_complete(pattern@),
        ensures
            forall|t: int| 0 <= t < pairs@.len() ==> is_upper_edge(pattern@, #[trigger] pairs@[t]),
            forall|a: int, b: int|
                0 <= a < b < pairs@.len() ==> pair_before(#[trigger] pairs@[a], #[trigger] pairs@[b]),
            forall|p: (usize, usize)| is_upper_edge(pattern@, p) ==> pairs@.contains(p),
    {
        let n = pattern.len();
        let mut pairs: Vec<(usize, usize)> = Vec::new();
        let mut i: usize = 0;
        while i < n
            invariant
                n == pattern@.len(),
                upper_rows_complete(pattern@),
                i <= n,
                forall|t: int| 0 <= t < pairs@.len() ==> is_upper_edge(pattern@, #[trigger] pairs@[t]),
                forall|t: int| 0 <= t < pairs@.len() ==> (#[trigger] pairs@[t]).0 < i,
                forall|a: int, b: int|
                    0 <= a < b < pairs@.len() ==> pair_before(#[trigger] pairs@[a], #[trigger] pairs@[b]),
                forall|p: (usize, usize)| is_upper_edge(pattern@, p) && p.0 < i ==> pairs@.contains(p),
            decreases n - i,
        {
            let mut j: usize = i + 1;
            while j < n
                invariant
                    n == pattern@.len(),
                    upper_rows_complete(pattern@),
                    i < n,
                    i + 1 <= j <= n,
                    forall|t: int| 0 <= t < pairs@.len() ==> is_upper_edge(pattern@, #[trigger] pairs@[t]),
                    forall|t: int|
                        0 <= t < pairs@.len() ==> pair_before(#[trigger] pairs@[t], (i, j)),
                    forall|a: int, b: int|
                        0 <= a < b < pairs@.len() ==> pair_before(#[trigger] pairs@[a], #[trigger] pairs@[b]),
                    forall|p: (usize, usize)|
                        is_upper_edge(pattern@, p) && pair_before(p, (i, j)) ==> pairs@.contains(p),
                decreases n - j,
            {
                assert(pattern@[i as int]@.len() >= n);
                if pattern[i][j] {
                    let ghost before = pairs@;
                    pairs.push((i, j));
                    proof {
                        assert forall|p: (usize, usize)|
                            is_upper_edge(pattern@, p) && pair_before(p, (i, (j + 1) as usize)) implies pairs@.contains(p) by {
                            if p == (i, j) {
                                assert(pairs@[before.len() as int] == p);
                            } else {
                                assert(before.contains(p));
                                let t = choose|t: int| 0 <= t < before.len() && before[t] == p;
                                assert(pairs@[t] == p);
                            }
                        }
                    }
                } else {
                    assert forall|p: (usize, usize)|
                        is_upper_edge(pattern@, p) && pair_before(p, (i, (j + 1) as usize)) implies pairs@.contains(p) by {
                        if p == (i, j) {
                        }
                    }
                }
                j = j + 1;
            }
            i = i + 1;
        }
        pairs
    }
}

} // verus!

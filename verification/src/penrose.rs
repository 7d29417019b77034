//! The combinatorics of a Penrose graph under inflation and deflation: how
//! many nodes it has, which nodes its edges join, and how many thick and thin
//! tiles it stands for. Node positions and edge weights are real numbers and
//! are kept beside this structure, index for index.

use crate::fibonacci::{fib, lemma_fib_below_pow2, lemma_fib_small, lemma_fib_step};
use crate::substitution::{fib_matrix, lemma_fib_matrix_det, mat_det};
use vstd::arithmetic::power2::{
    lemma_pow2_adds, lemma_pow2_pos, lemma_pow2_strictly_increases, lemma_pow2_unfold, pow2,
};
use vstd::prelude::*;

verus! {

/// An edge between two nodes, by their indices.
pub type Edge = (usize, usize);

/// Both ends of the edge are among the first `k` nodes.
pub open spec fn edge_within(e: Edge, k: nat) -> bool {
    e.0 < k && e.1 < k
}

/// Every edge of `edges` joins two of the first `n` nodes.
pub open spec fn edges_in_range(edges: Seq<Edge>, n: nat) -> bool {
    forall|k: int| 0 <= k < edges.len() ==> edge_within(#[trigger] edges[k], n)
}

/// Inflation of the tile counts: a thick tile becomes a thick and a thin
/// one, a thin tile becomes a thick one.
pub open spec fn inflated_tiles(t: (u64, u64)) -> (int, int) {
    (t.0 + t.1, t.0 as int)
}

/// Deflation of the tile counts, `(thick, thin) ↦ (thin, thick − thin)`, the
/// difference cut off at zero.
pub open spec fn deflated_tiles(t: (u64, u64)) -> (int, int) {
    (t.1 as int, if t.0 >= t.1 {
        t.0 - t.1
    } else {
        0
    })
}

/// The edges after inflation of a graph of `n` nodes: edge `k`, from `i` to
/// `j`, becomes the edges `2k` from `i` to the new node `n + k` and `2k + 1`
/// from `n + k` to `j`.
pub open spec fn inflated_edges(edges: Seq<Edge>, n: nat) -> Seq<Edge> {
    Seq::new(
        2 * edges.len(),
        |t: int|
            if t % 2 == 0 {
                (edges[t / 2].0, (n + t / 2) as usize)
            } else {
                ((n + t / 2) as usize, edges[t / 2].1)
            },
    )
}

/// The indices, below `upto`, of the edges of `edges` that stay among the
/// first `k` nodes, in increasing order.
pub open spec fn kept_indices(edges: Seq<Edge>, k: nat, upto: nat) -> Seq<usize>
    decreases upto,
{
    if upto == 0 {
        Seq::empty()
    } else {
        let before = kept_indices(edges, k, (upto - 1) as nat);
        if edge_within(edges[upto - 1], k) {
            before.push((upto - 1) as usize)
        } else {
            before
        }
    }
}

/// The edges of `edges` that stay among the first `k` nodes, in their order.
pub open spec fn kept_edges(edges: Seq<Edge>, k: nat) -> Seq<Edge> {
    kept_indices(edges, k, edges.len()).map_values(|i: usize| edges[i as int])
}

/// The edges of the thick rhomb: its four sides and its long diagonal.
pub open spec fn seed_edges() -> Seq<Edge> {
    seq![(0usize, 1usize), (1, 2), (2, 3), (3, 0), (0, 2)]
}

/// The edges of the thick rhomb inflated `levels` times; before the last
/// step the graph has `5·2^(levels−1) − 1` nodes.
pub open spec fn inflation_edges(levels: nat) -> Seq<Edge>
    decreases levels,
{
    if levels == 0 {
        seed_edges()
    } else {
        let l = (levels - 1) as nat;
        inflated_edges(inflation_edges(l), (5 * pow2(l) - 1) as nat)
    }
}

/// The structure of a Penrose graph: the number of nodes, the edges between
/// them, and the counts of thick and thin tiles.
pub struct PenroseTopology {
    pub node_count: usize,
    pub edges: Vec<Edge>,
    pub tile_counts: (u64, u64),
}

impl PenroseTopology {
    /// Every edge joins two nodes of the graph.
    pub open spec fn well_formed(&self) -> bool {
        edges_in_range(self.edges@, self.node_count as nat)
    }

    /// A thick rhomb: four corners, its four sides and its long diagonal
    /// `0 – 2`, one thick tile.
    pub fn seed_thick() -> (g: PenroseTopology)
        ensures
            g.node_count == 4,
            g.edges@ == seed_edges(),
            g.edges@ == seq![(0usize, 1usize), (1, 2), (2, 3), (3, 0), (0, 2)],
            g.tile_counts == (1u64, 0u64),
            g.well_formed(),
    {
        let mut edges: Vec<Edge> = Vec::new();
        edges.push((0, 1));
        edges.push((1, 2));
        edges.push((2, 3));
        edges.push((3, 0));
        edges.push((0, 2));
        PenroseTopology { node_count: 4, edges, tile_counts: (1, 0) }
    }

    /// One inflation step: every edge gets a bridge node in its middle and is
    /// split in two; the tiles follow `thick → thick + thin`, `thin → thick`.
    pub fn inflate(&self) -> (g: PenroseTopology)
        requires
            self.well_formed(),
            self.node_count + self.edges@.len() <= usize::MAX,
            self.tile_counts.0 + self.tile_counts.1 <= u64::MAX,
        ensures
            g.node_count == self.node_count + self.edges@.len(),
            g.edges@ == inflated_edges(self.edges@, self.node_count as nat),
            g.edges@.len() == 2 * self.edges@.len(),
            forall|k: int|
                #![trigger self.edges@[k]]
                0 <= k < self.edges@.len() ==> g.edges@[2 * k].0 == self.edges@[k].0 && g.edges@[2
                    * k].1 == self.node_count + k && g.edges@[2 * k + 1].0 == self.node_count + k
                    && g.edges@[2 * k + 1].1 == self.edges@[k].1,
            g.tile_counts.0 == inflated_tiles(self.tile_counts).0,
            g.tile_counts.1 == inflated_tiles(self.tile_counts).1,
            g.well_formed(),
    {
        let n = self.node_count;
        let mut new_edges: Vec<Edge> = Vec::new();
        let mut k: usize = 0;
        while k < self.edges.len()
            invariant
                n == self.node_count,
                self.well_formed(),
                n + self.edges@.len() <= usize::MAX,
                k <= self.edges@.len(),
                new_edges@ == inflated_edges(self.edges@.take(k as int), n as nat),
            decreases self.edges@.len() - k,
        {
            let (i, j) = self.edges[k];
            let bridge = n + k;
            new_edges.push((i, bridge));
            new_edges.push((bridge, j));
            proof {
                let s = self.edges@.take(k as int);
                let s1 = self.edges@.take(k as int + 1);
                assert forall|t: int| 0 <= t < 2 * s.len() implies inflated_edges(s1, n as nat)[t]
                    == inflated_edges(s, n as nat)[t] by {
                    assert(t / 2 < s.len());
                    assert(s1[t / 2] == s[t / 2]);
                }
                assert(new_edges@ =~= inflated_edges(s1, n as nat)) by {
                    assert(inflated_edges(s1, n as nat)[2 * k as int] == (i, bridge));
                    assert(inflated_edges(s1, n as nat)[2 * k as int + 1] == (bridge, j));
                }
            }
            k = k + 1;
        }
        proof {
            assert(self.edges@.take(self.edges@.len() as int) =~= self.edges@);
            let e = self.edges@;
            let m = (n + e.len()) as nat;
            assert forall|t: int| 0 <= t < new_edges@.len() implies edge_within(
                #[trigger] new_edges@[t],
                m,
            ) by {
                assert(edge_within(e[t / 2], n as nat));
            }
        }
        proof {
            lemma_inflated_edges_split(self.edges@, n as nat);
        }
        let thick = self.tile_counts.0 + self.tile_counts.1;
        let thin = self.tile_counts.0;
        PenroseTopology { node_count: n + self.edges.len(), edges: new_edges, tile_counts: (thick, thin) }
    }

    /// The indices of the edges that join two of the first `k` nodes, in
    /// increasing order.
    pub fn edges_within(&self, k: usize) -> (idx: Vec<usize>)
        ensures
            idx@ == kept_indices(self.edges@, k as nat, self.edges@.len()),
    {
        let mut idx: Vec<usize> = Vec::new();
        let mut t: usize = 0;
        while t < self.edges.len()
            invariant
                t <= self.edges@.len(),
                idx@ == kept_indices(self.edges@, k as nat, t as nat),
            decreases self.edges@.len() - t,
        {
            let (i, j) = self.edges[t];
            if i < k && j < k {
                idx.push(t);
            }
            t = t + 1;
        }
        idx
    }

    /// One deflation step: keep the first `(n + 1) / 2` of the `n` nodes and
    /// the edges among them, and undo the tile substitution. There is nothing
    /// to deflate below seven nodes.
    pub fn deflate(&self) -> (r: Option<PenroseTopology>)
        requires
            self.node_count < usize::MAX,
        ensures
            r is None <==> self.node_count < 7,
            r matches Some(g) ==> {
                &&& g.node_count == (self.node_count + 1) / 2
                &&& g.edges@ == kept_edges(self.edges@, g.node_count as nat)
                &&& g.tile_counts.0 == deflated_tiles(self.tile_counts).0
                &&& g.tile_counts.1 == deflated_tiles(self.tile_counts).1
                &&& g.well_formed()
            },
    {
        if self.node_count < 5 {
            return None;
        }
        let n = self.node_count;
        let kept_nodes = (n + 1) / 2;
        if kept_nodes < 4 {
            return None;
        }
        let idx = self.edges_within(kept_nodes);
        let mut edges: Vec<Edge> = Vec::new();
        let mut t: usize = 0;
        let edge_count = self.edges.len();
        proof {
            lemma_kept_indices_bounds(self.edges@, kept_nodes as nat, self.edges@.len());
        }
        while t < idx.len()
            invariant
                t <= idx@.len(),
                idx@ == kept_indices(self.edges@, kept_nodes as nat, self.edges@.len()),
                forall|u: int|
                    0 <= u < idx@.len() ==> (#[trigger] idx@[u]) < self.edges@.len() && edge_within(
                        self.edges@[idx@[u] as int],
                        kept_nodes as nat,
                    ),
                edges@ == idx@.take(t as int).map_values(|i: usize| self.edges@[i as int]),
            decreases idx@.len() - t,
        {
            edges.push(self.edges[idx[t]]);
            proof {
                assert(idx@.take(t as int + 1) =~= idx@.take(t as int).push(idx@[t as int]));
                assert(edges@ =~= idx@.take(t as int + 1).map_values(
                    |i: usize| self.edges@[i as int],
                ));
            }
            t = t + 1;
        }
        proof {
            assert(idx@.take(idx@.len() as int) =~= idx@);
            assert forall|u: int| 0 <= u < edges@.len() implies edge_within(
                #[trigger] edges@[u],
                kept_nodes as nat,
            ) by {
                assert(edges@[u] == self.edges@[idx@[u] as int]);
            }
        }
        let thick = self.tile_counts.1;
        let thin = self.tile_counts.0.saturating_sub(self.tile_counts.1);
        Some(PenroseTopology { node_count: kept_nodes, edges, tile_counts: (thick, thin) })
    }

    /// The thick rhomb inflated `levels` times: `5·2^levels − 1` nodes,
    /// `5·2^levels` edges and `F(levels + 1)` thick, `F(levels)` thin tiles.
    /// The `5·2^levels` edges fit in a `usize` exactly when
    /// `levels + 3 <= usize::BITS`.
    pub fn from_inflation(levels: usize) -> (g: PenroseTopology)
        requires
            levels + 3 <= usize::BITS,
        ensures
            g.node_count == 5 * pow2(levels as nat) - 1,
            g.edges@ == inflation_edges(levels as nat),
            levels == 0 ==> g.edges@ == seq![(0usize, 1usize), (1, 2), (2, 3), (3, 0), (0, 2)],
            g.edges@.len() == 5 * pow2(levels as nat),
            g.tile_counts.0 == fib(levels as nat + 1),
            g.tile_counts.1 == fib(levels as nat),
            g.well_formed(),
    {
        let mut graph = Self::seed_thick();
        let mut level: usize = 0;
        proof {
            lemma_inflation_edges_start();
            lemma_inflation_fits(levels as nat);
            lemma_fib_small();
            lemma_pow2_pos(0);
            assert(pow2(0) == 1) by {
                vstd::arithmetic::power2::lemma2_to64();
            }
        }
        while level < levels
            invariant
                level <= levels,
                5 * pow2(levels as nat) <= usize::MAX,
                graph.node_count == 5 * pow2(level as nat) - 1,
                graph.edges@ == inflation_edges(level as nat),
                graph.edges@.len() == 5 * pow2(level as nat),
                graph.tile_counts.0 == fib(level as nat + 1),
                graph.tile_counts.1 == fib(level as nat),
                graph.well_formed(),
            decreases levels - level,
        {
            proof {
                let l = level as nat;
                lemma_pow2_unfold(l + 1);
                if l + 1 < levels {
                    lemma_pow2_strictly_increases(l + 1, levels as nat);
                }
                lemma_fib_step(l);
                lemma_fib_below_pow2(l);
                if l >= 1 {
                    lemma_pow2_strictly_increases((l - 1) as nat, l);
                }
                assert(fib(l + 2) < pow2(l + 1));
            }
            graph = graph.inflate();
            level = level + 1;
        }
        proof {
            lemma_inflation_edges_start();
        }
        graph
    }
}

/// When `levels + 3 <= usize::BITS`, the `5·2^levels` edges of the inflated
/// rhomb can be counted in a `usize`.
proof fn lemma_inflation_fits(levels: nat)
    requires
        levels + 3 <= usize::BITS,
    ensures
        5 * pow2(levels) <= usize::MAX,
{
    vstd::arithmetic::power2::lemma2_to64();
    lemma_pow2_adds(levels, 3);
    let bits = usize::BITS as nat;
    if levels + 3 < bits {
        lemma_pow2_strictly_increases(levels + 3, bits);
    }
    assert(pow2(bits) == usize::MAX + 1);
}

/// The indices that `kept_indices` gives are edges of the list, and those
/// edges lie among the first `k` nodes.
pub proof fn lemma_kept_indices_bounds(edges: Seq<Edge>, k: nat, upto: nat)
    requires
        upto <= edges.len(),
        edges.len() <= usize::MAX,
    ensures
        forall|u: int|
            0 <= u < kept_indices(edges, k, upto).len() ==> (#[trigger] kept_indices(edges, k, upto)[u])
                < upto && edge_within(edges[kept_indices(edges, k, upto)[u] as int], k),
    decreases upto,
{
    if upto > 0 {
        let prev = (upto - 1) as nat;
        lemma_kept_indices_bounds(edges, k, prev);
        let before = kept_indices(edges, k, prev);
        let now = kept_indices(edges, k, upto);
        assert forall|u: int| 0 <= u < now.len() implies (#[trigger] now[u]) < upto && edge_within(
            edges[now[u] as int],
            k,
        ) by {
            if u < before.len() {
                assert(now[u] == before[u]);
            } else {
                assert(now[u] == prev as usize);
            }
        }
    }
}

/// Every edge among the first `k` nodes, below `upto`, has its index in
/// `kept_indices`, and those indices increase.
pub proof fn lemma_kept_indices_complete(edges: Seq<Edge>, k: nat, upto: nat)
    requires
        upto <= edges.len(),
        edges.len() <= usize::MAX,
    ensures
        forall|t: int|
            0 <= t < upto && edge_within(#[trigger] edges[t], k) ==> kept_indices(
                edges,
                k,
                upto,
            ).contains(t as usize),
        forall|a: int, b: int|
            0 <= a < b < kept_indices(edges, k, upto).len() ==> #[trigger] kept_indices(edges, k, upto)[a]
                < #[trigger] kept_indices(edges, k, upto)[b],
    decreases upto,
{
    if upto > 0 {
        let prev = (upto - 1) as nat;
        lemma_kept_indices_complete(edges, k, prev);
        lemma_kept_indices_bounds(edges, k, prev);
        let before = kept_indices(edges, k, prev);
        let now = kept_indices(edges, k, upto);
        assert forall|t: int| 0 <= t < upto && edge_within(#[trigger] edges[t], k) implies now.contains(
            t as usize,
        ) by {
            if t < prev {
                let u = choose|u: int| 0 <= u < before.len() && before[u] == t as usize;
                assert(now[u] == before[u]);
            } else {
                assert(now[before.len() as int] == t as usize);
            }
        }
        assert forall|a: int, b: int| 0 <= a < b < now.len() implies #[trigger] now[a] < #[trigger] now[b] by {
            if b < before.len() {
                assert(now[a] == before[a] && now[b] == before[b]);
            } else {
                assert(now[a] == before[a]);
                assert(before[a] < prev);
            }
        }
    }
}

/// Deflation keeps exactly the edges that lie among the first `k` nodes, in
/// their order.
pub proof fn lemma_kept_edges(edges: Seq<Edge>, k: nat)
    requires
        edges.len() <= usize::MAX,
    ensures
        forall|e: Edge| kept_edges(edges, k).contains(e) <==> (edges.contains(e) && edge_within(e, k)),
        forall|a: int, b: int|
            0 <= a < b < kept_edges(edges, k).len() ==> kept_indices(edges, k, edges.len())[a]
                < kept_indices(edges, k, edges.len())[b],
{
    lemma_kept_indices_bounds(edges, k, edges.len());
    lemma_kept_indices_complete(edges, k, edges.len());
    let idx = kept_indices(edges, k, edges.len());
    let kept = kept_edges(edges, k);
    assert forall|e: Edge| kept.contains(e) <==> (edges.contains(e) && edge_within(e, k)) by {
        if kept.contains(e) {
            let u = choose|u: int| 0 <= u < kept.len() && kept[u] == e;
            assert(kept[u] == edges[idx[u] as int]);
        }
        if edges.contains(e) && edge_within(e, k) {
            let t = choose|t: int| 0 <= t < edges.len() && edges[t] == e;
            assert(idx.contains(t as usize));
            let u = choose|u: int| 0 <= u < idx.len() && idx[u] == t as usize;
            assert(kept[u] == e);
        }
    }
}

/// Deflation undoes inflation on the tile counts:
/// `(t, s) ↦ (t + s, t) ↦ (t, s)`.
pub proof fn lemma_deflate_inflate_tiles(t: (u64, u64))
    requires
        t.0 + t.1 <= u64::MAX,
    ensures
        ({
            let i = inflated_tiles(t);
            deflated_tiles((i.0 as u64, i.1 as u64)) == (t.0 as int, t.1 as int)
        }),
{
}

/// The tile counts after `levels` inflations of a thick rhomb, `F(l + 1)`
/// thick and `F(l)` thin, obey Cassini's identity
/// `thick² − thick·thin − thin² = (−1)^l`; this is why their ratio tends to φ.
pub proof fn lemma_tile_counts_cassini(levels: nat)
    ensures
        ({
            let thick = fib(levels + 1) as int;
            let thin = fib(levels) as int;
            thick * thick - thick * thin - thin * thin == if levels % 2 == 0 {
                1int
            } else {
                -1int
            }
        }),
{
    lemma_fib_matrix_det(levels);
    let thick = fib(levels + 1) as int;
    let thin = fib(levels) as int;
    assert(mat_det(fib_matrix(levels)) == thick * (thick - thin) - thin * thin);
    assert(thick * (thick - thin) == thick * thick - thick * thin) by (nonlinear_arith);
}

/// Inflation splits edge `k = (i, j)` of a graph of `n` nodes into the edges
/// `2k = (i, n + k)` and `2k + 1 = (n + k, j)`: the bridge of edge `k` is the
/// new node `n + k`.
pub proof fn lemma_inflated_edges_split(edges: Seq<Edge>, n: nat)
    requires
        n + edges.len() <= usize::MAX,
    ensures
        inflated_edges(edges, n).len() == 2 * edges.len(),
        forall|k: int|
            #![trigger edges[k]]
            0 <= k < edges.len() ==> inflated_edges(edges, n)[2 * k].0 == edges[k].0 && inflated_edges(
                edges,
                n,
            )[2 * k].1 == n + k && inflated_edges(edges, n)[2 * k + 1].0 == n + k && inflated_edges(
                edges,
                n,
            )[2 * k + 1].1 == edges[k].1,
{
    assert forall|k: int| #![trigger edges[k]] 0 <= k < edges.len() implies inflated_edges(edges, n)[2
        * k].0 == edges[k].0 && inflated_edges(edges, n)[2 * k].1 == n + k && inflated_edges(
        edges,
        n,
    )[2 * k + 1].0 == n + k && inflated_edges(edges, n)[2 * k + 1].1 == edges[k].1 by {
        assert((2 * k) / 2 == k && (2 * k) % 2 == 0);
        assert((2 * k + 1) / 2 == k && (2 * k + 1) % 2 == 1);
    }
}

/// After inflating a graph of `n` nodes and `m` edges whose edges join old
/// nodes, every edge has exactly one end among the new nodes `n .. n + m`,
/// and the new node `n + k` lies on exactly the two halves of edge `k`.
pub proof fn lemma_inflated_edges_bridges(edges: Seq<Edge>, n: nat)
    requires
        edges_in_range(edges, n),
        n + edges.len() <= usize::MAX,
    ensures
        forall|t: int|
            0 <= t < inflated_edges(edges, n).len() ==> ((#[trigger] inflated_edges(edges, n)[t]).0 >= n)
                != (inflated_edges(edges, n)[t].1 >= n) && inflated_edges(edges, n)[t].0 < n
                + edges.len() && inflated_edges(edges, n)[t].1 < n + edges.len(),
        forall|t: int, k: int|
            0 <= t < inflated_edges(edges, n).len() && 0 <= k < edges.len() ==> ((
            #[trigger] inflated_edges(edges, n)[t].0 == n + k || inflated_edges(edges, n)[t].1 == n + k)
                <==> (t == #[trigger] (2 * k) || t == 2 * k + 1)),
{
    let r = inflated_edges(edges, n);
    assert forall|t: int| 0 <= t < r.len() implies ((#[trigger] r[t]).0 >= n) != (r[t].1 >= n) && r[t].0
        < n + edges.len() && r[t].1 < n + edges.len() by {
        let k = t / 2;
        assert(edge_within(edges[k], n));
    }
    assert forall|t: int, k: int| 0 <= t < r.len() && 0 <= k < edges.len() implies ((
    #[trigger] r[t].0 == n + k || r[t].1 == n + k) <==> (t == #[trigger] (2 * k) || t == 2 * k + 1)) by {
        let h = t / 2;
        assert(edge_within(edges[h], n));
        assert(t == 2 * h || t == 2 * h + 1);
    }
}

/// Inflation starts from the thick rhomb, its four sides and its long
/// diagonal `0 – 2`, and each level inflates the level before it, whose graph
/// has `5·2^l − 1` nodes.
pub proof fn lemma_inflation_edges_start()
    ensures
        seed_edges() == seq![(0usize, 1usize), (1, 2), (2, 3), (3, 0), (0, 2)],
        inflation_edges(0) == seq![(0usize, 1usize), (1, 2), (2, 3), (3, 0), (0, 2)],
{
}

/// Each level of inflation inflates the level before it, whose graph has
/// `5·2^l − 1` nodes.
pub proof fn lemma_inflation_edges_step(l: nat)
    ensures
        inflation_edges(l + 1) == inflated_edges(inflation_edges(l), (5 * pow2(l) - 1) as nat),
{
}

} // verus!

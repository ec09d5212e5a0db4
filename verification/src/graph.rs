//! Compact graph data structure.
//!
//! A compact adjacency list intended for sparse graphs. The space of
//! vertices is a contiguous range of `u32` ints from `[0, nvertices)`.

use vstd::prelude::*;

verus! {

/// How often `x` occurs in `s`.
pub open spec fn occ(s: Seq<u32>, x: u32) -> int
    decreases s.len(),
{
    if s.len() == 0 {
        0
    } else {
        occ(s.drop_last(), x) + if s.last() == x {
            1int
        } else {
            0int
        }
    }
}

/// Occurrence counts are nonnegative.
pub proof fn lemma_occ_nonneg(s: Seq<u32>, x: u32)
    ensures
        occ(s, x) >= 0,
    decreases s.len(),
{
    if s.len() > 0 {
        lemma_occ_nonneg(s.drop_last(), x);
    }
}

/// An element at an index occurs at least once.
pub proof fn lemma_occ_index(s: Seq<u32>, i: int)
    requires
        0 <= i < s.len(),
    ensures
        occ(s, s[i]) >= 1,
        occ(s, s[i]) >= 0,
    decreases s.len(),
{
    lemma_occ_nonneg(s.drop_last(), s[i]);
    if i < s.len() - 1 {
        lemma_occ_index(s.drop_last(), i);
    }
}

/// A value that occurs at least once has an index.
pub proof fn lemma_occ_pos(s: Seq<u32>, x: u32) -> (i: int)
    requires
        occ(s, x) > 0,
    ensures
        0 <= i < s.len() && s[i] == x,
    decreases s.len(),
{
    if s.len() > 0 && s.last() == x {
        s.len() - 1
    } else {
        lemma_occ_pos(s.drop_last(), x)
    }
}

/// Two distinct indexes holding the same value give two occurrences.
pub proof fn lemma_occ_two(s: Seq<u32>, i: int, j: int)
    requires
        0 <= i < j < s.len(),
        s[i] == s[j],
    ensures
        occ(s, s[i]) >= 2,
    decreases s.len(),
{
    if j == s.len() - 1 {
        lemma_occ_index(s.drop_last(), i);
    } else {
        lemma_occ_two(s.drop_last(), i, j);
        lemma_occ_nonneg(s, s[i]);
    }
}

/// A value no index holds does not occur.
pub proof fn lemma_occ_none(s: Seq<u32>, x: u32)
    requires
        forall|i: int| 0 <= i < s.len() ==> (#[trigger] s[i]) != x,
    ensures
        occ(s, x) == 0,
    decreases s.len(),
{
    if s.len() > 0 {
        assert forall|i: int| 0 <= i < s.drop_last().len() implies (
        #[trigger] s.drop_last()[i]) != x by {
            assert(s[i] != x);
        }
        lemma_occ_none(s.drop_last(), x);
    }
}

/// How an update changes occurrence counts.
pub proof fn lemma_occ_update(s: Seq<u32>, i: int, y: u32, x: u32)
    requires
        0 <= i < s.len(),
    ensures
        occ(s.update(i, y), x) == occ(s, x) - (if s[i] == x {
            1int
        } else {
            0int
        }) + (if y == x {
            1int
        } else {
            0int
        }),
    decreases s.len(),
{
    if i == s.len() - 1 {
        assert(s.update(i, y).drop_last() =~= s.drop_last());
    } else {
        assert(s.update(i, y).drop_last() =~= s.drop_last().update(i, y));
        lemma_occ_update(s.drop_last(), i, y, x);
    }
}

/// The adjacency window of vertex `v` inside a CSR offsets/neighbors pair.
pub open spec fn csr_window(offsets: Seq<usize>, neighbors: Seq<u32>, v: int) -> Seq<u32> {
    neighbors.subrange(offsets[v] as int, offsets[v + 1] as int)
}

/// Well-formedness of a CSR offsets/neighbors pair: offsets are monotone
/// and bracket the flat neighbor sequence; every window is strictly
/// increasing (sorted, deduplicated), holds only in-range vertices other
/// than its own, and is symmetric: `w` appears in `v`'s window iff `v`
/// appears in `w`'s window.
pub open spec fn csr_wf(offsets: Seq<usize>, neighbors: Seq<u32>) -> bool {
    let n = offsets.len() - 1;
    &&& offsets.len() >= 1
    &&& offsets.len() <= 0x1_0000_0000
    &&& offsets[0] == 0
    &&& offsets[n] == neighbors.len()
    &&& forall|v: int| 0 <= v <= n ==> (#[trigger] offsets[v]) <= neighbors.len()
    &&& forall|v: int| 0 <= v < n ==> (#[trigger] offsets[v]) <= offsets[v + 1]
    &&& forall|j: int| 0 <= j < neighbors.len() ==> (#[trigger] neighbors[j]) < n
    &&& forall|v: int, t1: int, t2: int|
        0 <= v < n && (#[trigger] offsets[v]) as int <= t1 < t2 < offsets[v + 1] as int ==> (
        #[trigger] neighbors[t1]) < (#[trigger] neighbors[t2])
    &&& forall|v: int, t: int|
        0 <= v < n && (#[trigger] offsets[v]) as int <= t < offsets[v + 1] as int ==> (
        #[trigger] neighbors[t]) != v
    &&& forall|v: int, j: int|
        0 <= v < n && 0 <= j < csr_window(offsets, neighbors, v).len() ==> occ(
            #[trigger] csr_window(
                offsets,
                neighbors,
                csr_window(offsets, neighbors, v)[j] as int,
            ),
            v as u32,
        ) >= 1
}

/// A compact adjacency list; immutable once constructed.
pub struct Graph {
    offsets: Vec<usize>,
    neighbors: Vec<u32>,
}

impl Graph {
    /// The number of vertices.
    pub closed spec fn nv(self) -> int {
        self.offsets@.len() - 1
    }

    /// The ordered adjacency window of vertex `v`.
    pub closed spec fn nbrs(self, v: int) -> Seq<u32> {
        csr_window(self.offsets@, self.neighbors@, v)
    }

    /// The total number of neighbor slots (twice the edge count).
    pub closed spec fn nslots(self) -> int {
        self.neighbors@.len() as int
    }

    /// The offsets/neighbors pair is well-formed CSR data.
    pub closed spec fn wf(self) -> bool {
        csr_wf(self.offsets@, self.neighbors@)
    }

    /// `offsets.len()` should be one greater than the number of vertices
    /// with `neighbors[offsets[i]..offsets[i+1]]` being the edges incident
    /// from `i`, which must be sorted and bidirectional.
    pub fn new(offsets: Vec<usize>, neighbors: Vec<u32>) -> (g: Graph)
        requires
            csr_wf(offsets@, neighbors@),
        ensures
            g.wf(),
            g.nv() == offsets@.len() - 1,
            g.nslots() == neighbors@.len(),
            forall|v: int| 0 <= v < g.nv() ==> g.nbrs(v) == csr_window(offsets@, neighbors@, v),
    {
        Graph { offsets, neighbors }
    }

    /// The ordered neighbor list of `v`.
    pub fn neighbors(&self, v: u32) -> (r: &[u32])
        requires
            self.wf(),
            v < self.nv(),
        ensures
            r@ == self.nbrs(v as int),
    {
        let v = v as usize;
        let lo = self.offsets[v];
        let hi = self.offsets[v + 1];
        let s = self.neighbors.as_slice();
        &s[lo..hi]
    }

    /// The number of neighbors of `v`.
    pub fn degree(&self, v: u32) -> (r: usize)
        requires
            self.wf(),
            v < self.nv(),
        ensures
            r == self.nbrs(v as int).len(),
    {
        let v = v as usize;
        let lo = self.offsets[v];
        let hi = self.offsets[v + 1];
        hi - lo
    }

    /// The number of vertices.
    pub fn nvertices(&self) -> (r: usize)
        requires
            self.wf(),
        ensures
            r == self.nv(),
    {
        self.offsets.len() - 1
    }

    /// The number of undirected edges (each is stored twice).
    pub fn nedges(&self) -> (r: usize)
        ensures
            r == self.nslots() / 2,
    {
        self.neighbors.len() / 2
    }

    /// The largest degree over all vertices; zero on an empty graph.
    pub fn max_degree(&self) -> (r: usize)
        requires
            self.wf(),
        ensures
            r == max_deg(*self),
    {
        let n = self.nvertices();
        let mut best: usize = 0;
        let mut v: usize = 0;
        while v < n
            invariant
                self.wf(),
                n == self.nv(),
                v <= n,
                best == max_deg_upto(*self, v as int),
            decreases n - v,
        {
            let d = self.degree(v as u32);
            if d > best {
                best = d;
            }
            v = v + 1;
        }
        best
    }
}

/// The largest degree among the vertices below `k`.
pub open spec fn max_deg_upto(g: Graph, k: int) -> int
    decreases k,
{
    if k <= 0 {
        0
    } else {
        let prev = max_deg_upto(g, k - 1);
        let d = g.nbrs(k - 1).len() as int;
        if d > prev {
            d
        } else {
            prev
        }
    }
}

/// The largest degree over all vertices; zero on an empty graph.
pub open spec fn max_deg(g: Graph) -> int {
    max_deg_upto(g, g.nv())
}

/// Every vertex's degree is bounded by the maximum degree.
pub proof fn lemma_max_deg(g: Graph, v: int)
    requires
        0 <= v < g.nv(),
    ensures
        g.nbrs(v).len() <= max_deg(g),
{
    lemma_max_deg_upto(g, v, g.nv());
}

proof fn lemma_max_deg_upto(g: Graph, v: int, k: int)
    requires
        0 <= v < k,
    ensures
        g.nbrs(v).len() <= max_deg_upto(g, k),
    decreases k,
{
    if v < k - 1 {
        lemma_max_deg_upto(g, v, k - 1);
    }
}

/// Facts every adjacency window of a well-formed graph satisfies: entries
/// are in-range vertices, strictly increasing, and never the vertex itself.
pub proof fn lemma_nbrs_wf(g: Graph, v: int)
    requires
        g.wf(),
        0 <= v < g.nv(),
    ensures
        forall|j: int|
            0 <= j < g.nbrs(v).len() ==> (#[trigger] g.nbrs(v)[j]) < g.nv() && g.nbrs(v)[j] != v,
        forall|j1: int, j2: int|
            0 <= j1 < j2 < g.nbrs(v).len() ==> (#[trigger] g.nbrs(v)[j1]) < (
            #[trigger] g.nbrs(v)[j2]),
{
    let o = g.offsets@;
    let nb = g.neighbors@;
    assert forall|j: int|
        0 <= j < g.nbrs(v).len() implies (#[trigger] g.nbrs(v)[j]) < g.nv() && g.nbrs(v)[j]
        != v by {
        assert(g.nbrs(v)[j] == nb[o[v] + j]);
    }
    assert forall|j1: int, j2: int|
        0 <= j1 < j2 < g.nbrs(v).len() implies (#[trigger] g.nbrs(v)[j1]) < (
    #[trigger] g.nbrs(v)[j2]) by {
        assert(g.nbrs(v)[j1] == nb[o[v] + j1]);
        assert(g.nbrs(v)[j2] == nb[o[v] + j2]);
    }
}

/// Adjacency is symmetric: if `w` stands in `v`'s window then `v` stands
/// in `w`'s window.
pub proof fn lemma_nbrs_symmetric(g: Graph, v: int, j: int)
    requires
        g.wf(),
        0 <= v < g.nv(),
        0 <= j < g.nbrs(v).len(),
    ensures
        g.nbrs(g.nbrs(v)[j] as int).contains(v as u32),
{
    assert(occ(g.nbrs(g.nbrs(v)[j] as int), v as u32) >= 1);
    let m = lemma_occ_pos(g.nbrs(g.nbrs(v)[j] as int), v as u32);
    assert(g.nbrs(g.nbrs(v)[j] as int)[m] == v as u32);
}

/// Window entries are strictly increasing across any pair of positions.
pub proof fn lemma_nbrs_increasing(g: Graph, v: int, m1: int, m2: int)
    requires
        g.wf(),
        0 <= v < g.nv(),
        0 <= m1 < m2 < g.nbrs(v).len(),
    ensures
        g.nbrs(v)[m1] < g.nbrs(v)[m2],
{
    lemma_nbrs_wf(g, v);
}

proof fn lemma_window_lb(g: Graph, v: int, j: int)
    requires
        g.wf(),
        0 <= v < g.nv(),
        0 <= j < g.nbrs(v).len(),
    ensures
        g.nbrs(v)[j] >= j,
    decreases j,
{
    if j > 0 {
        lemma_window_lb(g, v, j - 1);
        lemma_nbrs_wf(g, v);
        assert(g.nbrs(v)[j - 1] < g.nbrs(v)[j]);
    }
}

proof fn lemma_window_ub(g: Graph, v: int, j: int)
    requires
        g.wf(),
        0 <= v < g.nv(),
        0 <= j < g.nbrs(v).len(),
    ensures
        g.nbrs(v)[j] <= g.nv() - (g.nbrs(v).len() - j),
    decreases g.nbrs(v).len() - j,
{
    if j < g.nbrs(v).len() - 1 {
        lemma_window_ub(g, v, j + 1);
        lemma_nbrs_wf(g, v);
        assert(g.nbrs(v)[j] < g.nbrs(v)[j + 1]);
    }
}

/// A window holds distinct vertices other than its own, so a degree is at
/// most the vertex count less one.
pub proof fn lemma_deg_bound(g: Graph, v: int)
    requires
        g.wf(),
        0 <= v < g.nv(),
    ensures
        g.nbrs(v).len() <= g.nv() - 1,
{
    if g.nbrs(v).len() >= g.nv() {
        lemma_window_lb(g, v, v);
        lemma_window_ub(g, v, v);
        assert(g.nbrs(v)[v] == v);
    }
}

/// The maximum degree is below the vertex count on a nonempty graph.
pub proof fn lemma_max_deg_le(g: Graph)
    requires
        g.wf(),
    ensures
        g.nv() > 0 ==> max_deg(g) <= g.nv() - 1,
        g.nv() == 0 ==> max_deg(g) == 0,
{
    lemma_max_deg_upto_le(g, g.nv());
}

proof fn lemma_max_deg_upto_le(g: Graph, k: int)
    requires
        g.wf(),
        k <= g.nv(),
    ensures
        g.nv() > 0 ==> max_deg_upto(g, k) <= g.nv() - 1,
        g.nv() == 0 ==> max_deg_upto(g, k) == 0,
    decreases k,
{
    if k > 0 {
        lemma_max_deg_upto_le(g, k - 1);
        lemma_deg_bound(g, k - 1);
    }
}

/// The vertex count fits in a `u32` range.
pub proof fn lemma_nv_bound(g: Graph)
    requires
        g.wf(),
    ensures
        g.nv() <= u32::MAX,
{
}

/// A proper coloring: along every stored edge the endpoint colors differ.
pub open spec fn proper_coloring(g: Graph, colors: Seq<u32>) -> bool {
    forall|v: int, j: int|
        0 <= v < g.nv() && 0 <= j < g.nbrs(v).len() ==> colors[v] != colors[(
        #[trigger] g.nbrs(v)[j]) as int]
}

} // verus!

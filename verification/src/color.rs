//! The core coloring functionality, including Glauber dynamics simulation.

use vstd::prelude::*;

use crate::cell::Rwu32;
use crate::cell::ReadGuard;
use crate::graph::Graph;
use crate::graph::lemma_deg_bound;
use crate::graph::lemma_max_deg;
use crate::graph::lemma_max_deg_le;
use crate::graph::lemma_nbrs_increasing;
use crate::graph::lemma_nbrs_wf;
use crate::graph::lemma_nv_bound;
use crate::graph::lemma_nbrs_symmetric;
use crate::graph::max_deg;
use crate::graph::proper_coloring;
use crate::rng::rand_below;
use crate::rng::rng_new;
use crate::sampler::DiscreteSampler;

verus! {

/// The sentinel marking a vertex that has not been assigned a color yet.
pub const NO_COLOR: u32 = u32::MAX;

/// How often `c` occurs among the first `end` entries of `colors`.
pub open spec fn count_color_upto(colors: Seq<u32>, c: u32, end: int) -> int
    decreases end,
{
    if end <= 0 {
        0
    } else {
        count_color_upto(colors, c, end - 1) + if colors[end - 1] == c {
            1int
        } else {
            0int
        }
    }
}

proof fn lemma_count_color_le(colors: Seq<u32>, c: u32, end: int)
    requires
        0 <= end,
    ensures
        count_color_upto(colors, c, end) <= end,
    decreases end,
{
    if end > 0 {
        lemma_count_color_le(colors, c, end - 1);
    }
}

/// Given a color mapping and the number of colors, "remaps" the features,
/// generating a vector `remap` such that `remap[f]` is `f`'s rank among
/// all features it shares a color with, 1-indexed.
///
/// I.e., the lowest-numbered feature for a given color will have a `remap`
/// of 1, the second lowest numbered, 2, and so on.
pub fn remap(ncolors: u32, colors: &[u32]) -> (r: Vec<u32>)
    requires
        forall|f: int| 0 <= f < colors@.len() ==> (#[trigger] colors@[f]) < ncolors,
        colors@.len() <= u32::MAX,
    ensures
        r@.len() == colors@.len(),
        forall|f: int|
            0 <= f < colors@.len() ==> (#[trigger] r@[f]) == count_color_upto(
                colors@,
                colors@[f],
                f + 1,
            ),
{
    let n = colors.len();
    let mut color_counts: Vec<u32> = Vec::new();
    let mut c: u32 = 0;
    while c < ncolors
        invariant
            c <= ncolors,
            color_counts@.len() == c,
            forall|k: int| 0 <= k < c ==> color_counts@[k] == 0,
        decreases ncolors - c,
    {
        color_counts.push(0);
        c = c + 1;
    }
    let mut out: Vec<u32> = Vec::new();
    let mut f: usize = 0;
    while f < n
        invariant
            f <= n,
            n == colors@.len(),
            n <= u32::MAX,
            forall|k: int| 0 <= k < n ==> (#[trigger] colors@[k]) < ncolors,
            color_counts@.len() == ncolors,
            out@.len() == f,
            forall|k: int|
                0 <= k < ncolors ==> (#[trigger] color_counts@[k]) == count_color_upto(
                    colors@,
                    k as u32,
                    f as int,
                ),
            forall|k: int|
                0 <= k < f ==> (#[trigger] out@[k]) == count_color_upto(
                    colors@,
                    colors@[k],
                    k + 1,
                ),
        decreases n - f,
    {
        let cf = colors[f];
        proof {
            lemma_count_color_le(colors@, cf, f as int);
        }
        let bumped = color_counts[cf as usize] + 1;
        color_counts[cf as usize] = bumped;
        out.push(bumped);
        proof {
            assert forall|k: int| 0 <= k < ncolors implies (#[trigger] color_counts@[k])
                == count_color_upto(colors@, k as u32, f + 1) by {
                if k == cf as int {
                    assert(color_counts@[k] == bumped);
                } else {
                    assert(colors@[f as int] != k as u32);
                }
            }
        }
        f = f + 1;
    }
    out
}

/// How many entries of `s` are set.
pub open spec fn count_true(s: Seq<bool>) -> int
    decreases s.len(),
{
    if s.len() == 0 {
        0
    } else {
        count_true(s.drop_last()) + if s.last() {
            1int
        } else {
            0int
        }
    }
}

proof fn lemma_count_no_true(s: Seq<bool>)
    requires
        forall|i: int| 0 <= i < s.len() ==> !s[i],
    ensures
        count_true(s) == 0,
    decreases s.len(),
{
    if s.len() > 0 {
        assert forall|i: int| 0 <= i < s.drop_last().len() implies !s.drop_last()[i] by {
            assert(!s[i]);
        }
        lemma_count_no_true(s.drop_last());
    }
}

proof fn lemma_count_true_le(s: Seq<bool>)
    ensures
        count_true(s) <= s.len(),
    decreases s.len(),
{
    if s.len() > 0 {
        lemma_count_true_le(s.drop_last());
    }
}

proof fn lemma_count_true_update(s: Seq<bool>, i: int)
    requires
        0 <= i < s.len(),
        !s[i],
    ensures
        count_true(s.update(i, true)) == count_true(s) + 1,
    decreases s.len(),
{
    if i == s.len() - 1 {
        assert(s.update(i, true).drop_last() =~= s.drop_last());
    } else {
        assert(s.update(i, true).drop_last() =~= s.drop_last().update(i, true));
        lemma_count_true_update(s.drop_last(), i);
    }
}

proof fn lemma_count_all_true(s: Seq<bool>)
    requires
        forall|i: int| 0 <= i < s.len() ==> s[i],
    ensures
        count_true(s) == s.len(),
    decreases s.len(),
{
    if s.len() > 0 {
        assert forall|i: int| 0 <= i < s.drop_last().len() implies s.drop_last()[i] by {
            assert(s[i]);
        }
        lemma_count_all_true(s.drop_last());
    }
}

/// Some feature carries the color `c`.
pub open spec fn color_used(colors: Seq<u32>, c: u32) -> bool {
    exists|v: int| 0 <= v < colors.len() && colors[v] == c
}

/// Returns `(ncolors, colors)` for a max-degree-ordered greedy coloring.
///
/// Vertices are processed in descending order of degree; each receives
/// the smallest color not held by an already-colored neighbor, growing the
/// palette by one only when every current color is taken. The palette
/// never exceeds the maximum degree plus one, and the result is proper.
pub fn greedy(graph: &Graph) -> (r: (u32, Vec<u32>))
    requires
        graph.wf(),
    ensures
        r.1@.len() == graph.nv(),
        forall|v: int| 0 <= v < graph.nv() ==> (#[trigger] r.1@[v]) < r.0,
        proper_coloring(*graph, r.1@),
        r.0 <= max_deg(*graph) + 1,
        forall|c: u32| c < r.0 ==> color_used(r.1@, c),
        forall|v: int|
            0 <= v < graph.nv() && (#[trigger] graph.nbrs(v)).len() == 0 ==> r.1@[v] == 0,
{
    let n = graph.nvertices();
    let maxdeg = graph.max_degree();
    proof {
        lemma_max_deg_le(*graph);
        lemma_nv_bound(*graph);
    }

    // Bucket the vertices by degree; walking the buckets from the highest
    // degree down visits every vertex in descending order of degree.
    let mut buckets: Vec<Vec<u32>> = Vec::new();
    let mut d: usize = 0;
    while d < maxdeg + 1
        invariant
            maxdeg + 1 <= usize::MAX,
            d <= maxdeg + 1,
            buckets@.len() == d,
            forall|k: int| 0 <= k < d ==> (#[trigger] buckets@[k])@.len() == 0,
        decreases maxdeg + 1 - d,
    {
        buckets.push(Vec::new());
        d = d + 1;
    }
    let mut v: usize = 0;
    while v < n
        invariant
            graph.wf(),
            n == graph.nv(),
            n <= u32::MAX,
            maxdeg == max_deg(*graph),
            v <= n,
            buckets@.len() == maxdeg + 1,
            forall|bk: int, m: int|
                0 <= bk < buckets@.len() && 0 <= m < buckets@[bk]@.len() ==> {
                    &&& (#[trigger] buckets@[bk]@[m]) < v
                    &&& graph.nbrs(buckets@[bk]@[m] as int).len() == bk
                },
            forall|bk: int, m1: int, m2: int|
                0 <= bk < buckets@.len() && 0 <= m1 < m2 < buckets@[bk]@.len() ==> (
                #[trigger] buckets@[bk]@[m1]) < (#[trigger] buckets@[bk]@[m2]),
            forall|u: int|
                0 <= u < v ==> (#[trigger] buckets@[graph.nbrs(u).len() as int])@.contains(
                    u as u32,
                ),
        decreases n - v,
    {
        let deg = graph.degree(v as u32);
        proof {
            lemma_max_deg(*graph, v as int);
        }
        let ghost pre = buckets@;
        buckets[deg].push(v as u32);
        proof {
            assert(buckets@[deg as int]@ == pre[deg as int]@.push(v as u32));
            assert forall|u: int| 0 <= u < v + 1 implies (#[trigger] buckets@[graph.nbrs(
                u,
            ).len() as int])@.contains(u as u32) by {
                lemma_max_deg(*graph, u);
                let du = graph.nbrs(u).len() as int;
                assert(0 <= du < buckets@.len());
                if u < v {
                    assert(pre[du]@.contains(u as u32));
                    let m = choose|m: int| 0 <= m < pre[du]@.len() && pre[du]@[m] == u as u32;
                    assert(buckets@[du]@[m] == u as u32);
                } else {
                    assert(buckets@[du]@[pre[du]@.len() as int] == u as u32);
                }
            }
        }
        v = v + 1;
    }

    // The coloring itself, processing buckets from highest degree down.
    let mut colors: Vec<u32> = Vec::new();
    let mut i: usize = 0;
    while i < n
        invariant
            i <= n,
            colors@.len() == i,
            forall|k: int| 0 <= k < i ==> colors@[k] == NO_COLOR,
        decreases n - i,
    {
        colors.push(NO_COLOR);
        i = i + 1;
    }
    let mut adjacent_colors: Vec<bool> = Vec::new();

    let mut b: usize = buckets.len();
    proof {
        assert forall|u: int|
            0 <= u < n && graph.nbrs(u).len() >= b implies (#[trigger] colors@[u])
            != NO_COLOR by {
            lemma_max_deg(*graph, u);
        }
    }
    while b > 0
        invariant
            graph.wf(),
            n == graph.nv(),
            n <= u32::MAX,
            maxdeg == max_deg(*graph),
            n > 0 ==> maxdeg <= n - 1,
            buckets@.len() == maxdeg + 1,
            b <= buckets@.len(),
            forall|bk: int, m: int|
                0 <= bk < buckets@.len() && 0 <= m < buckets@[bk]@.len() ==> {
                    &&& (#[trigger] buckets@[bk]@[m]) < n
                    &&& graph.nbrs(buckets@[bk]@[m] as int).len() == bk
                },
            forall|bk: int, m1: int, m2: int|
                0 <= bk < buckets@.len() && 0 <= m1 < m2 < buckets@[bk]@.len() ==> (
                #[trigger] buckets@[bk]@[m1]) < (#[trigger] buckets@[bk]@[m2]),
            forall|u: int|
                0 <= u < n ==> (#[trigger] buckets@[graph.nbrs(u).len() as int])@.contains(
                    u as u32,
                ),
            colors@.len() == n,
            adjacent_colors@.len() <= maxdeg + 1,
            forall|u: int|
                0 <= u < n ==> (#[trigger] colors@[u]) == NO_COLOR || colors@[u]
                    < adjacent_colors@.len(),
            forall|c: int| 0 <= c < adjacent_colors@.len() ==> !(#[trigger] adjacent_colors@[c]),
            forall|c: u32| c < adjacent_colors@.len() ==> #[trigger] color_used(colors@, c),
            forall|vv: int, j: int|
                0 <= vv < n && 0 <= j < graph.nbrs(vv).len() && colors@[vv] != NO_COLOR
                    && colors@[(#[trigger] graph.nbrs(vv)[j]) as int] != NO_COLOR ==> colors@[vv]
                    != colors@[graph.nbrs(vv)[j] as int],
            forall|u: int|
                0 <= u < n && graph.nbrs(u).len() >= b ==> (#[trigger] colors@[u]) != NO_COLOR,
            forall|u: int|
                0 <= u < n && (#[trigger] colors@[u]) != NO_COLOR ==> graph.nbrs(u).len() >= b,
            forall|u: int|
                0 <= u < n && (#[trigger] colors@[u]) != NO_COLOR && graph.nbrs(u).len() == 0
                    ==> colors@[u] == 0,
        decreases b,
    {
        b = b - 1;
        let bucket = &buckets[b];
        let mut k: usize = 0;
        while k < bucket.len()
            invariant
                graph.wf(),
                n == graph.nv(),
                n <= u32::MAX,
                maxdeg == max_deg(*graph),
                n > 0 ==> maxdeg <= n - 1,
                buckets@.len() == maxdeg + 1,
                b < buckets@.len(),
                bucket@ == buckets@[b as int]@,
                k <= bucket@.len(),
                forall|m: int|
                    0 <= m < bucket@.len() ==> (#[trigger] bucket@[m]) < n && graph.nbrs(
                        bucket@[m] as int,
                    ).len() == b,
                forall|m1: int, m2: int|
                    0 <= m1 < m2 < bucket@.len() ==> (#[trigger] bucket@[m1]) < (
                    #[trigger] bucket@[m2]),
                colors@.len() == n,
                adjacent_colors@.len() <= maxdeg + 1,
                forall|u: int|
                    0 <= u < n ==> (#[trigger] colors@[u]) == NO_COLOR || colors@[u]
                        < adjacent_colors@.len(),
                forall|c: int|
                    0 <= c < adjacent_colors@.len() ==> !(#[trigger] adjacent_colors@[c]),
                forall|c: u32| c < adjacent_colors@.len() ==> #[trigger] color_used(colors@, c),
                forall|vv: int, j: int|
                    0 <= vv < n && 0 <= j < graph.nbrs(vv).len() && colors@[vv] != NO_COLOR
                        && colors@[(#[trigger] graph.nbrs(vv)[j]) as int] != NO_COLOR
                        ==> colors@[vv] != colors@[graph.nbrs(vv)[j] as int],
                forall|u: int|
                    0 <= u < n && (graph.nbrs(u).len() > b || (graph.nbrs(u).len() == b && exists|
                        m: int,
                    | 0 <= m < k && bucket@[m] == u)) ==> (#[trigger] colors@[u]) != NO_COLOR,
                forall|u: int|
                    0 <= u < n && (#[trigger] colors@[u]) != NO_COLOR ==> graph.nbrs(u).len() > b
                        || (graph.nbrs(u).len() == b && exists|m: int|
                        0 <= m < k && bucket@[m] == u),
                forall|u: int|
                    0 <= u < n && (#[trigger] colors@[u]) != NO_COLOR && graph.nbrs(u).len() == 0
                        ==> colors@[u] == 0,
            decreases bucket@.len() - k,
        {
            let w = bucket[k];
            proof {
                lemma_nbrs_wf(*graph, w as int);
                assert(colors@[w as int] == NO_COLOR) by {
                    if colors@[w as int] != NO_COLOR {
                        let m = choose|m: int| 0 <= m < k && bucket@[m] == w as u32;
                        assert(bucket@[m] < bucket@[k as int]);
                    }
                }
            }
            let nbrs_w = graph.neighbors(w);
            let ghost colors0 = colors@;
            let ghost palette0 = adjacent_colors@.len() as int;

            // What colors do our neighbors have? Mark them in the scratch
            // array and count the distinct marks.
            let mut nadjacent: usize = 0;
            proof {
                lemma_count_no_true(adjacent_colors@);
            }
            let mut j: usize = 0;
            while j < nbrs_w.len()
                invariant
                    graph.wf(),
                    n == graph.nv(),
                    0 <= (w as int) < n,
                    nbrs_w@ == graph.nbrs(w as int),
                    colors@ == colors0,
                    colors@.len() == n,
                    j <= nbrs_w@.len(),
                    adjacent_colors@.len() == palette0,
                    forall|u: int|
                        0 <= u < n ==> (#[trigger] colors@[u]) == NO_COLOR || colors@[u]
                            < palette0,
                    forall|m: int|
                        0 <= m < nbrs_w@.len() ==> (#[trigger] nbrs_w@[m]) < n,
                    nadjacent == count_true(adjacent_colors@),
                    nadjacent <= j,
                    forall|c: int|
                        0 <= c < palette0 && (#[trigger] adjacent_colors@[c]) ==> exists|m: int|
                            0 <= m < j && colors@[nbrs_w@[m] as int] == c,
                    forall|m: int|
                        0 <= m < j && colors@[(#[trigger] nbrs_w@[m]) as int] != NO_COLOR
                            ==> adjacent_colors@[colors@[nbrs_w@[m] as int] as int],
                decreases nbrs_w@.len() - j,
            {
                let x = nbrs_w[j];
                let cx = colors[x as usize];
                if cx != NO_COLOR {
                    if !adjacent_colors[cx as usize] {
                        proof {
                            lemma_count_true_update(adjacent_colors@, cx as int);
                        }
                        adjacent_colors[cx as usize] = true;
                        nadjacent = nadjacent + 1;
                        proof {
                            assert forall|c: int|
                                0 <= c < palette0 && (#[trigger] adjacent_colors@[c]) implies exists|
                                m: int,
                            | 0 <= m < j + 1 && colors@[nbrs_w@[m] as int] == c by {
                                if c == cx as int {
                                    assert(colors@[nbrs_w@[j as int] as int] == c);
                                } else {
                                    let m = choose|m: int|
                                        0 <= m < j && colors@[nbrs_w@[m] as int] == c;
                                    assert(0 <= m < j + 1 && colors@[nbrs_w@[m] as int] == c);
                                }
                            }
                        }
                    }
                }
                j = j + 1;
            }

            // What's the smallest color not on our neighbors? Grow the
            // palette by one only if every current color is taken.
            let palette = adjacent_colors.len();
            let chosen: u32;
            if nadjacent == palette {
                proof {
                    lemma_max_deg(*graph, w as int);
                    assert(adjacent_colors@.push(false).drop_last() =~= adjacent_colors@);
                }
                adjacent_colors.push(false);
                chosen = palette as u32;
            } else {
                proof {
                    lemma_count_true_le(adjacent_colors@);
                }
                let mut cc: usize = 0;
                while cc < palette && adjacent_colors[cc]
                    invariant
                        palette == adjacent_colors@.len(),
                        cc <= palette,
                        nadjacent == count_true(adjacent_colors@),
                        nadjacent < palette,
                        forall|m: int| 0 <= m < cc ==> (#[trigger] adjacent_colors@[m]),
                    decreases palette - cc,
                {
                    cc = cc + 1;
                }
                proof {
                    if cc == palette {
                        lemma_count_all_true(adjacent_colors@);
                    }
                    // A vertex with no neighbors marks nothing, so the
                    // scan stops at the smallest color, zero.
                    if nbrs_w@.len() == 0 && cc > 0 {
                        assert(adjacent_colors@[0]);
                        assert(false);
                    }
                }
                chosen = cc as u32;
            }
            let ghost palette1 = adjacent_colors@.len() as int;
            proof {
                assert(!adjacent_colors@[chosen as int]);
                assert(chosen < palette1);
                assert(palette1 <= maxdeg + 1);
                assert((chosen as int) < n) by {
                    lemma_deg_bound(*graph, w as int);
                }
            }
            proof {
                if nbrs_w@.len() == 0 {
                    assert(nadjacent == 0);
                    assert(chosen == 0);
                }
            }
            colors[w as usize] = chosen;
            proof {
                assert(colors@ == colors0.update(w as int, chosen));
                // Vertices without neighbors keep the smallest color.
                assert forall|u: int|
                    0 <= u < n && (#[trigger] colors@[u]) != NO_COLOR && graph.nbrs(u).len()
                        == 0 implies colors@[u] == 0 by {
                    if u != w as int {
                        assert(colors@[u] == colors0[u]);
                    }
                }
                // The chosen color differs from every colored neighbor's:
                // all of those are marked, and `chosen` is not.
                assert forall|m: int|
                    0 <= m < nbrs_w@.len() && colors@[(#[trigger] nbrs_w@[m]) as int]
                        != NO_COLOR implies colors@[nbrs_w@[m] as int] != chosen by {
                    assert(nbrs_w@[m] != w);
                    assert(colors0[nbrs_w@[m] as int] == colors@[nbrs_w@[m] as int]);
                    assert(adjacent_colors@[colors0[nbrs_w@[m] as int] as int]);
                }
                // Pairwise properness is preserved.
                assert forall|vv: int, j2: int|
                    0 <= vv < n && 0 <= j2 < graph.nbrs(vv).len() && colors@[vv] != NO_COLOR
                        && colors@[(#[trigger] graph.nbrs(vv)[j2]) as int]
                        != NO_COLOR implies colors@[vv] != colors@[graph.nbrs(vv)[j2] as int] by {
                    let x = graph.nbrs(vv)[j2];
                    lemma_nbrs_wf(*graph, vv);
                    if vv == w as int {
                        assert(colors@[x as int] != chosen);
                    } else if x == w {
                        lemma_nbrs_symmetric(*graph, vv, j2);
                        let m = choose|m: int|
                            0 <= m < graph.nbrs(w as int).len() && graph.nbrs(w as int)[m]
                                == vv as u32;
                        assert(colors@[nbrs_w@[m] as int] != chosen);
                    }
                }
                // Every palette color is used by some vertex.
                assert forall|c: u32| c < palette1 implies #[trigger] color_used(colors@, c) by {
                    if c == chosen {
                        assert(colors@[w as int] == c);
                    } else if c < palette0 {
                        assert(color_used(colors0, c));
                        let u = choose|u: int| 0 <= u < colors0.len() && colors0[u] == c;
                        assert(colors0[u] != NO_COLOR);
                        assert(u != w as int);
                        assert(colors@[u] == c);
                    } else {
                        assert(palette1 == palette0 + 1 && chosen == palette0);
                        assert(false);
                    }
                }
            }

            // Retain the loop invariant: unset the neighbor marks, choosing
            // the cheaper of clearing by neighbor or clearing the whole
            // scratch array.
            if graph.degree(w) >= adjacent_colors.len() {
                let mut j2: usize = 0;
                while j2 < nbrs_w.len()
                    invariant
                        graph.wf(),
                        n == graph.nv(),
                        0 <= (w as int) < n,
                        nbrs_w@ == graph.nbrs(w as int),
                        colors@.len() == n,
                        j2 <= nbrs_w@.len(),
                        adjacent_colors@.len() == palette1,
                        forall|u: int|
                            0 <= u < n ==> (#[trigger] colors@[u]) == NO_COLOR || colors@[u]
                                < palette1,
                        forall|m: int|
                            0 <= m < nbrs_w@.len() ==> (#[trigger] nbrs_w@[m]) < n && nbrs_w@[m]
                                != w,
                        forall|c: int|
                            0 <= c < palette1 && (#[trigger] adjacent_colors@[c]) ==> exists|
                                m: int,
                            |
                                j2 <= m < nbrs_w@.len() && colors@[nbrs_w@[m] as int] == c
                                    && colors@[nbrs_w@[m] as int] != NO_COLOR,
                    decreases nbrs_w@.len() - j2,
                {
                    let x = nbrs_w[j2];
                    let cx = colors[x as usize];
                    if cx != NO_COLOR {
                        adjacent_colors[cx as usize] = false;
                    }
                    proof {
                        assert forall|c: int|
                            0 <= c < palette1 && (#[trigger] adjacent_colors@[c]) implies exists|
                            m: int,
                        |
                            j2 + 1 <= m < nbrs_w@.len() && colors@[nbrs_w@[m] as int] == c
                                && colors@[nbrs_w@[m] as int] != NO_COLOR by {
                            let m = choose|m: int|
                                j2 <= m < nbrs_w@.len() && colors@[nbrs_w@[m] as int] == c
                                    && colors@[nbrs_w@[m] as int] != NO_COLOR;
                            assert(m != j2);
                        }
                    }
                    j2 = j2 + 1;
                }
            } else {
                let mut c2: usize = 0;
                let plen = adjacent_colors.len();
                while c2 < plen
                    invariant
                        plen == adjacent_colors@.len(),
                        c2 <= plen,
                        forall|m: int| 0 <= m < c2 ==> !(#[trigger] adjacent_colors@[m]),
                    decreases plen - c2,
                {
                    adjacent_colors[c2] = false;
                    proof {
                        assert forall|m: int| 0 <= m < c2 + 1 implies !(
                        #[trigger] adjacent_colors@[m]) by {}
                    }
                    c2 = c2 + 1;
                }
            }
            proof {
                // Processed exactly the first `k + 1` entries of this bucket.
                assert forall|u: int|
                    0 <= u < n && (graph.nbrs(u).len() > b || (graph.nbrs(u).len() == b && exists|
                        m: int,
                    | 0 <= m < k + 1 && bucket@[m] == u)) implies (#[trigger] colors@[u])
                    != NO_COLOR by {
                    if u != w as int {
                        if graph.nbrs(u).len() == b {
                            let m = choose|m: int| 0 <= m < k + 1 && bucket@[m] == u;
                            assert(m < k || bucket@[m] == w);
                        }
                    }
                }
                assert forall|u: int|
                    0 <= u < n && (#[trigger] colors@[u]) != NO_COLOR implies graph.nbrs(u).len()
                    > b || (graph.nbrs(u).len() == b && exists|m: int|
                    0 <= m < k + 1 && bucket@[m] == u) by {
                    if u == w as int {
                        assert(bucket@[k as int] == w);
                    }
                }
            }
            k = k + 1;
        }
        proof {
            assert forall|u: int|
                0 <= u < n && graph.nbrs(u).len() >= b implies (#[trigger] colors@[u])
                != NO_COLOR by {
                if graph.nbrs(u).len() == b {
                    assert(buckets@[b as int]@.contains(u as u32));
                    let m = choose|m: int|
                        0 <= m < bucket@.len() && bucket@[m] == u as u32;
                    assert(0 <= m < bucket@.len() && bucket@[m] == u);
                }
            }
        }
    }

    let ncolors = adjacent_colors.len();
    proof {
        assert forall|u: int| 0 <= u < n implies (#[trigger] colors@[u]) < ncolors by {
            assert(graph.nbrs(u).len() >= 0);
            assert(colors@[u] != NO_COLOR);
        }
    }
    (ncolors as u32, colors)
}

/// The colors currently packed into a row of cells.
pub open spec fn payloads(cells: Seq<Rwu32>) -> Seq<u32> {
    cells.map_values(|c: Rwu32| c.payload())
}

/// The shared coloring state between update attempts: every cell is
/// unlocked, every payload is a legal color, and the coloring is proper.
pub open spec fn cells_ok(cells: Seq<Rwu32>, g: Graph, ncolors: int) -> bool {
    &&& cells.len() == g.nv()
    &&& forall|i: int| 0 <= i < cells.len() ==> (#[trigger] cells[i]).unlocked()
    &&& forall|i: int| 0 <= i < cells.len() ==> (#[trigger] cells[i]).payload() < ncolors
    &&& proper_coloring(g, payloads(cells))
}

/// One accepted update step: the new coloring equals the old one with a
/// single vertex rewritten to a color held by none of its neighbors.
pub open spec fn one_vertex_update(
    g: Graph,
    pre: Seq<u32>,
    post: Seq<u32>,
    v: int,
    c: u32,
) -> bool {
    &&& 0 <= v < g.nv()
    &&& post == pre.update(v, c)
    &&& forall|m: int|
        0 <= m < g.nbrs(v).len() ==> pre[(#[trigger] g.nbrs(v)[m]) as int] != c
}

/// Release the read guards over the locked prefix of `v`'s neighbor list,
/// counting each cell's reader down once.
fn release_neighbors(cells: &mut Vec<Rwu32>, nbrs_v: &[u32], neighbor_guards: &mut Vec<ReadGuard>)
    requires
        old(neighbor_guards)@.len() <= nbrs_v@.len(),
        forall|m1: int, m2: int|
            0 <= m1 < m2 < nbrs_v@.len() ==> (#[trigger] nbrs_v@[m1]) != (#[trigger] nbrs_v@[m2]),
        forall|m: int| 0 <= m < nbrs_v@.len() ==> (#[trigger] nbrs_v@[m]) < old(cells)@.len(),
        forall|m: int|
            0 <= m < old(neighbor_guards)@.len() ==> !old(cells)@[(#[trigger] nbrs_v@[m]) as int].wlocked()
                && old(cells)@[nbrs_v@[m] as int].nreaders() == 1,
    ensures
        final(cells)@.len() == old(cells)@.len(),
        final(neighbor_guards)@.len() == 0,
        forall|m: int|
            0 <= m < old(neighbor_guards)@.len() ==> final(cells)@[(
            #[trigger] nbrs_v@[m]) as int].unlocked() && final(cells)@[nbrs_v@[m] as int].payload()
                == old(cells)@[nbrs_v@[m] as int].payload(),
        forall|x: int|
            0 <= x < old(cells)@.len() && !(exists|m: int|
                0 <= m < old(neighbor_guards)@.len() && (#[trigger] nbrs_v@[m]) == x)
                ==> final(cells)@[x] == old(cells)@[x],
{
    let ghost k0 = old(neighbor_guards)@.len() as int;
    while neighbor_guards.len() > 0
        invariant
            neighbor_guards@.len() <= k0,
            k0 <= nbrs_v@.len(),
            cells@.len() == old(cells)@.len(),
            forall|m1: int, m2: int|
                0 <= m1 < m2 < nbrs_v@.len() ==> (#[trigger] nbrs_v@[m1]) != (
                #[trigger] nbrs_v@[m2]),
            forall|m: int| 0 <= m < nbrs_v@.len() ==> (#[trigger] nbrs_v@[m]) < cells@.len(),
            forall|m: int|
                0 <= m < neighbor_guards@.len() ==> cells@[(#[trigger] nbrs_v@[m]) as int] == old(
                    cells,
                )@[nbrs_v@[m] as int],
            forall|m: int|
                neighbor_guards@.len() <= m < k0 ==> cells@[(
                #[trigger] nbrs_v@[m]) as int].unlocked() && cells@[nbrs_v@[m] as int].payload()
                    == old(cells)@[nbrs_v@[m] as int].payload(),
            forall|m: int|
                0 <= m < neighbor_guards@.len() ==> !old(cells)@[(
                #[trigger] nbrs_v@[m]) as int].wlocked() && old(cells)@[nbrs_v@[m] as int].nreaders()
                    == 1,
            forall|x: int|
                0 <= x < cells@.len() && !(exists|m: int|
                    0 <= m < k0 && (#[trigger] nbrs_v@[m]) == x) ==> cells@[x] == old(cells)@[x],
        decreases neighbor_guards@.len(),
    {
        let guard = neighbor_guards.pop().unwrap();
        let m = neighbor_guards.len();
        let w = nbrs_v[m];
        cells[w as usize].read_unlock(guard);
    }
}

/// Recoloring one vertex with a color held by none of its neighbors
/// preserves properness: the heart of the Glauber update's safety.
pub proof fn lemma_recolor_proper(g: Graph, colors: Seq<u32>, v: int, c: u32)
    requires
        g.wf(),
        0 <= v < g.nv(),
        colors.len() == g.nv(),
        proper_coloring(g, colors),
        forall|m: int|
            0 <= m < g.nbrs(v).len() ==> colors[(#[trigger] g.nbrs(v)[m]) as int] != c,
    ensures
        proper_coloring(g, colors.update(v, c)),
{
    lemma_nv_bound(g);
    let colors1 = colors.update(v, c);
    assert forall|vv: int, j2: int|
        0 <= vv < g.nv() && 0 <= j2 < g.nbrs(vv).len() implies colors1[vv] != colors1[(
    #[trigger] g.nbrs(vv)[j2]) as int] by {
        let x = g.nbrs(vv)[j2];
        lemma_nbrs_wf(g, vv);
        if vv == v {
            assert(x != v);
            assert(colors1[x as int] == colors[x as int]);
            assert(colors[(g.nbrs(v)[j2]) as int] != c);
        } else if x == v {
            lemma_nbrs_symmetric(g, vv, j2);
            let m = choose|m: int|
                0 <= m < g.nbrs(v).len() && g.nbrs(v)[m] == vv as u32;
            assert(colors[(g.nbrs(v)[m]) as int] != c);
            assert(colors1[vv] == colors[vv]);
        }
    }
}

/// One optimistic Glauber update attempt: pick a uniformly random vertex,
/// write-lock it, read-lock each of its neighbors while excluding the
/// observed neighbor colors from the viable set, then publish a uniformly
/// chosen viable color. Any lock failure would release every guard
/// acquired in this attempt and report a conflict with `None`; with no
/// concurrent contention every attempt succeeds.
///
/// Crucially, the neighbor read locks are only dropped after the vertex
/// is updated.
#[verifier::rlimit(100)]
pub fn try_mcmc_update(
    rng: &mut rand_pcg::Lcg64Xsh32,
    cells: &mut Vec<Rwu32>,
    graph: &Graph,
    viable_colors: &mut DiscreteSampler,
) -> (r: Option<()>)
    requires
        graph.wf(),
        graph.nv() > 0,
        old(viable_colors).wf(),
        cells_ok(old(cells)@, *graph, old(viable_colors).domain()),
    ensures
        final(viable_colors).wf(),
        final(viable_colors).domain() == old(viable_colors).domain(),
        cells_ok(final(cells)@, *graph, old(viable_colors).domain()),
        r is Some,
        exists|v: int, c: u32|
            one_vertex_update(
                *graph,
                payloads(old(cells)@),
                payloads(final(cells)@),
                v,
                c,
            ),
{
    let ghost nc = old(viable_colors).domain();
    let ghost colors0 = payloads(old(cells)@);
    viable_colors.reset();
    let n = graph.nvertices();
    proof {
        lemma_nv_bound(*graph);
    }
    let vu = rand_below(rng, n);
    let v = vu as u32;
    proof {
        lemma_nbrs_wf(*graph, v as int);
        assert forall|m1: int, m2: int|
            0 <= m1 < m2 < graph.nbrs(v as int).len() implies (#[trigger] graph.nbrs(v as int)[m1])
            != (#[trigger] graph.nbrs(v as int)[m2]) by {
            lemma_nbrs_increasing(*graph, v as int, m1, m2);
        }
    }
    let v_guard_opt = cells[vu].try_write_lock();
    let mut v_guard = match v_guard_opt {
        Some(g) => g,
        None => {
            proof {
                assert(old(cells)@[vu as int].unlocked());
                assert(false);
            }
            return None;
        },
    };
    let nbrs_v = graph.neighbors(v);
    let mut neighbor_guards: Vec<ReadGuard> = Vec::new();
    let mut j: usize = 0;
    while j < nbrs_v.len()
        invariant
            graph.wf(),
            n == graph.nv(),
            n <= u32::MAX + 1,
            (vu as int) < n,
            v == vu as u32,
            vu == v as int,
            nbrs_v@ == graph.nbrs(v as int),
            nc == old(viable_colors).domain(),
            colors0 == payloads(old(cells)@),
            forall|m: int|
                0 <= m < nbrs_v@.len() ==> (#[trigger] nbrs_v@[m]) < n && nbrs_v@[m] != v,
            forall|m1: int, m2: int|
                0 <= m1 < m2 < nbrs_v@.len() ==> (#[trigger] nbrs_v@[m1]) != (
                #[trigger] nbrs_v@[m2]),
            cells@.len() == n,
            j <= nbrs_v@.len(),
            neighbor_guards@.len() == j,
            payloads(cells@) == colors0,
            colors0.len() == n,
            forall|i: int| 0 <= i < n ==> (#[trigger] colors0[i]) < nc,
            proper_coloring(*graph, colors0),
            cells@[vu as int].wlocked() && cells@[vu as int].nreaders() == 0,
            v_guard.previous() == colors0[vu as int],
            v_guard.current() == colors0[vu as int],
            forall|x: int|
                0 <= x < n && x != vu && !(exists|m: int|
                    0 <= m < j && (#[trigger] nbrs_v@[m]) == x) ==> cells@[x].unlocked(),
            forall|m: int|
                0 <= m < j ==> !cells@[(#[trigger] nbrs_v@[m]) as int].wlocked() && cells@[nbrs_v@[m] as int].nreaders()
                    == 1,
            viable_colors.wf(),
            viable_colors.domain() == nc,
            forall|c: int|
                0 <= c < nc ==> ((#[trigger] viable_colors.is_alive(c)) <==> !(exists|m: int|
                    0 <= m < j && colors0[(#[trigger] nbrs_v@[m]) as int] == c)),
        decreases nbrs_v@.len() - j,
    {
        let w = nbrs_v[j];
        let rl = cells[w as usize].try_read_lock();
        match rl {
            Some((c_w, rguard)) => {
                proof {
                    assert(c_w == colors0[w as int]);
                }
                neighbor_guards.push(rguard);
                viable_colors.remove(c_w);
                proof {
                    assert forall|c: int|
                        0 <= c < nc implies ((#[trigger] viable_colors.is_alive(c)) <==> !(exists|
                        m: int,
                    | 0 <= m < j + 1 && colors0[(#[trigger] nbrs_v@[m]) as int] == c)) by {
                        if viable_colors.is_alive(c) {
                            assert forall|m: int|
                                0 <= m < j + 1 implies colors0[(#[trigger] nbrs_v@[m]) as int]
                                != c by {
                                if m < j {
                                    assert(!(exists|m2: int|
                                        0 <= m2 < j && colors0[(#[trigger] nbrs_v@[m2]) as int]
                                            == c));
                                }
                            }
                        }
                    }
                }
                if viable_colors.nalive() == 1 {
                    // One viable color left: no further neighbor can
                    // re-admit an excluded color. Leave the vertex's color
                    // as it was and release every guard of this attempt.
                    cells[vu].write_unlock(v_guard);
                    release_neighbors(cells, nbrs_v, &mut neighbor_guards);
                    proof {
                        assert(payloads(cells@) =~= colors0);
                        assert forall|i: int| 0 <= i < cells@.len() implies (
                        #[trigger] cells@[i]).payload() < nc by {
                            assert(cells@[i].payload() == payloads(cells@)[i]);
                        }
                        // An unchanged coloring is the update that rewrites
                        // the vertex with its own color, which no neighbor
                        // holds.
                        assert(colors0.update(vu as int, colors0[vu as int]) =~= colors0);
                        assert forall|m: int|
                            0 <= m < graph.nbrs(vu as int).len() implies colors0[(
                        #[trigger] graph.nbrs(vu as int)[m]) as int] != colors0[vu as int] by {
                            assert(colors0[vu as int] != colors0[graph.nbrs(vu as int)[m] as int]);
                        }
                        assert(one_vertex_update(
                            *graph,
                            colors0,
                            payloads(cells@),
                            vu as int,
                            colors0[vu as int],
                        ));
                    }
                    return Some(());
                }
            },
            None => {
                proof {
                    assert(!cells@[w as int].wlocked());
                    assert(false);
                }
                return None;
            },
        }
        j = j + 1;
    }
    // Sample a color uniformly from the remaining viable set; the vertex's
    // own color is always viable, so the set is never empty.
    proof {
        assert(viable_colors.is_alive(colors0[vu as int] as int)) by {
            assert forall|m: int|
                0 <= m < nbrs_v@.len() implies colors0[(#[trigger] nbrs_v@[m]) as int]
                != colors0[vu as int] by {
                assert(colors0[vu as int] != colors0[graph.nbrs(vu as int)[m] as int]);
            }
        }
        crate::sampler::lemma_alive_nonzero(*viable_colors, colors0[vu as int] as int);
    }
    let chosen = viable_colors.sample(rng);
    v_guard.write(chosen);
    let ghost cells_mid = cells@;
    cells[vu].write_unlock(v_guard);
    release_neighbors(cells, nbrs_v, &mut neighbor_guards);
    proof {
        assert(payloads(cells@) =~= colors0.update(vu as int, chosen));
        assert forall|i: int| 0 <= i < cells@.len() implies (#[trigger] cells@[i]).payload()
            < nc by {
            assert(cells@[i].payload() == payloads(cells@)[i]);
        }
        assert forall|m: int|
            0 <= m < graph.nbrs(vu as int).len() implies colors0[(
        #[trigger] graph.nbrs(vu as int)[m]) as int] != chosen by {
            assert(viable_colors.is_alive(chosen as int));
        }
        lemma_recolor_proper(*graph, colors0, vu as int, chosen);
        assert(one_vertex_update(*graph, colors0, payloads(cells@), vu as int, chosen));
    }
    Some(())
}

/// Run `nsamples` Glauber update steps from the given proper seed
/// coloring, mutating the coloring in place through per-vertex cells, and
/// return the final coloring. Properness is preserved by every accepted
/// step; with no concurrent contention no attempt ever conflicts.
pub fn glauber_seeded(
    graph: &Graph,
    colors: Vec<u32>,
    ncolors: u32,
    nsamples: usize,
    rng: &mut rand_pcg::Lcg64Xsh32,
) -> (r: Vec<u32>)
    requires
        graph.wf(),
        graph.nv() > 0,
        colors@.len() == graph.nv(),
        forall|v: int| 0 <= v < colors@.len() ==> (#[trigger] colors@[v]) < ncolors,
        proper_coloring(*graph, colors@),
    ensures
        r@.len() == graph.nv(),
        forall|v: int| 0 <= v < r@.len() ==> (#[trigger] r@[v]) < ncolors,
        proper_coloring(*graph, r@),
{
    let n = colors.len();
    let mut cells: Vec<Rwu32> = Vec::new();
    let mut i: usize = 0;
    while i < n
        invariant
            i <= n,
            n == colors@.len(),
            cells@.len() == i,
            forall|k: int|
                0 <= k < i ==> (#[trigger] cells@[k]).unlocked() && cells@[k].payload()
                    == colors@[k],
        decreases n - i,
    {
        cells.push(Rwu32::new(colors[i]));
        i = i + 1;
    }
    proof {
        assert(payloads(cells@) =~= colors@);
    }
    let mut viable_colors = DiscreteSampler::new(ncolors);
    let mut s: usize = 0;
    while s < nsamples
        invariant
            graph.wf(),
            graph.nv() > 0,
            viable_colors.wf(),
            viable_colors.domain() == ncolors,
            cells_ok(cells@, *graph, ncolors as int),
        decreases nsamples - s,
    {
        let successful = try_mcmc_update(rng, &mut cells, graph, &mut viable_colors);
        proof {
            assert(successful is Some);
        }
        s = s + 1;
    }
    // Unwrap the cells back into a plain coloring.
    let ghost fin = payloads(cells@);
    let mut rev: Vec<u32> = Vec::new();
    while cells.len() > 0
        invariant
            rev@.len() + cells@.len() == n,
            fin.len() == n,
            forall|k: int|
                0 <= k < cells@.len() ==> (#[trigger] cells@[k]).unlocked() && cells@[k].payload()
                    == fin[k],
            forall|k: int| 0 <= k < rev@.len() ==> (#[trigger] rev@[k]) == fin[n - 1 - k],
        decreases cells@.len(),
    {
        let cell = cells.pop().unwrap();
        rev.push(cell.into_inner());
    }
    let mut out: Vec<u32> = Vec::new();
    while rev.len() > 0
        invariant
            out@.len() + rev@.len() == n,
            fin.len() == n,
            forall|k: int| 0 <= k < rev@.len() ==> (#[trigger] rev@[k]) == fin[n - 1 - k],
            forall|k: int| 0 <= k < out@.len() ==> (#[trigger] out@[k]) == fin[k],
        decreases rev@.len(),
    {
        out.push(rev.pop().unwrap());
    }
    proof {
        assert(out@ =~= fin);
    }
    out
}

/// The fixed PCG state from which every run's generator stream is drawn.
pub const GLAUBER_SEED_STATE: u64 = 0xcafef00dd15ea5e5u64;

/// Return the Glauber coloring after this many samples, seeded by the
/// greedy coloring.
///
/// Returns `None` when the color budget is smaller than the seed
/// coloring's color count; a budget of at least the maximum degree plus
/// one always suffices.
pub fn glauber(graph: &Graph, ncolors: u32, nsamples: usize, seed: u64) -> (r: Option<Vec<u32>>)
    requires
        graph.wf(),
        graph.nv() > 0,
    ensures
        r is Some ==> {
            &&& r->Some_0@.len() == graph.nv()
            &&& forall|v: int|
                0 <= v < r->Some_0@.len() ==> (#[trigger] r->Some_0@[v]) < ncolors
            &&& proper_coloring(*graph, r->Some_0@)
        },
        ncolors >= max_deg(*graph) + 1 ==> r is Some,
        r is None ==> ncolors <= max_deg(*graph),
{
    let (greedy_ncolors, colors) = greedy(graph);
    if greedy_ncolors > ncolors {
        return None;
    }
    let mut rng = rng_new(GLAUBER_SEED_STATE, seed);
    Some(glauber_seeded(graph, colors, ncolors, nsamples, &mut rng))
}

} // verus!

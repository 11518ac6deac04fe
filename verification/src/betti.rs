//! β₁ = E − V + C is never negative when the listed vertices are distinct
//! agents: every edge merges at most two components.
use vstd::prelude::*;

use crate::connectivity::{lemma_connected_refl, lemma_connected_symmetric, lemma_connected_trans};
use crate::cycles::{closes_cycle, closing_edges, cycle_count};
use crate::graph::{connected, is_walk, linked, GraphView};

verus! {

/// The same graph with only the given edges.
pub open spec fn with_edges(g: GraphView, edges: Seq<(usize, usize)>) -> GraphView {
    GraphView { names: g.names, vertices: g.vertices, edges }
}

/// A walk under fewer edges is a walk under more.
proof fn lemma_connected_grow(edges: Seq<(usize, usize)>, e: (usize, usize), x: usize, y: usize)
    requires
        connected(edges, x, y),
    ensures
        connected(edges.push(e), x, y),
{
    let w = choose|w: Seq<usize>| #[trigger] is_walk(edges, w) && w[0] == x && w.last() == y;
    let big = edges.push(e);
    assert forall|i: int| 0 <= i < w.len() - 1 implies linked(big, #[trigger] w[i], w[i + 1]) by {
        assert(linked(edges, w[i], w[i + 1]));
        let j = choose|j: int|
            0 <= j < edges.len() && ((#[trigger] edges[j]).0 == w[i] && edges[j].1 == w[i + 1]
                || edges[j].0 == w[i + 1] && edges[j].1 == w[i]);
        assert(big[j] == edges[j]);
    }
    assert(is_walk(big, w));
}

/// Without edges a walk stays where it starts.
proof fn lemma_connected_no_edges(edges: Seq<(usize, usize)>, x: usize, y: usize)
    requires
        edges.len() == 0,
        connected(edges, x, y),
    ensures
        x == y,
{
    let w = choose|w: Seq<usize>| #[trigger] is_walk(edges, w) && w[0] == x && w.last() == y;
    if w.len() > 1 {
        assert(linked(edges, w[0], w[1]));
    }
}

/// What one more edge (a, b) connects: what was connected before, or a
/// node connected to one end with a node connected to the other.
pub open spec fn joined_by(edges: Seq<(usize, usize)>, e: (usize, usize), x: usize, y: usize) -> bool {
    ||| connected(edges, x, y)
    ||| connected(edges, x, e.0) && connected(edges, e.1, y)
    ||| connected(edges, x, e.1) && connected(edges, e.0, y)
}

/// A walk under the edges plus `e` splits at `e`.
proof fn lemma_walk_split(edges: Seq<(usize, usize)>, e: (usize, usize), w: Seq<usize>)
    requires
        is_walk(edges.push(e), w),
    ensures
        joined_by(edges, e, w[0], w.last()),
    decreases w.len(),
{
    let big = edges.push(e);
    let x = w[0];
    if w.len() == 1 {
        lemma_connected_refl(edges, x);
    } else {
        let p = w.drop_last();
        assert forall|i: int| 0 <= i < p.len() - 1 implies linked(big, #[trigger] p[i], p[i + 1]) by {
            assert(p[i] == w[i] && p[i + 1] == w[i + 1]);
        }
        lemma_walk_split(edges, e, p);
        let z = p.last();
        let y = w.last();
        assert(z == w[w.len() - 2]);
        assert(linked(big, z, y));
        let j = choose|j: int|
            0 <= j < big.len() && ((#[trigger] big[j]).0 == z && big[j].1 == y || big[j].0 == y
                && big[j].1 == z);
        if j < edges.len() {
            assert(big[j] == edges[j]);
            assert(linked(edges, z, y));
            lemma_connected_refl(edges, y);
            let single = seq![z, y];
            assert(is_walk(edges, single));
            assert(connected(edges, z, y));
            if connected(edges, x, z) {
                lemma_connected_trans(edges, x, z, y);
            }
            if connected(edges, e.1, z) {
                lemma_connected_trans(edges, e.1, z, y);
            }
            if connected(edges, e.0, z) {
                lemma_connected_trans(edges, e.0, z, y);
            }
        } else {
            // the last step is the new edge itself
            assert(big[j] == e);
            lemma_connected_refl(edges, y);
        }
    }
}

/// Connection under one more edge splits at that edge.
proof fn lemma_connected_split(edges: Seq<(usize, usize)>, e: (usize, usize), x: usize, y: usize)
    requires
        connected(edges.push(e), x, y),
    ensures
        joined_by(edges, e, x, y),
{
    let w = choose|w: Seq<usize>| #[trigger] is_walk(edges.push(e), w) && w[0] == x && w.last() == y;
    lemma_walk_split(edges, e, w);
}

/// A listed position loses its place as the first of its component when
/// the edge `e` is added.
pub open spec fn loses_first(g: GraphView, e: (usize, usize), i: int) -> bool {
    with_edges(g, g.edges).first_of_component(i) && !with_edges(g, g.edges.push(e)).first_of_component(i)
}

/// Positions below `n` that lose their place.
pub open spec fn lost_upto(g: GraphView, e: (usize, usize), n: int) -> nat
    decreases n,
{
    if n <= 0 {
        0
    } else {
        lost_upto(g, e, n - 1) + if loses_first(g, e, n - 1) {
            1nat
        } else {
            0nat
        }
    }
}

/// More edges never make a position first.
proof fn lemma_first_shrinks(g: GraphView, e: (usize, usize), i: int)
    requires
        with_edges(g, g.edges.push(e)).first_of_component(i),
    ensures
        with_edges(g, g.edges).first_of_component(i),
{
    assert forall|k: int| 0 <= k < i implies !connected(g.edges, #[trigger] g.vertices[k], g.vertices[i]) by {
        let h = with_edges(g, g.edges.push(e));
        assert(h.first_of_component(i));
        assert(!connected(h.edges, h.vertices[k], h.vertices[i]));
        if connected(g.edges, g.vertices[k], g.vertices[i]) {
            lemma_connected_grow(g.edges, e, g.vertices[k], g.vertices[i]);
        }
    }
}

/// The counts before and after the edge differ by the positions that lost
/// their place.
proof fn lemma_count_split(g: GraphView, e: (usize, usize), n: int)
    requires
        0 <= n,
    ensures
        with_edges(g, g.edges).components_upto(n) == with_edges(g, g.edges.push(e)).components_upto(n)
            + lost_upto(g, e, n),
    decreases n,
{
    if n > 0 {
        lemma_count_split(g, e, n - 1);
        if with_edges(g, g.edges.push(e)).first_of_component(n - 1) {
            lemma_first_shrinks(g, e, n - 1);
        }
    }
}

/// Two positions cannot both lose their place to the same edge.
proof fn lemma_one_loser(g: GraphView, e: (usize, usize), i: int, j: int)
    requires
        0 <= i < j < g.vertices.len(),
    ensures
        !(loses_first(g, e, i) && loses_first(g, e, j)),
{
    if loses_first(g, e, i) && loses_first(g, e, j) {
        lemma_both_lose(g, e, i, j);
    }
}

/// Both losing leads to a contradiction: the later one was not first.
proof fn lemma_both_lose(g: GraphView, e: (usize, usize), i: int, j: int)
    requires
        0 <= i < j < g.vertices.len(),
        loses_first(g, e, i),
        loses_first(g, e, j),
    ensures
        !with_edges(g, g.edges).first_of_component(j),
{
    let edges = g.edges;
    let vi = g.vertices[i];
    let vj = g.vertices[j];
    let ki = choose|k: int| 0 <= k < i && connected(edges.push(e), g.vertices[k], vi);
    let kj = choose|k: int| 0 <= k < j && connected(edges.push(e), g.vertices[k], vj);
    let wi = g.vertices[ki];
    let wj = g.vertices[kj];
    lemma_connected_split(edges, e, wi, vi);
    lemma_connected_split(edges, e, wj, vj);
    assert(!connected(edges, wi, vi));
    assert(!connected(edges, wj, vj));
    // vi and wi sit on the two sides of e, and so do vj and wj: vj meets
    // either vi or the earlier wi without e.
    if connected(edges, wi, e.0) && connected(edges, e.1, vi) {
        if connected(edges, wj, e.0) && connected(edges, e.1, vj) {
            lemma_connected_symmetric(edges, e.1, vi);
            lemma_connected_trans(edges, vi, e.1, vj);
            assert(connected(edges, g.vertices[i], g.vertices[j]));
        } else {
            assert(connected(edges, e.0, vj));
            lemma_connected_trans(edges, wi, e.0, vj);
            assert(connected(edges, g.vertices[ki], g.vertices[j]));
        }
    } else {
        assert(connected(edges, wi, e.1) && connected(edges, e.0, vi));
        if connected(edges, wj, e.0) && connected(edges, e.1, vj) {
            lemma_connected_trans(edges, wi, e.1, vj);
            assert(connected(edges, g.vertices[ki], g.vertices[j]));
        } else {
            assert(connected(edges, e.0, vj));
            lemma_connected_symmetric(edges, e.0, vi);
            lemma_connected_trans(edges, vi, e.0, vj);
            assert(connected(edges, g.vertices[i], g.vertices[j]));
        }
    }
}

/// At most one position loses its place, and when one does, it is below `n`.
proof fn lemma_lost_at_most_one(g: GraphView, e: (usize, usize), n: int)
    requires
        0 <= n <= g.vertices.len(),
    ensures
        lost_upto(g, e, n) <= 1,
        lost_upto(g, e, n) == 1 ==> exists|i: int| 0 <= i < n && loses_first(g, e, i),
    decreases n,
{
    if n > 0 {
        lemma_lost_at_most_one(g, e, n - 1);
        if loses_first(g, e, n - 1) && lost_upto(g, e, n - 1) == 1 {
            let i = choose|i: int| 0 <= i < n - 1 && loses_first(g, e, i);
            lemma_one_loser(g, e, i, n - 1);
        }
    }
}

/// With distinct listed vertices and no edges, every position opens a
/// component.
proof fn lemma_count_no_edges(g: GraphView, n: int)
    requires
        g.edges.len() == 0,
        g.vertices.no_duplicates(),
        0 <= n <= g.vertices.len(),
    ensures
        g.components_upto(n) == n,
    decreases n,
{
    if n > 0 {
        lemma_count_no_edges(g, n - 1);
        assert forall|k: int| 0 <= k < n - 1 implies !connected(g.edges, #[trigger] g.vertices[k], g.vertices[n - 1]) by {
            if connected(g.edges, g.vertices[k], g.vertices[n - 1]) {
                lemma_connected_no_edges(g.edges, g.vertices[k], g.vertices[n - 1]);
            }
        }
    }
}

/// Components with the first `m` edges: at least `V − m`.
proof fn lemma_components_lower(g: GraphView, m: int)
    requires
        g.vertices.no_duplicates(),
        0 <= m <= g.edges.len(),
    ensures
        with_edges(g, g.edges.take(m)).component_count() + m >= g.vertices.len(),
    decreases m,
{
    let n = g.vertices.len() as int;
    if m == 0 {
        lemma_count_no_edges(with_edges(g, g.edges.take(0)), n);
    } else {
        lemma_components_lower(g, m - 1);
        let h = with_edges(g, g.edges.take(m - 1));
        let e = g.edges[m - 1];
        assert(g.edges.take(m) =~= g.edges.take(m - 1).push(e));
        assert(with_edges(h, h.edges) == h);
        lemma_count_split(h, e, n);
        lemma_lost_at_most_one(h, e, n);
        assert(with_edges(h, h.edges.push(e)) == with_edges(g, g.edges.take(m)));
    }
}

/// β₁ is never negative: when no agent is listed twice, the edges and the
/// components together are at least as many as the vertices (E + C ≥ V).
pub proof fn law_betti_nonnegative(g: GraphView)
    requires
        g.vertices.no_duplicates(),
    ensures
        g.edges.len() + g.component_count() >= g.vertices.len(),
{
    lemma_components_lower(g, g.edges.len() as int);
    assert(g.edges.take(g.edges.len() as int) =~= g.edges);
    assert(with_edges(g, g.edges) == g);
}


/// No position loses its place to an edge whose ends are already joined.
proof fn lemma_none_lose(g: GraphView, e: (usize, usize), n: int)
    requires
        connected(g.edges, e.0, e.1),
        0 <= n,
    ensures
        lost_upto(g, e, n) == 0,
    decreases n,
{
    if n > 0 {
        lemma_none_lose(g, e, n - 1);
        let i = n - 1;
        if loses_first(g, e, i) {
            let big = g.edges.push(e);
            let k = choose|k: int| 0 <= k < i && connected(big, g.vertices[k], g.vertices[i]);
            let x = g.vertices[k];
            let y = g.vertices[i];
            lemma_connected_split(g.edges, e, x, y);
            if connected(g.edges, x, e.0) && connected(g.edges, e.1, y) {
                lemma_connected_trans(g.edges, x, e.0, e.1);
                lemma_connected_trans(g.edges, x, e.1, y);
            } else if connected(g.edges, x, e.1) && connected(g.edges, e.0, y) {
                lemma_connected_symmetric(g.edges, e.0, e.1);
                lemma_connected_trans(g.edges, x, e.1, e.0);
                lemma_connected_trans(g.edges, x, e.0, y);
            }
            assert(connected(g.edges, g.vertices[k], g.vertices[i]));
            assert(with_edges(g, g.edges).first_of_component(i));
        }
    }
}

/// The first listed position below `n` whose vertex is joined to `x`.
proof fn lemma_first_joined(g: GraphView, x: usize, n: int) -> (p: int)
    requires
        0 <= n <= g.vertices.len(),
        exists|k: int| 0 <= k < n && connected(g.edges, g.vertices[k], x),
    ensures
        0 <= p < n,
        connected(g.edges, g.vertices[p], x),
        forall|k: int| 0 <= k < p ==> !connected(g.edges, g.vertices[k], x),
    decreases n,
{
    if exists|k: int| 0 <= k < n - 1 && connected(g.edges, g.vertices[k], x) {
        lemma_first_joined(g, x, n - 1)
    } else {
        let k = choose|k: int| 0 <= k < n && connected(g.edges, g.vertices[k], x);
        n - 1
    }
}

/// A position that loses its place counts among those below any greater
/// bound.
proof fn lemma_lost_includes(g: GraphView, e: (usize, usize), i: int, n: int)
    requires
        0 <= i < n,
        loses_first(g, e, i),
    ensures
        lost_upto(g, e, n) >= 1,
    decreases n,
{
    if n - 1 > i {
        lemma_lost_includes(g, e, i, n - 1);
    }
}

/// An edge whose ends are listed vertices that no walk yet joins makes
/// exactly one position lose its place.
proof fn lemma_one_loses(g: GraphView, e: (usize, usize))
    requires
        !connected(g.edges, e.0, e.1),
        g.vertices.contains(e.0),
        g.vertices.contains(e.1),
    ensures
        lost_upto(g, e, g.vertices.len() as int) == 1,
{
    let n = g.vertices.len() as int;
    let edges = g.edges;
    let i0 = choose|i: int| 0 <= i < n && g.vertices[i] == e.0;
    let i1 = choose|i: int| 0 <= i < n && g.vertices[i] == e.1;
    lemma_connected_refl(edges, e.0);
    lemma_connected_refl(edges, e.1);
    let p = lemma_first_joined(g, e.0, n);
    let q = lemma_first_joined(g, e.1, n);
    if p == q {
        lemma_connected_symmetric(edges, g.vertices[p], e.0);
        lemma_connected_trans(edges, e.0, g.vertices[p], e.1);
    }
    let (lo, hi, xlo, xhi) = if p < q {
        (p, q, e.0, e.1)
    } else {
        (q, p, e.1, e.0)
    };
    let vlo = g.vertices[lo];
    let vhi = g.vertices[hi];
    // `hi` was first: an earlier vertex joined to it would be joined to `xhi`.
    assert(with_edges(g, edges).first_of_component(hi)) by {
        assert forall|k: int| 0 <= k < hi implies !connected(edges, #[trigger] g.vertices[k], vhi) by {
            if connected(edges, g.vertices[k], vhi) {
                lemma_connected_trans(edges, g.vertices[k], vhi, xhi);
            }
        }
    }
    // With `e`, `vlo` reaches `vhi` through `xlo` and `xhi`.
    let big = edges.push(e);
    assert(connected(big, vlo, vhi)) by {
        lemma_connected_grow(edges, e, vlo, xlo);
        assert(linked(big, xlo, xhi)) by {
            assert(big[edges.len() as int] == e);
        }
        crate::connectivity::lemma_connected_extend(big, vlo, xlo, xhi);
        lemma_connected_symmetric(edges, vhi, xhi);
        lemma_connected_grow(edges, e, xhi, vhi);
        lemma_connected_trans(big, vlo, xhi, vhi);
    }
    let gb = with_edges(g, big);
    assert(lo < hi);
    assert(gb.vertices[lo] == vlo && gb.vertices[hi] == vhi && gb.edges == big);
    assert(connected(gb.edges, gb.vertices[lo], gb.vertices[hi]));
    assert(!gb.first_of_component(hi));
    assert(loses_first(g, e, hi));
    lemma_lost_includes(g, e, hi, n);
    lemma_lost_at_most_one(g, e, n);
}

/// Every node is a listed vertex, listed once.
pub open spec fn lists_every_node_once(g: GraphView) -> bool {
    &&& g.vertices.no_duplicates()
    &&& forall|x: usize| x < g.node_count() ==> g.vertices.contains(x)
}

/// With the first `m` edges, the edges that close a cycle and the vertices
/// together are as many as the edges and the components.
proof fn lemma_closing_count(g: GraphView, m: int)
    requires
        g.well_formed(),
        lists_every_node_once(g),
        0 <= m <= g.edges.len(),
    ensures
        closing_edges(g.edges, m).len() + g.vertices.len() == m + with_edges(g, g.edges.take(m)).component_count(),
    decreases m,
{
    let n = g.vertices.len() as int;
    if m == 0 {
        lemma_count_no_edges(with_edges(g, g.edges.take(0)), n);
    } else {
        lemma_closing_count(g, m - 1);
        let h = with_edges(g, g.edges.take(m - 1));
        let e = g.edges[m - 1];
        assert(g.edges.take(m) =~= g.edges.take(m - 1).push(e));
        assert(with_edges(h, h.edges) == h);
        assert(with_edges(h, h.edges.push(e)) == with_edges(g, g.edges.take(m)));
        lemma_count_split(h, e, n);
        if closes_cycle(g.edges, m - 1) {
            lemma_none_lose(h, e, n);
        } else {
            assert(e.0 < g.node_count() && e.1 < g.node_count());
            lemma_one_loses(h, e);
        }
    }
}

/// The cycle basis holds β₁ = E − V + C cycles when every node is a listed
/// vertex, listed once.
pub proof fn law_cycle_count(g: GraphView)
    requires
        g.well_formed(),
        lists_every_node_once(g),
    ensures
        cycle_count(g) + g.vertices.len() == g.edges.len() + g.component_count(),
{
    lemma_closing_count(g, g.edges.len() as int);
    assert(g.edges.take(g.edges.len() as int) =~= g.edges);
    assert(with_edges(g, g.edges) == g);
}

} // verus!

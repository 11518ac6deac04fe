//! Cycles of a fleet graph: a cycle basis, with one cycle for each edge
//! whose two ends the edges before it already join, and the edges that
//! those cycles make redundant.
use vstd::prelude::*;

use crate::connectivity::{
    closed_under_links, count_unset, ends_below, lemma_closed_walk, lemma_count_unset_set,
    lemma_linked_symmetric,
};
use crate::graph::{connected, is_walk, linked, SpreadGraph, GraphView};

verus! {

/// Edge `j` closes a cycle: the edges before it already join its two ends.
pub open spec fn closes_cycle(edges: Seq<(usize, usize)>, j: int) -> bool {
    connected(edges.take(j), edges[j].0, edges[j].1)
}

/// Positions below `m` of the edges that close a cycle, in increasing order.
pub open spec fn closing_edges(edges: Seq<(usize, usize)>, m: int) -> Seq<int>
    decreases m,
{
    if m <= 0 {
        Seq::empty()
    } else if closes_cycle(edges, m - 1) {
        closing_edges(edges, m - 1).push(m - 1)
    } else {
        closing_edges(edges, m - 1)
    }
}

/// The number of cycles in a cycle basis of the graph: one per edge that
/// closes a cycle.
pub open spec fn cycle_count(g: GraphView) -> nat {
    closing_edges(g.edges, g.edges.len() as int).len()
}

/// `c` is a cycle that edge `j` closes: a walk over the edges before `j`
/// from the edge's second end to its first, which the edge itself closes.
pub open spec fn cycle_through(edges: Seq<(usize, usize)>, j: int, c: Seq<usize>) -> bool {
    &&& is_walk(edges.take(j), c)
    &&& c[0] == edges[j].1
    &&& c.last() == edges[j].0
}

/// `cs` is a cycle basis: one cycle for each edge that closes one, in the
/// order of the edges, each closed by its edge.
pub open spec fn is_cycle_basis(g: GraphView, cs: Seq<Seq<usize>>) -> bool {
    &&& cs.len() == cycle_count(g)
    &&& forall|k: int|
        0 <= k < cs.len() ==> cycle_through(
            g.edges,
            closing_edges(g.edges, g.edges.len() as int)[k],
            #[trigger] cs[k],
        )
}

/// `c` is a closed walk of nodes of the graph: each linked to the next, the
/// last linked back to the first.
pub open spec fn is_closed_walk(g: GraphView, c: Seq<usize>) -> bool {
    &&& c.len() >= 1
    &&& forall|t: int| 0 <= t < c.len() ==> #[trigger] c[t] < g.node_count()
    &&& forall|t: int| 0 <= t < c.len() - 1 ==> linked(g.edges, #[trigger] c[t], c[t + 1])
    &&& linked(g.edges, c.last(), c[0])
}

/// A link among the first `j` edges is a link.
proof fn lemma_linked_take(edges: Seq<(usize, usize)>, j: int, a: usize, b: usize)
    requires
        0 <= j <= edges.len(),
        linked(edges.take(j), a, b),
    ensures
        linked(edges, a, b),
{
    let t = edges.take(j);
    let q = choose|q: int| 0 <= q < t.len() && ((#[trigger] t[q]).0 == a && t[q].1 == b || t[q].0 == b && t[q].1 == a);
    assert(edges[q] == t[q]);
}

/// The cycle an edge closes is a closed walk.
pub proof fn lemma_cycle_closed(g: GraphView, j: int, c: Seq<usize>)
    requires
        g.well_formed(),
        0 <= j < g.edges.len(),
        cycle_through(g.edges, j, c),
    ensures
        is_closed_walk(g, c),
{
    let e = g.edges[j];
    let t = g.edges.take(j);
    assert(linked(g.edges, e.0, e.1)) by {
        assert(g.edges[j] == e);
    }
    assert forall|u: int| 0 <= u < c.len() - 1 implies linked(g.edges, #[trigger] c[u], c[u + 1]) by {
        assert(linked(t, c[u], c[u + 1]));
        lemma_linked_take(g.edges, j, c[u], c[u + 1]);
    }
    assert forall|u: int| 0 <= u < c.len() implies #[trigger] c[u] < g.node_count() by {
        if u < c.len() - 1 {
            assert(linked(g.edges, c[u], c[u + 1]));
            let q = choose|q: int|
                0 <= q < g.edges.len() && ((#[trigger] g.edges[q]).0 == c[u] && g.edges[q].1 == c[u + 1]
                    || g.edges[q].0 == c[u + 1] && g.edges[q].1 == c[u]);
        } else {
            assert(c[u] == e.0);
        }
    }
    lemma_linked_symmetric(g.edges, e.0, e.1);
}

/// The closing edges lie below the bound and increase.
pub proof fn lemma_closing_increasing(edges: Seq<(usize, usize)>, m: int)
    requires
        0 <= m,
    ensures
        forall|a: int, b: int|
            0 <= a < b < closing_edges(edges, m).len() ==> #[trigger] closing_edges(edges, m)[a]
                < #[trigger] closing_edges(edges, m)[b],
        forall|a: int| 0 <= a < closing_edges(edges, m).len() ==> 0 <= #[trigger] closing_edges(edges, m)[a] < m,
    decreases m,
{
    if m > 0 {
        lemma_closing_increasing(edges, m - 1);
        let p = closing_edges(edges, m - 1);
        if closes_cycle(edges, m - 1) {
            let q = p.push(m - 1);
            assert forall|a: int, b: int| 0 <= a < b < q.len() implies #[trigger] q[a] < #[trigger] q[b] by {
                if b == q.len() - 1 {
                    assert(q[a] == p[a]);
                } else {
                    assert(q[a] == p[a] && q[b] == p[b]);
                }
            }
            assert forall|a: int| 0 <= a < q.len() implies 0 <= #[trigger] q[a] < m by {
                if a < p.len() {
                    assert(q[a] == p[a]);
                }
            }
        }
    }
}

/// Two edges join the same two nodes, in either direction.
pub open spec fn same_pair(a: (usize, usize), b: (usize, usize)) -> bool {
    (a.0 == b.0 && a.1 == b.1) || (a.0 == b.1 && a.1 == b.0)
}

/// No edge is a loop and no two edges join the same two nodes.
pub open spec fn is_simple(edges: Seq<(usize, usize)>) -> bool {
    &&& forall|j: int| 0 <= j < edges.len() ==> (#[trigger] edges[j]).0 != edges[j].1
    &&& forall|i: int, j: int| 0 <= i < j < edges.len() ==> !same_pair(#[trigger] edges[i], #[trigger] edges[j])
}

/// The shape of the cycle that edge `j` closes in a simple graph: it runs
/// from the edge's second end to its first and has at least three nodes.
proof fn lemma_simple_cycle(edges: Seq<(usize, usize)>, j: int, c: Seq<usize>)
    requires
        is_simple(edges),
        0 <= j < edges.len(),
        cycle_through(edges, j, c),
    ensures
        c.len() >= 3,
        c[0] == edges[j].1,
        c.last() == edges[j].0,
{
    let e = edges[j];
    assert(e.0 != e.1);
    assert(c.len() >= 2);
    if c.len() == 2 {
        let t = edges.take(j);
        assert(linked(t, c[0], c[1]));
        let q = choose|q: int| 0 <= q < t.len() && ((#[trigger] t[q]).0 == c[0] && t[q].1 == c[1] || t[q].0 == c[1] && t[q].1 == c[0]);
        assert(t[q] == edges[q]);
        assert(same_pair(edges[q], edges[j]));
    }
}

/// In a graph without loops or repeated links, every cycle of a cycle
/// basis has at least three nodes, and no two of them are the same.
pub proof fn law_basis_simple(g: GraphView, cs: Seq<Seq<usize>>)
    requires
        is_cycle_basis(g, cs),
        is_simple(g.edges),
    ensures
        forall|k: int| 0 <= k < cs.len() ==> (#[trigger] cs[k]).len() >= 3,
        forall|a: int, b: int| 0 <= a < b < cs.len() ==> #[trigger] cs[a] != #[trigger] cs[b],
{
    let m = g.edges.len() as int;
    let ce = closing_edges(g.edges, m);
    lemma_closing_increasing(g.edges, m);
    assert forall|k: int| 0 <= k < cs.len() implies (#[trigger] cs[k]).len() >= 3 by {
        assert(0 <= ce[k] < m);
        lemma_simple_cycle(g.edges, ce[k], cs[k]);
    }
    assert forall|a: int, b: int| 0 <= a < b < cs.len() implies #[trigger] cs[a] != #[trigger] cs[b] by {
        assert(ce[a] < ce[b]);
        assert(0 <= ce[a] && ce[b] < m);
        lemma_simple_cycle(g.edges, ce[a], cs[a]);
        lemma_simple_cycle(g.edges, ce[b], cs[b]);
        if cs[a] == cs[b] {
            assert(same_pair(g.edges[ce[a]], g.edges[ce[b]]));
        }
    }
}

/// With no flag set, every flag counts as unset.
proof fn lemma_unset_all(vis: Seq<bool>)
    requires
        forall|x: int| 0 <= x < vis.len() ==> !vis[x],
    ensures
        count_unset(vis) == vis.len(),
    decreases vis.len(),
{
    if vis.len() > 0 {
        lemma_unset_all(vis.drop_last());
    }
}

/// The state of spreading marks: the marks, each marked node's parent,
/// each marked node's number in marking order, and how many are marked.
pub type Spread = (Seq<bool>, Seq<usize>, Seq<usize>, nat);

/// Marks spread across the link `a`–`b`: when exactly one end is marked,
/// the other is marked next, with that end as its parent.
pub open spec fn spread_edge(st: Spread, a: usize, b: usize) -> Spread {
    if st.0[a as int] && !st.0[b as int] {
        (st.0.update(b as int, true), st.1.update(b as int, a), st.2.update(b as int, st.3 as usize), st.3 + 1)
    } else if st.0[b as int] && !st.0[a as int] {
        (st.0.update(a as int, true), st.1.update(a as int, b), st.2.update(a as int, st.3 as usize), st.3 + 1)
    } else {
        st
    }
}

/// One pass of spreading over the first `k` edges, in order.
pub open spec fn spread_pass(edges: Seq<(usize, usize)>, k: int, st: Spread) -> Spread
    decreases k,
{
    if k <= 0 {
        st
    } else {
        let p = spread_pass(edges, k - 1, st);
        spread_edge(p, edges[k - 1].0, edges[k - 1].1)
    }
}

/// Passes over all the edges until one marks nothing more (at most `n`
/// nodes are marked).
pub open spec fn spread_all(edges: Seq<(usize, usize)>, st: Spread, n: nat) -> Spread
    decreases n - st.3,
{
    let nx = spread_pass(edges, edges.len() as int, st);
    if st.3 < nx.3 && nx.3 <= n {
        spread_all(edges, nx, n)
    } else {
        nx
    }
}

/// Before spreading from `start` among `n` nodes: only `start` is marked.
pub open spec fn spread_init(n: nat, start: usize) -> Spread {
    (Seq::new(n, |i: int| false).update(start as int, true), Seq::new(n, |i: int| 0usize), Seq::new(n, |i: int| 0usize), 1)
}

/// The nodes from `cur` back to `start`, following parents.
pub open spec fn trace(parent: Seq<usize>, order: Seq<usize>, start: usize, cur: usize) -> Seq<usize>
    decreases order[cur as int],
{
    if cur == start || cur >= order.len() || parent[cur as int] >= order.len() || order[parent[cur as int] as int]
        >= order[cur as int] {
        seq![cur]
    } else {
        seq![cur] + trace(parent, order, start, parent[cur as int])
    }
}

/// The walk the search finds over `edges` among `n` nodes from `target`
/// back to `start`: marks spread from `start`, then parents followed from
/// `target`; none when `target` is left unmarked.
pub open spec fn walk_found(edges: Seq<(usize, usize)>, n: nat, start: usize, target: usize) -> Option<Seq<usize>> {
    let st = spread_all(edges, spread_init(n, start), n);
    if st.0[target as int] {
        Some(trace(st.1, st.2, start, target))
    } else {
        None
    }
}

/// The cycles the search builds from the first `m` edges: for each edge,
/// the walk found over the edges before it from its second end back to its
/// first, when there is one.
pub open spec fn built_cycles(g: GraphView, m: int) -> Seq<Seq<usize>>
    decreases m,
{
    if m <= 0 {
        Seq::empty()
    } else {
        let p = built_cycles(g, m - 1);
        let e = g.edges[m - 1];
        match walk_found(g.edges.take(m - 1), g.node_count(), e.0, e.1) {
            Some(w) => p.push(w),
            None => p,
        }
    }
}

/// The cycle basis the search builds.
pub open spec fn built_basis(g: GraphView) -> Seq<Seq<usize>> {
    built_cycles(g, g.edges.len() as int)
}

/// The marks spread from `start` so far: `count` nodes are marked, each
/// numbered below `count`, and each but `start` reached from a marked node
/// numbered lower over a link.
pub open spec fn spread_ok(
    edges: Seq<(usize, usize)>,
    start: usize,
    seen: Seq<bool>,
    parent: Seq<usize>,
    order: Seq<usize>,
    count: nat,
) -> bool {
    &&& parent.len() == seen.len()
    &&& order.len() == seen.len()
    &&& start < seen.len()
    &&& seen[start as int]
    &&& order[start as int] == 0
    &&& 1 <= count <= seen.len()
    &&& count + count_unset(seen) == seen.len()
    &&& forall|v: int|
        0 <= v < seen.len() && #[trigger] seen[v] ==> order[v] < count && (v == start || (parent[v]
            < seen.len() && seen[parent[v] as int] && linked(edges, parent[v], v as usize) && order[parent[v] as int]
            < order[v]))
}

/// Spreads the marks across the link `a`–`b`: after it both ends are
/// marked or neither; the count grows exactly when a mark is added.
fn spread_step(
    seen: &mut Vec<bool>,
    parent: &mut Vec<usize>,
    order: &mut Vec<usize>,
    count: &mut usize,
    a: usize,
    b: usize,
    Ghost(edges): Ghost<Seq<(usize, usize)>>,
    Ghost(start): Ghost<usize>,
)
    requires
        spread_ok(edges, start, old(seen)@, old(parent)@, old(order)@, *old(count) as nat),
        a < old(seen)@.len(),
        b < old(seen)@.len(),
        linked(edges, a, b),
    ensures
        spread_ok(edges, start, final(seen)@, final(parent)@, final(order)@, *final(count) as nat),
        final(seen)@.len() == old(seen)@.len(),
        final(seen)@[a as int] == final(seen)@[b as int],
        *final(count) >= *old(count),
        *final(count) == *old(count) ==> final(seen)@ == old(seen)@,
        (final(seen)@, final(parent)@, final(order)@, *final(count) as nat) == spread_edge(
            (old(seen)@, old(parent)@, old(order)@, *old(count) as nat),
            a,
            b,
        ),
{
    let ghost n = seen@.len();
    if seen[a] && !seen[b] {
        proof {
            lemma_count_unset_set(seen@, b as int);
        }
        let c = *count;
        let len = seen.len();
        assert(c < len);
        let c1 = c + 1;
        seen.set(b, true);
        parent.set(b, a);
        order.set(b, c);
        *count = c1;
        assert(spread_ok(edges, start, seen@, parent@, order@, *count as nat)) by {
            assert forall|v: int| 0 <= v < seen@.len() && #[trigger] seen@[v] implies order@[v] < *count && (v
                == start || (parent@[v] < seen@.len() && seen@[parent@[v] as int] && linked(
                edges,
                parent@[v],
                v as usize,
            ) && order@[parent@[v] as int] < order@[v])) by {
                if v != b {
                    assert(old(seen)@[v]);
                }
            }
        }
    } else if seen[b] && !seen[a] {
        proof {
            lemma_count_unset_set(seen@, a as int);
            lemma_linked_symmetric(edges, a, b);
        }
        let c = *count;
        let len = seen.len();
        assert(c < len);
        let c1 = c + 1;
        seen.set(a, true);
        parent.set(a, b);
        order.set(a, c);
        *count = c1;
        assert(spread_ok(edges, start, seen@, parent@, order@, *count as nat)) by {
            assert forall|v: int| 0 <= v < seen@.len() && #[trigger] seen@[v] implies order@[v] < *count && (v
                == start || (parent@[v] < seen@.len() && seen@[parent@[v] as int] && linked(
                edges,
                parent@[v],
                v as usize,
            ) && order@[parent@[v] as int] < order@[v])) by {
                if v != a {
                    assert(old(seen)@[v]);
                }
            }
        }
    }
}

impl SpreadGraph {
    /// A walk over the first `j` edges from `target` back to `start`, found
    /// by spreading marks from `start` along those edges; none exactly when
    /// those edges do not join the two.
    fn walk_between(&self, j: usize, start: usize, target: usize) -> (r: Option<Vec<usize>>)
        requires
            self.wf(),
            j <= self@.edges.len(),
            start < self@.node_count(),
            target < self@.node_count(),
        ensures
            r matches Some(w) ==> {
                &&& is_walk(self@.edges.take(j as int), w@)
                &&& w@[0] == target
                &&& w@.last() == start
                &&& forall|t: int| 0 <= t < w@.len() ==> #[trigger] w@[t] < self@.node_count()
            },
            r is None ==> !connected(self@.edges.take(j as int), start, target),
            r is Some <==> walk_found(self@.edges.take(j as int), self@.node_count(), start, target) is Some,
            r matches Some(w) ==> walk_found(self@.edges.take(j as int), self@.node_count(), start, target)
                == Some(w@),
    {
        proof {
            self.lemma_wf();
        }
        let ghost edges = self@.edges.take(j as int);
        let n = self.names.len();
        let mut seen: Vec<bool> = Vec::new();
        let mut parent: Vec<usize> = Vec::new();
        let mut order: Vec<usize> = Vec::new();
        let mut t: usize = 0;
        while t < n
            invariant
                t <= n,
                seen@.len() == t,
                parent@.len() == t,
                order@.len() == t,
                forall|x: int| 0 <= x < t ==> !seen@[x],
                forall|x: int| 0 <= x < t ==> order@[x] == 0,
                seen@ == Seq::new(t as nat, |i: int| false),
                parent@ == Seq::new(t as nat, |i: int| 0usize),
                order@ == Seq::new(t as nat, |i: int| 0usize),
            decreases n - t,
        {
            seen.push(false);
            parent.push(0);
            order.push(0);
            assert(seen@ =~= Seq::new((t + 1) as nat, |i: int| false));
            assert(parent@ =~= Seq::new((t + 1) as nat, |i: int| 0usize));
            assert(order@ =~= Seq::new((t + 1) as nat, |i: int| 0usize));
            t = t + 1;
        }
        proof {
            lemma_unset_all(seen@);
            lemma_count_unset_set(seen@, start as int);
        }
        seen.set(start, true);
        let mut count: usize = 1;
        let ghost fin = spread_all(edges, spread_init(n as nat, start), n as nat);
        assert((seen@, parent@, order@, count as nat) == spread_init(n as nat, start));
        proof {
            assert forall|x: int| 0 <= x < j implies (#[trigger] edges[x]).0 < n && edges[x].1 < n by {
                assert(edges[x] == self@.edges[x]);
            }
        }
        loop
            invariant_except_break
                spread_all(edges, (seen@, parent@, order@, count as nat), n as nat) == fin,
            invariant
                self.wf(),
                n == self@.node_count(),
                n == self.names@.len(),
                j <= self@.edges.len(),
                edges == self@.edges.take(j as int),
                self@.edges == self.edge_nodes@,
                ends_below(edges, n as nat),
                seen@.len() == n,
                spread_ok(edges, start, seen@, parent@, order@, count as nat),
            ensures
                spread_ok(edges, start, seen@, parent@, order@, count as nat),
                (seen@, parent@, order@, count as nat) == fin,
                forall|q: int| 0 <= q < j ==> seen@[(#[trigger] edges[q]).0 as int] == seen@[edges[q].1 as int],
            decreases count_unset(seen@),
        {
            let ghost s0 = seen@;
            let ghost p0 = parent@;
            let ghost o0 = order@;
            let c0 = count;
            let mut k: usize = 0;
            while k < j
                invariant
                    self.wf(),
                    n == self.names@.len(),
                    j <= self@.edges.len(),
                    j <= self.edge_nodes@.len(),
                    edges == self@.edges.take(j as int),
                    self@.edges == self.edge_nodes@,
                    ends_below(edges, n as nat),
                    seen@.len() == n,
                    s0.len() == n,
                    spread_ok(edges, start, seen@, parent@, order@, count as nat),
                    c0 + count_unset(s0) == n,
                    count >= c0,
                    k <= j,
                    count == c0 ==> seen@ == s0,
                    count == c0 ==> forall|q: int|
                        0 <= q < k ==> seen@[(#[trigger] edges[q]).0 as int] == seen@[edges[q].1 as int],
                    edges.len() == j,
                    (seen@, parent@, order@, count as nat) == spread_pass(edges, k as int, (s0, p0, o0, c0 as nat)),
                decreases j - k,
            {
                let (a, b) = self.edge_nodes[k];
                assert(edges[k as int] == (a, b));
                assert(linked(edges, a, b));
                spread_step(&mut seen, &mut parent, &mut order, &mut count, a, b, Ghost(edges), Ghost(start));
                k = k + 1;
            }
            assert(edges.len() == j);
            if count == c0 {
                assert(spread_all(edges, (s0, p0, o0, c0 as nat), n as nat) == spread_pass(
                    edges,
                    edges.len() as int,
                    (s0, p0, o0, c0 as nat),
                ));
                break;
            }
        }
        proof {
            assert(closed_under_links(edges, seen@)) by {
                assert forall|x: usize, y: usize|
                    #![trigger seen@[x as int], linked(edges, x, y)]
                    x < seen@.len() && y < seen@.len() && seen@[x as int] && linked(edges, x, y) implies seen@[y as int] by {
                    let q = choose|q: int|
                        0 <= q < edges.len() && ((#[trigger] edges[q]).0 == x && edges[q].1 == y || edges[q].0 == y
                            && edges[q].1 == x);
                }
            }
        }
        if !seen[target] {
            proof {
                if connected(edges, start, target) {
                    let w = choose|w: Seq<usize>| #[trigger] is_walk(edges, w) && w[0] == start && w.last() == target;
                    lemma_closed_walk(edges, seen@, w);
                }
            }
            return None;
        }
        let mut path: Vec<usize> = Vec::new();
        path.push(target);
        assert(path@ =~= seq![target]);
        assert(path@.drop_last() + trace(parent@, order@, start, target) =~= trace(parent@, order@, start, target));
        let mut cur = target;
        while cur != start
            invariant
                n == seen@.len(),
                parent@.len() == n,
                order@.len() == n,
                cur < n,
                seen@[cur as int],
                forall|v: int|
                    0 <= v < n && #[trigger] seen@[v] ==> (v == start || (parent@[v] < n && seen@[parent@[v] as int]
                        && linked(edges, parent@[v], v as usize) && order@[parent@[v] as int] < order@[v])),
                is_walk(edges, path@),
                path@[0] == target,
                path@.last() == cur,
                forall|t: int| 0 <= t < path@.len() ==> #[trigger] path@[t] < n,
                path@.drop_last() + trace(parent@, order@, start, cur) == trace(parent@, order@, start, target),
            decreases order@[cur as int],
        {
            let p = parent[cur];
            proof {
                lemma_linked_symmetric(edges, p, cur);
            }
            let ghost old_path = path@;
            path.push(p);
            assert forall|i: int| 0 <= i < path@.len() - 1 implies linked(edges, #[trigger] path@[i], path@[i + 1]) by {
                if i < old_path.len() - 1 {
                    assert(path@[i] == old_path[i] && path@[i + 1] == old_path[i + 1]);
                } else {
                    assert(path@[i] == cur && path@[i + 1] == p);
                }
            }
            proof {
                let tr = trace(parent@, order@, start, cur);
                assert(tr == seq![cur] + trace(parent@, order@, start, p));
                assert(path@.drop_last() =~= old_path);
                assert(old_path =~= old_path.drop_last().push(cur));
                assert(path@.drop_last() + trace(parent@, order@, start, p) =~= old_path.drop_last() + tr);
            }
            cur = p;
        }
        proof {
            assert(trace(parent@, order@, start, start) == seq![start]);
            assert(path@ =~= path@.drop_last() + seq![start]);
        }
        Some(path)
    }

    /// The cycle basis by node positions: for each edge, in order, whose
    /// ends the edges before it already join, the cycle it closes.
    pub fn cycle_indices(&self) -> (cycles: Vec<Vec<usize>>)
        requires
            self.wf(),
        ensures
            cycles@.map_values(|c: Vec<usize>| c@) == built_basis(self@),
            is_cycle_basis(self@, built_basis(self@)),
            forall|k: int| 0 <= k < cycles@.len() ==> is_closed_walk(self@, (#[trigger] cycles@[k])@),
    {
        proof {
            self.lemma_wf();
        }
        let ghost g = self@;
        let m = self.edge_nodes.len();
        let mut cycles: Vec<Vec<usize>> = Vec::new();
        let mut j: usize = 0;
        while j < m
            invariant
                self.wf(),
                g == self@,
                g.well_formed(),
                g.edges == self.edge_nodes@,
                m == g.edges.len(),
                j <= m,
                cycles@.len() == closing_edges(g.edges, j as int).len(),
                forall|k: int|
                    0 <= k < cycles@.len() ==> cycle_through(
                        g.edges,
                        closing_edges(g.edges, j as int)[k],
                        #[trigger] cycles@[k]@,
                    ),
                forall|k: int| 0 <= k < cycles@.len() ==> is_closed_walk(g, (#[trigger] cycles@[k])@),
                cycles@.map_values(|c: Vec<usize>| c@) == built_cycles(g, j as int),
            decreases m - j,
        {
            let (a, b) = self.edge_nodes[j];
            assert(g.edges[j as int] == (a, b));
            match self.walk_between(j, a, b) {
                Some(c) => {
                    proof {
                        assert(connected(g.edges.take(j as int), a, b)) by {
                            crate::connectivity::lemma_connected_symmetric(g.edges.take(j as int), b, a);
                        }
                        assert(cycle_through(g.edges, j as int, c@));
                        lemma_cycle_closed(g, j as int, c@);
                    }
                    let ghost before = cycles@;
                    let ghost cv = c@;
                    cycles.push(c);
                    assert(cycles@.map_values(|c: Vec<usize>| c@) =~= before.map_values(|c: Vec<usize>| c@).push(cv));
                    proof {
                        assert(closing_edges(g.edges, j as int + 1) == closing_edges(g.edges, j as int).push(
                            j as int,
                        ));
                        assert forall|k: int| 0 <= k < cycles@.len() implies cycle_through(
                            g.edges,
                            closing_edges(g.edges, j as int + 1)[k],
                            #[trigger] cycles@[k]@,
                        ) by {
                            if k < before.len() {
                                assert(cycles@[k] == before[k]);
                            }
                        }
                    }
                },
                None => {
                    assert(!closes_cycle(g.edges, j as int));
                    assert(closing_edges(g.edges, j as int + 1) == closing_edges(g.edges, j as int));
                },
            }
            j = j + 1;
        }
        proof {
            let cs = cycles@.map_values(|c: Vec<usize>| c@);
            assert forall|k: int| 0 <= k < cs.len() implies cycle_through(
                g.edges,
                closing_edges(g.edges, g.edges.len() as int)[k],
                #[trigger] cs[k],
            ) by {
                assert(cs[k] == cycles@[k]@);
            }
        }
        cycles
    }
}

/// "{a}->{b}".
pub open spec fn arrow(a: Seq<char>, b: Seq<char>) -> Seq<char> {
    a + "->"@ + b
}

/// `x` labels the step from `c[u]` to `c[u + 1]`, in one direction or the
/// other.
pub open spec fn step_labelled(g: GraphView, c: Seq<usize>, u: int, x: Seq<char>) -> bool {
    x == arrow(g.names[c[u] as int], g.names[c[u + 1] as int]) || x == arrow(
        g.names[c[u + 1] as int],
        g.names[c[u] as int],
    )
}

/// `x` labels some step `c[u]`–`c[u + 1]` with `u < upto` (the closing step
/// from the last node back to the first is not among them).
pub open spec fn labels_cycle_step(g: GraphView, c: Seq<usize>, upto: int, x: Seq<char>) -> bool {
    exists|u: int| 0 <= u < upto && u < c.len() - 1 && #[trigger] step_labelled(g, c, u, x)
}

/// `x` labels a step of one of the cycles.
pub open spec fn is_redundant_label(g: GraphView, cycles: Seq<Seq<usize>>, x: Seq<char>) -> bool {
    exists|k: int| 0 <= k < cycles.len() && labels_cycle_step(g, #[trigger] cycles[k], cycles[k].len() - 1, x)
}

proof fn lemma_redundant_take(g: GraphView, cs: Seq<Seq<usize>>, k: int, x: Seq<char>)
    requires
        0 <= k < cs.len(),
    ensures
        is_redundant_label(g, cs.take(k + 1), x) <==> (is_redundant_label(g, cs.take(k), x)
            || labels_cycle_step(g, cs[k], cs[k].len() - 1, x)),
{
    let a = cs.take(k + 1);
    let b = cs.take(k);
    if is_redundant_label(g, a, x) {
        let k2 = choose|k2: int| 0 <= k2 < a.len() && labels_cycle_step(g, #[trigger] a[k2], a[k2].len() - 1, x);
        if k2 < k {
            assert(b[k2] == a[k2]);
        } else {
            assert(a[k2] == cs[k]);
        }
    }
    if is_redundant_label(g, b, x) {
        let k2 = choose|k2: int| 0 <= k2 < b.len() && labels_cycle_step(g, #[trigger] b[k2], b[k2].len() - 1, x);
        assert(a[k2] == b[k2]);
    }
    if labels_cycle_step(g, cs[k], cs[k].len() - 1, x) {
        assert(a[k] == cs[k]);
    }
}

/// The views of a list of strings hold no repeats.
pub open spec fn distinct_texts(v: Seq<String>) -> bool {
    forall|a: int, b: int| 0 <= a < b < v.len() ==> v[a]@ != v[b]@
}

/// Some string of the list reads `s`.
pub open spec fn has_text(v: Seq<String>, s: Seq<char>) -> bool {
    exists|a: int| 0 <= a < v.len() && (#[trigger] v[a])@ == s
}

/// `row` names, in order, the nodes of `c`.
pub open spec fn names_along(g: GraphView, row: Seq<String>, c: Seq<usize>) -> bool {
    &&& row.len() == c.len()
    &&& forall|t: int| 0 <= t < c.len() ==> (#[trigger] row[t])@ == g.names[c[t] as int]
}

/// Add `s` to `set` unless a string reading the same is there already.
pub fn insert_text(set: &mut Vec<String>, s: String)
    requires
        distinct_texts(old(set)@),
    ensures
        distinct_texts(final(set)@),
        forall|x: Seq<char>| has_text(final(set)@, x) <==> (has_text(old(set)@, x) || x == s@),
{
    let mut i: usize = 0;
    while i < set.len()
        invariant
            set@ == old(set)@,
            distinct_texts(set@),
            i <= set@.len(),
            forall|a: int| 0 <= a < i ==> (#[trigger] set@[a])@ != s@,
        decreases set@.len() - i,
    {
        if set[i] == s {
            assert forall|x: Seq<char>| has_text(set@, x) <==> (has_text(set@, x) || x == s@) by {
                if x == s@ {
                    assert(set@[i as int]@ == x);
                }
            }
            return;
        }
        i = i + 1;
    }
    let ghost before = set@;
    let ghost sv = s@;
    set.push(s);
    assert(set@ == before.push(set@[before.len() as int]));
    assert(set@[before.len() as int]@ == sv);
    assert forall|x: Seq<char>| has_text(set@, x) <==> (has_text(before, x) || x == sv) by {
        if has_text(set@, x) {
            let a = choose|a: int| 0 <= a < set@.len() && (#[trigger] set@[a])@ == x;
            if a < before.len() {
                assert(before[a] == set@[a]);
            }
        }
        if has_text(before, x) {
            let a = choose|a: int| 0 <= a < before.len() && (#[trigger] before[a])@ == x;
            assert(set@[a] == before[a]);
        }
        if x == sv {
            assert(set@[before.len() as int]@ == x);
        }
    }
    assert forall|a: int, b: int| 0 <= a < b < set@.len() implies set@[a]@ != set@[b]@ by {
        if b == before.len() {
            assert(set@[a] == before[a]);
        } else {
            assert(set@[a] == before[a] && set@[b] == before[b]);
        }
    }
}

impl SpreadGraph {
    /// "{name of a}->{name of b}".
    fn arrow_text(&self, a: usize, b: usize) -> (s: String)
        requires
            self.wf(),
            a < self@.node_count(),
            b < self@.node_count(),
        ensures
            s@ == arrow(self@.names[a as int], self@.names[b as int]),
    {
        let names = self.node_names();
        let mut s = names[a].clone();
        s.append("->");
        s.append(names[b].as_str());
        s
    }

    /// The labels "a->b" and "b->a" of every step `a`–`b` between
    /// consecutive nodes of the given cycles, each once.
    pub fn redundant_edges_of(&self, cycles: &Vec<Vec<usize>>) -> (r: Vec<String>)
        requires
            self.wf(),
            forall|k: int|
                0 <= k < cycles@.len() ==> forall|t: int|
                    0 <= t < (#[trigger] cycles@[k])@.len() ==> #[trigger] cycles@[k]@[t] < self@.node_count(),
        ensures
            distinct_texts(r@),
            forall|x: Seq<char>| has_text(r@, x) <==> is_redundant_label(
                self@,
                cycles@.map_values(|c: Vec<usize>| c@),
                x,
            ),
    {
        let ghost cv = cycles@.map_values(|c: Vec<usize>| c@);
        let mut r: Vec<String> = Vec::new();
        let mut k: usize = 0;
        assert forall|x: Seq<char>| has_text(r@, x) <==> is_redundant_label(self@, cv.take(0), x) by {}
        while k < cycles.len()
            invariant
                self.wf(),
                cv == cycles@.map_values(|c: Vec<usize>| c@),
                forall|k: int|
                    0 <= k < cycles@.len() ==> forall|t: int|
                        0 <= t < (#[trigger] cycles@[k])@.len() ==> #[trigger] cycles@[k]@[t] < self@.node_count(),
                k <= cycles@.len(),
                distinct_texts(r@),
                forall|x: Seq<char>| has_text(r@, x) <==> is_redundant_label(self@, cv.take(k as int), x),
            decreases cycles@.len() - k,
        {
            let c = &cycles[k];
            assert(cv[k as int] == c@);
            let ghost r_before = r@;
            let mut t: usize = 0;
            while t < c.len() && t + 1 < c.len()
                invariant
                    self.wf(),
                    forall|u: int| 0 <= u < c@.len() ==> #[trigger] c@[u] < self@.node_count(),
                    distinct_texts(r@),
                    t <= c@.len(),
                    forall|x: Seq<char>| has_text(r@, x) <==> (has_text(r_before, x) || labels_cycle_step(self@, c@, t as int, x)),
                decreases c@.len() - t,
            {
                assert(c@[t as int] < self@.node_count());
                assert(c@[t + 1] < self@.node_count());
                let fwd = self.arrow_text(c[t], c[t + 1]);
                let back = self.arrow_text(c[t + 1], c[t]);
                let ghost r0 = r@;
                assert(forall|x: Seq<char>| has_text(r0, x) <==> (has_text(r_before, x) || labels_cycle_step(self@, c@, t as int, x)));
                let ghost fv = fwd@;
                let ghost bv = back@;
                assert(step_labelled(self@, c@, t as int, fv));
                assert(step_labelled(self@, c@, t as int, bv));
                insert_text(&mut r, fwd);
                let ghost r1 = r@;
                insert_text(&mut r, back);
                proof {
                    assert forall|x: Seq<char>| has_text(r@, x) <==> (has_text(r_before, x) || labels_cycle_step(self@, c@, t + 1, x)) by {
                        assert(has_text(r0, x) <==> (has_text(r_before, x) || labels_cycle_step(self@, c@, t as int, x)));
                        assert(has_text(r@, x) <==> (has_text(r1, x) || x == bv));
                        assert(has_text(r1, x) <==> (has_text(r0, x) || x == fv));
                        if x == fv || x == bv {
                            assert(step_labelled(self@, c@, t as int, x));
                            assert(labels_cycle_step(self@, c@, t + 1, x));
                        }
                        if labels_cycle_step(self@, c@, t + 1, x) {
                            let u = choose|u: int| 0 <= u < t + 1 && u < c@.len() - 1 && #[trigger] step_labelled(self@, c@, u, x);
                            if u < t {
                                assert(labels_cycle_step(self@, c@, t as int, x));
                            } else {
                                assert(x == fv || x == bv);
                            }
                        }
                        if has_text(r0, x) && !has_text(r_before, x) {
                            assert(labels_cycle_step(self@, c@, t as int, x));
                        }
                        if labels_cycle_step(self@, c@, t as int, x) {
                            let u = choose|u: int| 0 <= u < t && u < c@.len() - 1 && #[trigger] step_labelled(self@, c@, u, x);
                            assert(0 <= u < t + 1);
                            assert(labels_cycle_step(self@, c@, t + 1, x));
                        }
                        assert(has_text(r0, x) ==> has_text(r_before, x) || labels_cycle_step(self@, c@, t + 1, x));
                        assert(x == fv ==> labels_cycle_step(self@, c@, t + 1, x));
                        assert(x == bv ==> labels_cycle_step(self@, c@, t + 1, x));
                        assert(has_text(r1, x) ==> has_text(r_before, x) || labels_cycle_step(self@, c@, t + 1, x));
                        assert(has_text(r@, x) ==> has_text(r_before, x) || labels_cycle_step(self@, c@, t + 1, x));
                        assert(has_text(r_before, x) || labels_cycle_step(self@, c@, t + 1, x) ==> has_text(r@, x));
                    }
                }
                t = t + 1;
            }
            proof {
                assert(cv[k as int] == c@);
                assert forall|x: Seq<char>| has_text(r@, x) <==> is_redundant_label(self@, cv.take(k + 1), x) by {
                    lemma_redundant_take(self@, cv, k as int, x);
                    assert(has_text(r_before, x) <==> is_redundant_label(self@, cv.take(k as int), x));
                    if labels_cycle_step(self@, c@, t as int, x) {
                        let u = choose|u: int| 0 <= u < t && u < c@.len() - 1 && #[trigger] step_labelled(self@, c@, u, x);
                        assert(labels_cycle_step(self@, c@, c@.len() - 1, x));
                    }
                    if labels_cycle_step(self@, c@, c@.len() - 1, x) {
                        let u = choose|u: int| 0 <= u < c@.len() - 1 && u < c@.len() - 1 && #[trigger] step_labelled(self@, c@, u, x);
                        assert(labels_cycle_step(self@, c@, t as int, x));
                    }
                }
            }
            k = k + 1;
        }
        assert(cv.take(cycles@.len() as int) =~= cv);
        r
    }

    /// Names along each cycle of the cycle basis.
    pub fn cycle_basis(&self) -> (cycles: Vec<Vec<String>>)
        requires
            self.wf(),
        ensures
            is_cycle_basis(self@, built_basis(self@)),
            cycles@.len() == built_basis(self@).len(),
            forall|k: int|
                0 <= k < cycles@.len() ==> names_along(self@, (#[trigger] cycles@[k])@, built_basis(self@)[k])
                    && is_closed_walk(self@, built_basis(self@)[k]),
    {
        let idx = self.cycle_indices();
        let ghost cs = idx@.map_values(|c: Vec<usize>| c@);
        let names = self.node_names();
        let mut out: Vec<Vec<String>> = Vec::new();
        let mut k: usize = 0;
        while k < idx.len()
            invariant
                self.wf(),
                names@.len() == self@.names.len(),
                forall|q: int| 0 <= q < names@.len() ==> (#[trigger] names@[q])@ == self@.names[q],
                forall|k: int| 0 <= k < idx@.len() ==> is_closed_walk(self@, (#[trigger] idx@[k])@),
                k <= idx@.len(),
                out@.len() == k,
                forall|j: int| 0 <= j < k ==> names_along(self@, (#[trigger] out@[j])@, idx@[j]@),
            decreases idx@.len() - k,
        {
            let c = &idx[k];
            assert(is_closed_walk(self@, c@));
            let mut row: Vec<String> = Vec::new();
            let mut t: usize = 0;
            while t < c.len()
                invariant
                    names@.len() == self@.names.len(),
                    forall|q: int| 0 <= q < names@.len() ==> (#[trigger] names@[q])@ == self@.names[q],
                    forall|u: int| 0 <= u < c@.len() ==> #[trigger] c@[u] < self@.node_count(),
                    t <= c@.len(),
                    row@.len() == t,
                    forall|u: int| 0 <= u < t ==> (#[trigger] row@[u])@ == self@.names[c@[u] as int],
                decreases c@.len() - t,
            {
                row.push(names[c[t]].clone());
                t = t + 1;
            }
            out.push(row);
            k = k + 1;
        }
        proof {
            assert forall|k: int| 0 <= k < cs.len() implies names_along(self@, (#[trigger] out@[k])@, cs[k])
                && is_closed_walk(self@, cs[k]) by {
                assert(cs[k] == idx@[k]@);
            }
        }
        out
    }

    /// Labels "a->b" and "b->a" of the steps along the cycles of the cycle
    /// basis (not the closing step), each once.
    pub fn redundant_edges(&self) -> (r: Vec<String>)
        requires
            self.wf(),
        ensures
            distinct_texts(r@),
            is_cycle_basis(self@, built_basis(self@)),
            forall|x: Seq<char>| has_text(r@, x) <==> is_redundant_label(self@, built_basis(self@), x),
    {
        let idx = self.cycle_indices();
        proof {
            assert forall|k: int| 0 <= k < idx@.len() implies forall|t: int|
                0 <= t < (#[trigger] idx@[k])@.len() ==> #[trigger] idx@[k]@[t] < self@.node_count() by {
                assert(is_closed_walk(self@, idx@[k]@));
            }
        }
        self.redundant_edges_of(&idx)
    }
}

} // verus!

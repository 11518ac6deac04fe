//! Connectivity of a fleet graph: walks, the exploration of one component,
//! and the partition of the listed vertices into connected components.
use vstd::prelude::*;

use crate::graph::{connected, is_walk, linked, nbrs, SpreadGraph, GraphView};

verus! {

/// Every edge end is below `n`.
pub open spec fn ends_below(edges: Seq<(usize, usize)>, n: nat) -> bool {
    forall|j: int| 0 <= j < edges.len() ==> (#[trigger] edges[j]).0 < n && edges[j].1 < n
}

/// A set of nodes (given by flags) that no edge leaves.
pub open spec fn closed_under_links(edges: Seq<(usize, usize)>, vis: Seq<bool>) -> bool {
    forall|x: usize, y: usize|
        #![trigger vis[x as int], linked(edges, x, y)]
        x < vis.len() && y < vis.len() && vis[x as int] && linked(edges, x, y) ==> vis[y as int]
}

/// The neighbour list of `u` holds exactly the nodes linked to `u`.
pub proof fn lemma_nbrs_contains(edges: Seq<(usize, usize)>, u: usize, v: usize)
    ensures
        nbrs(edges, u).contains(v) <==> linked(edges, u, v),
    decreases edges.len(),
{
    if edges.len() == 0 {
        assert(!nbrs(edges, u).contains(v));
    } else {
        let pre = edges.drop_last();
        let e = edges.last();
        lemma_nbrs_contains(pre, u, v);
        let prev = nbrs(pre, u);
        let with_to = if e.0 == u { prev.push(e.1) } else { prev };
        let all = if e.1 == u { with_to.push(e.0) } else { with_to };
        assert(all == nbrs(edges, u));
        assert(with_to.contains(v) <==> prev.contains(v) || (e.0 == u && e.1 == v)) by {
            if e.0 == u {
                if with_to.contains(v) {
                    let k = choose|k: int| 0 <= k < with_to.len() && with_to[k] == v;
                    if k < prev.len() {
                        assert(prev[k] == with_to[k]);
                    }
                }
                if prev.contains(v) {
                    let k = choose|k: int| 0 <= k < prev.len() && prev[k] == v;
                    assert(with_to[k] == prev[k]);
                }
                if e.1 == v {
                    assert(with_to[prev.len() as int] == v);
                }
            }
        }
        assert(all.contains(v) <==> with_to.contains(v) || (e.1 == u && e.0 == v)) by {
            if e.1 == u {
                if all.contains(v) {
                    let k = choose|k: int| 0 <= k < all.len() && all[k] == v;
                    if k < with_to.len() {
                        assert(with_to[k] == all[k]);
                    }
                }
                if with_to.contains(v) {
                    let k = choose|k: int| 0 <= k < with_to.len() && with_to[k] == v;
                    assert(all[k] == with_to[k]);
                }
                if e.0 == v {
                    assert(all[with_to.len() as int] == v);
                }
            }
        }
        if linked(edges, u, v) {
            let j = choose|j: int|
                0 <= j < edges.len() && ((#[trigger] edges[j]).0 == u && edges[j].1 == v
                    || edges[j].0 == v && edges[j].1 == u);
            if j < pre.len() {
                assert(pre[j] == edges[j]);
                assert(linked(pre, u, v));
            }
        }
        if linked(pre, u, v) {
            let j = choose|j: int|
                0 <= j < pre.len() && ((#[trigger] pre[j]).0 == u && pre[j].1 == v || pre[j].0
                    == v && pre[j].1 == u);
            assert(edges[j] == pre[j]);
        }
        if e.0 == u && e.1 == v || e.1 == u && e.0 == v {
            assert(edges[edges.len() - 1] == e);
        }
    }
}

/// Links go both ways.
pub proof fn lemma_linked_symmetric(edges: Seq<(usize, usize)>, a: usize, b: usize)
    requires
        linked(edges, a, b),
    ensures
        linked(edges, b, a),
{
    let j = choose|j: int|
        0 <= j < edges.len() && ((#[trigger] edges[j]).0 == a && edges[j].1 == b || edges[j].0
            == b && edges[j].1 == a);
    assert(edges[j] == edges[j]);
}

/// Both ends of a link are nodes.
pub proof fn lemma_linked_bounded(edges: Seq<(usize, usize)>, n: nat, a: usize, b: usize)
    requires
        linked(edges, a, b),
        ends_below(edges, n),
    ensures
        a < n,
        b < n,
{
    let j = choose|j: int|
        0 <= j < edges.len() && ((#[trigger] edges[j]).0 == a && edges[j].1 == b || edges[j].0
            == b && edges[j].1 == a);
    assert(edges[j] == edges[j]);
}

/// Every node reaches itself.
pub proof fn lemma_connected_refl(edges: Seq<(usize, usize)>, a: usize)
    ensures
        connected(edges, a, a),
{
    let w = seq![a];
    assert(is_walk(edges, w));
}

/// A walk to `x` followed by a link from `x` to `y` is a walk to `y`.
pub proof fn lemma_connected_extend(edges: Seq<(usize, usize)>, a: usize, x: usize, y: usize)
    requires
        connected(edges, a, x),
        linked(edges, x, y),
    ensures
        connected(edges, a, y),
{
    let w = choose|w: Seq<usize>| #[trigger] is_walk(edges, w) && w[0] == a && w.last() == x;
    let w2 = w.push(y);
    assert forall|i: int| 0 <= i < w2.len() - 1 implies linked(edges, #[trigger] w2[i], w2[i + 1]) by {
        if i < w.len() - 1 {
            assert(w2[i] == w[i] && w2[i + 1] == w[i + 1]);
        } else {
            assert(w2[i] == x && w2[i + 1] == y);
        }
    }
    assert(is_walk(edges, w2));
}

/// A walk that starts inside a set that no edge leaves stays inside it.
pub proof fn lemma_closed_walk(edges: Seq<(usize, usize)>, vis: Seq<bool>, w: Seq<usize>)
    requires
        closed_under_links(edges, vis),
        ends_below(edges, vis.len()),
        is_walk(edges, w),
        w[0] < vis.len(),
        vis[w[0] as int],
    ensures
        w.last() < vis.len(),
        vis[w.last() as int],
    decreases w.len(),
{
    if w.len() > 1 {
        let p = w.drop_last();
        assert forall|i: int| 0 <= i < p.len() - 1 implies linked(edges, #[trigger] p[i], p[i + 1]) by {
            assert(p[i] == w[i] && p[i + 1] == w[i + 1]);
        }
        lemma_closed_walk(edges, vis, p);
        let x = w[w.len() - 2];
        let y = w.last();
        assert(p.last() == x);
        assert(linked(edges, x, y));
        lemma_linked_bounded(edges, vis.len(), x, y);
        assert(vis[x as int] && linked(edges, x, y));
    }
}

/// A walk read backwards is a walk.
pub proof fn lemma_connected_symmetric(edges: Seq<(usize, usize)>, a: usize, b: usize)
    requires
        connected(edges, a, b),
    ensures
        connected(edges, b, a),
{
    let w = choose|w: Seq<usize>| #[trigger] is_walk(edges, w) && w[0] == a && w.last() == b;
    let r = w.reverse();
    assert forall|i: int| 0 <= i < r.len() - 1 implies linked(edges, #[trigger] r[i], r[i + 1]) by {
        let j = w.len() - 2 - i;
        assert(r[i] == w[j + 1] && r[i + 1] == w[j]);
        assert(linked(edges, w[j], w[j + 1]));
        lemma_linked_symmetric(edges, w[j], w[j + 1]);
    }
    assert(is_walk(edges, r));
    assert(r[0] == b && r.last() == a);
}

/// Two walks that meet make one.
pub proof fn lemma_connected_trans(edges: Seq<(usize, usize)>, a: usize, b: usize, c: usize)
    requires
        connected(edges, a, b),
        connected(edges, b, c),
    ensures
        connected(edges, a, c),
{
    let w1 = choose|w: Seq<usize>| #[trigger] is_walk(edges, w) && w[0] == a && w.last() == b;
    let w2 = choose|w: Seq<usize>| #[trigger] is_walk(edges, w) && w[0] == b && w.last() == c;
    let w = w1 + w2.drop_first();
    assert forall|i: int| 0 <= i < w.len() - 1 implies linked(edges, #[trigger] w[i], w[i + 1]) by {
        if i < w1.len() - 1 {
            assert(w[i] == w1[i] && w[i + 1] == w1[i + 1]);
        } else if i == w1.len() - 1 {
            assert(w[i] == b && w[i + 1] == w2[1]);
            assert(linked(edges, w2[0], w2[1]));
        } else {
            let t = i - w1.len() + 1;
            assert(w[i] == w2[t] && w[i + 1] == w2[t + 1]);
        }
    }
    assert(is_walk(edges, w));
    if w2.len() == 1 {
        assert(w.last() == w1.last());
    } else {
        assert(w.last() == w2.last());
    }
}

/// Some listed vertex before position `i` is connected to node `x`.
pub open spec fn covered(g: GraphView, i: int, x: usize) -> bool {
    exists|j: int| 0 <= j < i && #[trigger] connected(g.edges, g.vertices[j], x)
}

/// Among the first `i` listed vertices at most `i`, and at least one when
/// `i > 0`, open a component.
pub proof fn lemma_components_bounds(g: GraphView, i: int)
    requires
        0 <= i,
    ensures
        g.components_upto(i) <= i,
        i > 0 ==> g.components_upto(i) >= 1,
    decreases i,
{
    if i > 0 {
        lemma_components_bounds(g, i - 1);
        if i == 1 {
            assert(g.first_of_component(0));
        }
    }
}

/// `comps` lists the connected components that hold a listed vertex, one
/// per such component: each without repeats, opened by its first listed
/// vertex, and holding exactly the nodes connected to that vertex.
pub open spec fn is_component_listing(g: GraphView, comps: Seq<Seq<usize>>) -> bool {
    &&& comps.len() == g.component_count()
    &&& forall|k: int|
        0 <= k < comps.len() ==> (#[trigger] comps[k]).len() > 0 && comps[k].no_duplicates()
            && exists|i: int|
            0 <= i < g.vertices.len() && g.first_of_component(i) && comps[k][0] == g.vertices[i]
                && forall|x: usize|
                #[trigger] comps[k].contains(x) <==> (x < g.node_count() && connected(
                    g.edges,
                    g.vertices[i],
                    x,
                ))
}

/// Number of times `v` occurs in `s`.
pub open spec fn occurrences(s: Seq<usize>, v: usize) -> nat
    decreases s.len(),
{
    if s.len() == 0 {
        0
    } else {
        occurrences(s.drop_last(), v) + if s.last() == v {
            1nat
        } else {
            0nat
        }
    }
}

/// Sum of the degrees of the nodes of `s`.
pub open spec fn deg_sum(edges: Seq<(usize, usize)>, s: Seq<usize>) -> nat
    decreases s.len(),
{
    if s.len() == 0 {
        0
    } else {
        deg_sum(edges, s.drop_last()) + nbrs(edges, s.last()).len()
    }
}

/// Number of edges with both ends in `s`.
pub open spec fn edges_within(edges: Seq<(usize, usize)>, s: Seq<usize>) -> nat
    decreases edges.len(),
{
    if edges.len() == 0 {
        0
    } else {
        edges_within(edges.drop_last(), s) + if s.contains(edges.last().0) && s.contains(
            edges.last().1,
        ) {
            1nat
        } else {
            0nat
        }
    }
}

/// No edge has exactly one end in `s`.
pub open spec fn edge_closed(edges: Seq<(usize, usize)>, s: Seq<usize>) -> bool {
    forall|j: int| 0 <= j < edges.len() ==> (s.contains((#[trigger] edges[j]).0) <==> s.contains(edges[j].1))
}

/// A value occurs at most once in a sequence without repeats.
pub proof fn lemma_occurrences_no_dup(s: Seq<usize>, v: usize)
    requires
        s.no_duplicates(),
    ensures
        occurrences(s, v) == if s.contains(v) {
            1nat
        } else {
            0nat
        },
    decreases s.len(),
{
    if s.len() > 0 {
        let p = s.drop_last();
        assert(p.no_duplicates());
        lemma_occurrences_no_dup(p, v);
        if s.last() == v {
            if p.contains(v) {
                let k = choose|k: int| 0 <= k < p.len() && p[k] == v;
                assert(s[k] == s[s.len() - 1]);
            }
            assert(s[s.len() - 1] == v);
        } else {
            if s.contains(v) {
                let k = choose|k: int| 0 <= k < s.len() && s[k] == v;
                assert(p[k] == v);
            }
            if p.contains(v) {
                let k = choose|k: int| 0 <= k < p.len() && p[k] == v;
                assert(s[k] == v);
            }
        }
    }
}

/// One more edge adds one to the degree of each of its ends.
pub proof fn lemma_deg_sum_push_edge(edges: Seq<(usize, usize)>, e: (usize, usize), s: Seq<usize>)
    ensures
        deg_sum(edges.push(e), s) == deg_sum(edges, s) + occurrences(s, e.0) + occurrences(s, e.1),
    decreases s.len(),
{
    if s.len() > 0 {
        lemma_deg_sum_push_edge(edges, e, s.drop_last());
        assert(edges.push(e).drop_last() =~= edges);
    }
}

/// Handshake within a component: the degrees of a set without repeats that
/// no edge leaves add up to twice the edges inside it.
pub proof fn lemma_deg_sum_closed(edges: Seq<(usize, usize)>, s: Seq<usize>)
    requires
        s.no_duplicates(),
        edge_closed(edges, s),
    ensures
        deg_sum(edges, s) == 2 * edges_within(edges, s),
    decreases edges.len(),
{
    if edges.len() == 0 {
        lemma_deg_sum_empty(edges, s);
    } else {
        let p = edges.drop_last();
        let e = edges.last();
        assert forall|j: int| 0 <= j < p.len() implies (s.contains((#[trigger] p[j]).0)
            <==> s.contains(p[j].1)) by {
            assert(p[j] == edges[j]);
        }
        lemma_deg_sum_closed(p, s);
        assert(p.push(e) =~= edges);
        lemma_deg_sum_push_edge(p, e, s);
        lemma_occurrences_no_dup(s, e.0);
        lemma_occurrences_no_dup(s, e.1);
        assert(edges[edges.len() - 1] == e);
    }
}

/// Without edges every degree is zero.
proof fn lemma_deg_sum_empty(edges: Seq<(usize, usize)>, s: Seq<usize>)
    requires
        edges.len() == 0,
    ensures
        deg_sum(edges, s) == 0,
    decreases s.len(),
{
    if s.len() > 0 {
        lemma_deg_sum_empty(edges, s.drop_last());
    }
}

/// The degrees of a set without repeats add up to at most twice the edges.
pub proof fn lemma_deg_sum_bound(edges: Seq<(usize, usize)>, s: Seq<usize>)
    requires
        s.no_duplicates(),
    ensures
        deg_sum(edges, s) <= 2 * edges.len(),
    decreases edges.len(),
{
    if edges.len() == 0 {
        lemma_deg_sum_empty(edges, s);
    } else {
        let p = edges.drop_last();
        let e = edges.last();
        lemma_deg_sum_bound(p, s);
        assert(p.push(e) =~= edges);
        lemma_deg_sum_push_edge(p, e, s);
        lemma_occurrences_no_dup(s, e.0);
        lemma_occurrences_no_dup(s, e.1);
    }
}

/// A sequence without repeats of values below `n` has at most `n` members.
pub proof fn lemma_no_dup_len_bound(s: Seq<usize>, n: nat)
    requires
        s.no_duplicates(),
        forall|t: int| 0 <= t < s.len() ==> #[trigger] s[t] < n,
    ensures
        s.len() <= n,
{
    let st = s.to_set();
    s.unique_seq_to_set();
    let full = Set::new(|x: usize| x < n);
    assert(st.subset_of(full));
    lemma_nat_range_finite(n);
    vstd::set_lib::lemma_len_subset(st, full);
}

/// The set of values below `n` is finite and has `n` members.
proof fn lemma_nat_range_finite(n: nat)
    ensures
        Set::new(|x: usize| x < n).finite(),
        Set::new(|x: usize| x < n).len() <= n,
    decreases n,
{
    if n == 0 {
        assert(Set::new(|x: usize| x < n) =~= Set::<usize>::empty());
    } else {
        lemma_nat_range_finite((n - 1) as nat);
        let smaller = Set::new(|x: usize| x < n - 1);
        if n - 1 <= usize::MAX {
            assert(Set::new(|x: usize| x < n) =~= smaller.insert((n - 1) as usize));
        } else {
            assert(Set::new(|x: usize| x < n) =~= smaller);
        }
    }
}

/// Count of unset flags.
pub open spec fn count_unset(vis: Seq<bool>) -> nat
    decreases vis.len(),
{
    if vis.len() == 0 {
        0
    } else {
        count_unset(vis.drop_last()) + if vis.last() {
            0nat
        } else {
            1nat
        }
    }
}

/// Setting an unset flag lowers the count of unset flags by one.
pub proof fn lemma_count_unset_set(vis: Seq<bool>, x: int)
    requires
        0 <= x < vis.len(),
        !vis[x],
    ensures
        count_unset(vis.update(x, true)) + 1 == count_unset(vis),
    decreases vis.len(),
{
    let u = vis.update(x, true);
    if x == vis.len() - 1 {
        assert(u.drop_last() =~= vis.drop_last());
    } else {
        assert(u.drop_last() =~= vis.drop_last().update(x, true));
        lemma_count_unset_set(vis.drop_last(), x);
    }
}

/// The neighbours in `nb` not marked in `vis`, in order.
pub open spec fn unvisited(nb: Seq<usize>, vis: Seq<bool>) -> Seq<usize>
    decreases nb.len(),
{
    if nb.len() == 0 {
        nb
    } else if nb.last() < vis.len() && !vis[nb.last() as int] {
        unvisited(nb.drop_last(), vis).push(nb.last())
    } else {
        unvisited(nb.drop_last(), vis)
    }
}

/// A depth-first walk with the nodes `stack` pending (the top at the end)
/// and the nodes marked in `vis` already seen: the order in which it visits
/// nodes, and the marks at the end. It takes the top node; a seen node is
/// dropped; an unseen one is visited, marked, and its unseen neighbours are
/// pushed in list order.
pub open spec fn dfs(edges: Seq<(usize, usize)>, stack: Seq<usize>, vis: Seq<bool>) -> (Seq<usize>, Seq<bool>)
    decreases count_unset(vis), stack.len(),
{
    if stack.len() == 0 {
        (Seq::empty(), vis)
    } else {
        let cur = stack.last();
        let rest = stack.drop_last();
        if cur >= vis.len() || vis[cur as int] {
            dfs(edges, rest, vis)
        } else {
            let seen = vis.update(cur as int, true);
            proof {
                lemma_count_unset_set(vis, cur as int);
            }
            let next = dfs(edges, rest + unvisited(nbrs(edges, cur), seen), seen);
            (seq![cur] + next.0, next.1)
        }
    }
}

impl SpreadGraph {
    /// Mark every node reachable from `start` and list the newly marked
    /// nodes in the order a depth-first walk from `start` visits them.
    pub(crate) fn explore(&self, start: usize, visited: &mut Vec<bool>) -> (comp: Vec<usize>)
        requires
            self.wf(),
            start < self@.node_count(),
            old(visited)@.len() == self@.node_count(),
            !old(visited)@[start as int],
            closed_under_links(self@.edges, old(visited)@),
        ensures
            final(visited)@.len() == self@.node_count(),
            forall|x: int|
                0 <= x < self@.node_count() ==> (#[trigger] final(visited)@[x] <==> (old(
                    visited,
                )@[x] || connected(self@.edges, start, x as usize))),
            closed_under_links(self@.edges, final(visited)@),
            comp@.len() > 0,
            comp@[0] == start,
            comp@.no_duplicates(),
            forall|x: usize|
                #[trigger] comp@.contains(x) <==> (x < self@.node_count() && !old(
                    visited,
                )@[x as int] && final(visited)@[x as int]),
            (comp@, final(visited)@) == dfs(self@.edges, seq![start], old(visited)@),
    {
        proof {
            self.lemma_wf();
        }
        let ghost n = self@.node_count();
        let ghost edges = self@.edges;
        let ghost old_vis = visited@;
        let mut stack: Vec<usize> = Vec::new();
        stack.push(start);
        let mut comp: Vec<usize> = Vec::new();
        proof {
            lemma_connected_refl(edges, start);
            assert(stack@[0] == start);
            assert(stack@ =~= seq![start]);
            assert(comp@ + dfs(edges, stack@, visited@).0 =~= dfs(edges, stack@, visited@).0);
        }
        while stack.len() > 0
            invariant
                old_vis == old(visited)@,
                dfs(edges, seq![start], old_vis) == (comp@ + dfs(edges, stack@, visited@).0, dfs(
                    edges,
                    stack@,
                    visited@,
                ).1),
                self.wf(),
                n == self@.node_count(),
                edges == self@.edges,
                ends_below(edges, n),
                n < usize::MAX,
                start < n,
                !old_vis[start as int],
                closed_under_links(edges, old_vis),
                old_vis.len() == n,
                visited@.len() == n,
                forall|x: int| 0 <= x < n && #[trigger] old_vis[x] ==> visited@[x],
                forall|x: int|
                    0 <= x < n && #[trigger] visited@[x] && !old_vis[x] ==> connected(
                        edges,
                        start,
                        x as usize,
                    ),
                forall|i: int|
                    0 <= i < stack@.len() ==> #[trigger] stack@[i] < n && connected(
                        edges,
                        start,
                        stack@[i],
                    ),
                forall|x: usize, y: usize|
                    #![trigger visited@[x as int], linked(edges, x, y)]
                    x < n && visited@[x as int] && !old_vis[x as int] && linked(edges, x, y)
                        ==> visited@[y as int] || stack@.contains(y),
                visited@[start as int] || stack@.contains(start),
                comp@.len() == 0 ==> stack@ == seq![start],
                comp@.len() > 0 ==> comp@[0] == start,
                comp@.no_duplicates(),
                forall|x: usize|
                    #[trigger] comp@.contains(x) <==> (x < n && !old_vis[x as int]
                        && visited@[x as int]),
            decreases count_unset(visited@), stack@.len(),
        {
            proof {
                self.lemma_wf();
            }
            let ghost pre_stack = stack@;
            let ghost pre_vis = visited@;
            let current = stack.pop().unwrap();
            assert(pre_stack == stack@.push(current));
            assert(pre_stack[pre_stack.len() - 1] == current);
            assert forall|y: usize| pre_stack.contains(y) implies y == current || stack@.contains(
                y,
            ) by {
                let k = choose|k: int| 0 <= k < pre_stack.len() && pre_stack[k] == y;
                if k < stack@.len() {
                    assert(stack@[k] == pre_stack[k]);
                }
            }
            if comp.len() == 0 {
                assert(pre_stack == seq![start]);
                assert(current == start);
                assert(!comp@.contains(start));
            }
            if !visited[current] {
                visited.set(current, true);
                proof {
                    lemma_count_unset_set(pre_vis, current as int);
                }
                let ghost rest = stack@;
                let ghost seen = visited@;
                let ghost comp0 = comp@;
                assert(dfs(edges, pre_stack, pre_vis) == (seq![current] + dfs(
                    edges,
                    rest + unvisited(nbrs(edges, current), seen),
                    seen,
                ).0, dfs(edges, rest + unvisited(nbrs(edges, current), seen), seen).1));
                let ghost before_push = comp@;
                comp.push(current);
                assert(!before_push.contains(current));
                assert(comp@.no_duplicates()) by {
                    assert forall|a: int, b: int|
                        0 <= a < b < comp@.len() implies comp@[a] != comp@[b] by {
                        if b == before_push.len() {
                            assert(before_push[a] == comp@[a]);
                        } else {
                            assert(before_push[a] == comp@[a] && before_push[b] == comp@[b]);
                        }
                    }
                }
                assert forall|x: usize| #[trigger] comp@.contains(x) <==> (x < n
                    && !old_vis[x as int] && visited@[x as int]) by {
                    if comp@.contains(x) {
                        let k = choose|k: int| 0 <= k < comp@.len() && comp@[k] == x;
                        if k < before_push.len() {
                            assert(before_push[k] == x);
                            assert(before_push.contains(x));
                        }
                    }
                    if x < n && !old_vis[x as int] && visited@[x as int] && x != current {
                        assert(before_push.contains(x));
                        let k = choose|k: int| 0 <= k < before_push.len() && before_push[k] == x;
                        assert(comp@[k] == x);
                    }
                    if x == current {
                        assert(comp@[before_push.len() as int] == x);
                    }
                }
                let nb = &self.adjacency[current];
                let ghost stack_base = stack@;
                let mut k: usize = 0;
                while k < nb.len()
                    invariant
                        self.wf(),
                        n == self@.node_count(),
                        edges == self@.edges,
                        ends_below(edges, n),
                        current < n,
                        nb@ == nbrs(edges, current),
                        k <= nb@.len(),
                        visited@.len() == n,
                        connected(edges, start, current),
                        stack@.len() >= stack_base.len(),
                        forall|i: int| 0 <= i < stack_base.len() ==> stack@[i] == stack_base[i],
                        forall|i: int|
                            0 <= i < stack@.len() ==> #[trigger] stack@[i] < n && connected(
                                edges,
                                start,
                                stack@[i],
                            ),
                        forall|i: int| 0 <= i < k ==> visited@[nb@[i] as int] || stack@.contains(nb@[i]),
                        visited@ == seen,
                        stack@ == stack_base + unvisited(nb@.take(k as int), seen),
                    decreases nb@.len() - k,
                {
                    let y = nb[k];
                    proof {
                        self.lemma_wf();
                        assert(nb@.contains(y));
                        lemma_nbrs_contains(edges, current, y);
                        lemma_linked_bounded(edges, n, current, y);
                    }
                    assert(nb@.take(k + 1).drop_last() =~= nb@.take(k as int));
                    assert(nb@.take(k + 1).last() == y);
                    if !visited[y] {
                        let ghost sb = stack@;
                        stack.push(y);
                        assert(stack@ =~= stack_base + unvisited(nb@.take(k + 1), seen));
                        proof {
                            lemma_connected_extend(edges, start, current, y);
                            assert(stack@[sb.len() as int] == y);
                            assert forall|i: int| 0 <= i < k + 1 implies visited@[nb@[i] as int]
                                || stack@.contains(nb@[i]) by {
                                if i < k && !visited@[nb@[i] as int] {
                                    let t = choose|t: int| 0 <= t < sb.len() && sb[t] == nb@[i];
                                    assert(stack@[t] == sb[t]);
                                }
                            }
                        }
                    }
                    k = k + 1;
                }
                assert(nb@.take(nb@.len() as int) =~= nb@);
                assert(comp@ =~= comp0.push(current));
                assert(comp@ + dfs(edges, stack@, visited@).0 =~= comp0 + (seq![current] + dfs(
                    edges,
                    stack@,
                    visited@,
                ).0));
                proof {
                    assert forall|y: usize| linked(edges, current, y) implies visited@[y as int]
                        || stack@.contains(y) by {
                        lemma_nbrs_contains(edges, current, y);
                        let i = choose|i: int| 0 <= i < nb@.len() && nb@[i] == y;
                    }
                }
            }
            proof {
                assert forall|y: usize| pre_stack.contains(y) implies visited@[y as int]
                    || stack@.contains(y) by {
                    if y != current {
                        let t = choose|t: int| 0 <= t < pre_stack.len() - 1 && pre_stack[t] == y;
                        assert(stack@.contains(y)) by {
                            let base = pre_stack.drop_last();
                            assert(base[t] == y);
                        }
                    }
                }
            }
            assert forall|x: usize, y: usize|
                #![trigger visited@[x as int], linked(edges, x, y)]
                x < n && visited@[x as int] && !old_vis[x as int] && linked(edges, x, y) implies
                visited@[y as int] || stack@.contains(y) by {
                if x != current && pre_vis[x as int] {
                    assert(pre_stack.contains(y) || pre_vis[y as int]);
                }
            }
        }
        proof {
            if !visited@[start as int] {
                assert(stack@.contains(start));
                let t = choose|t: int| 0 <= t < stack@.len() && stack@[t] == start;
                assert(false);
            }
            assert forall|x: usize, y: usize|
                #![trigger visited@[x as int], linked(edges, x, y)]
                x < visited@.len() && y < visited@.len() && visited@[x as int] && linked(
                    edges,
                    x,
                    y,
                ) implies visited@[y as int] by {
                if old_vis[x as int] {
                    assert(old_vis[x as int] && linked(edges, x, y));
                }
            }
            assert forall|x: int|
                0 <= x < n implies #[trigger] visited@[x] <==> (old_vis[x] || connected(
                    edges,
                    start,
                    x as usize,
                )) by {
                if connected(edges, start, x as usize) {
                    let w = choose|w: Seq<usize>|
                        #[trigger] is_walk(edges, w) && w[0] == start && w.last() == x as usize;
                    lemma_closed_walk(edges, visited@, w);
                }
            }
            assert(comp@.contains(start));
        }
        comp
    }
}

/// The components found by depth-first walks from the listed vertices at
/// position `i` on, the nodes marked in `vis` having been seen: a seen
/// vertex is skipped, an unseen one opens a component, listed in the order
/// the walk visits it.
pub open spec fn components_from(g: GraphView, i: int, vis: Seq<bool>) -> Seq<Seq<usize>>
    decreases g.vertices.len() - i,
{
    if i < 0 || i >= g.vertices.len() {
        Seq::empty()
    } else {
        let v = g.vertices[i];
        if v >= vis.len() || vis[v as int] {
            components_from(g, i + 1, vis)
        } else {
            let walk = dfs(g.edges, seq![v], vis);
            seq![walk.0] + components_from(g, i + 1, walk.1)
        }
    }
}

/// The components of a graph, in the order of their first listed vertex,
/// each in depth-first order from that vertex.
pub open spec fn component_order(g: GraphView) -> Seq<Seq<usize>> {
    components_from(g, 0, Seq::new(g.node_count(), |x: int| false))
}

impl SpreadGraph {
    /// The connected components that hold a listed vertex, in the order of
    /// their first listed vertex; each lists its nodes in depth-first order
    /// from that vertex.
    pub fn component_lists(&self) -> (comps: Vec<Vec<usize>>)
        requires
            self.wf(),
        ensures
            comps@.len() == self@.component_count(),
            forall|k: int|
                0 <= k < comps@.len() ==> (#[trigger] comps@[k])@.len() > 0
                    && comps@[k]@.no_duplicates() && exists|i: int|
                    0 <= i < self@.vertices.len() && self@.first_of_component(i)
                        && comps@[k]@[0] == self@.vertices[i] && forall|x: usize|
                        #[trigger] comps@[k]@.contains(x) <==> (x < self@.node_count()
                            && connected(self@.edges, self@.vertices[i], x)),
            is_component_listing(self@, comps@.map_values(|c: Vec<usize>| c@)),
            comps@.map_values(|c: Vec<usize>| c@) == component_order(self@),
    {
        proof {
            self.lemma_wf();
        }
        let ghost g = self@;
        let ghost n = self@.node_count();
        let mut visited: Vec<bool> = Vec::new();
        let mut t: usize = 0;
        while t < self.names.len()
            invariant
                t <= self.names@.len(),
                visited@.len() == t,
                forall|x: int| 0 <= x < t ==> !visited@[x],
            decreases self.names@.len() - t,
        {
            visited.push(false);
            t = t + 1;
        }
        let mut comps: Vec<Vec<usize>> = Vec::new();
        let ghost mut reps: Seq<int> = Seq::empty();
        let mut i: usize = 0;
        assert(visited@ =~= Seq::new(g.node_count(), |x: int| false));
        assert(comps@.map_values(|c: Vec<usize>| c@) + components_from(g, 0, visited@) =~= component_order(g));
        while i < self.vertex_nodes.len()
            invariant
                comps@.map_values(|c: Vec<usize>| c@) + components_from(g, i as int, visited@)
                    == component_order(g),
                self.wf(),
                g == self@,
                n == g.node_count(),
                n < usize::MAX,
                g.well_formed(),
                ends_below(g.edges, n),
                self.vertex_nodes@ == g.vertices,
                i <= g.vertices.len(),
                visited@.len() == n,
                forall|x: int| 0 <= x < n ==> (#[trigger] visited@[x] <==> covered(g, i as int, x as usize)),
                closed_under_links(g.edges, visited@),
                comps@.len() == g.components_upto(i as int),
                reps.len() == comps@.len(),
                forall|k: int|
                    0 <= k < comps@.len() ==> (#[trigger] comps@[k])@.len() > 0
                        && comps@[k]@.no_duplicates() && 0 <= reps[k] < g.vertices.len()
                        && g.first_of_component(reps[k]) && comps@[k]@[0] == g.vertices[reps[k]]
                        && forall|x: usize|
                        #[trigger] comps@[k]@.contains(x) <==> (x < n && connected(
                            g.edges,
                            g.vertices[reps[k]],
                            x,
                        )),
            decreases g.vertices.len() - i,
        {
            let u = self.vertex_nodes[i];
            assert(u < n);
            let ghost vis_before = visited@;
            let ghost cv_before = comps@.map_values(|c: Vec<usize>| c@);
            if visited[u] {
                proof {
                    assert(components_from(g, i as int, vis_before) == components_from(g, i + 1, vis_before));
                    assert(covered(g, i as int, u));
                    let j = choose|j: int| 0 <= j < i && #[trigger] connected(g.edges, g.vertices[j], u);
                    assert(!g.first_of_component(i as int));
                    assert forall|x: int| 0 <= x < n implies (#[trigger] visited@[x] <==> covered(
                        g,
                        i + 1,
                        x as usize,
                    )) by {
                        if covered(g, i + 1, x as usize) && !covered(g, i as int, x as usize) {
                            assert(connected(g.edges, g.vertices[i as int], x as usize));
                            lemma_connected_trans(g.edges, g.vertices[j], u, x as usize);
                            assert(connected(g.edges, g.vertices[j], x as usize));
                        }
                        if covered(g, i as int, x as usize) {
                            let j2 = choose|j2: int| 0 <= j2 < i && #[trigger] connected(g.edges, g.vertices[j2], x as usize);
                            assert(0 <= j2 < i + 1);
                        }
                    }
                }
            } else {
                let ghost old_vis = visited@;
                proof {
                    assert(!covered(g, i as int, u));
                    assert forall|k: int| 0 <= k < i implies !connected(
                        g.edges,
                        g.vertices[k],
                        g.vertices[i as int],
                    ) by {
                        if connected(g.edges, g.vertices[k], u) {
                            assert(covered(g, i as int, u));
                        }
                    }
                    assert(g.first_of_component(i as int));
                }
                let comp = self.explore(u, &mut visited);
                proof {
                    assert forall|x: int| 0 <= x < n implies (#[trigger] visited@[x] <==> covered(
                        g,
                        i + 1,
                        x as usize,
                    )) by {
                        if covered(g, i + 1, x as usize) && !covered(g, i as int, x as usize) {
                            assert(connected(g.edges, g.vertices[i as int], x as usize));
                        }
                        if covered(g, i as int, x as usize) {
                            let j2 = choose|j2: int| 0 <= j2 < i && #[trigger] connected(g.edges, g.vertices[j2], x as usize);
                            assert(0 <= j2 < i + 1);
                        }
                        if connected(g.edges, u, x as usize) {
                            assert(g.vertices[i as int] == u);
                            assert(connected(g.edges, g.vertices[i as int], x as usize));
                        }
                    }
                    assert forall|x: usize| #[trigger] comp@.contains(x) <==> (x < n && connected(
                        g.edges,
                        u,
                        x,
                    )) by {
                        if x < n && connected(g.edges, u, x) && old_vis[x as int] {
                            lemma_connected_symmetric(g.edges, u, x);
                            let w = choose|w: Seq<usize>|
                                #[trigger] is_walk(g.edges, w) && w[0] == x && w.last() == u;
                            lemma_closed_walk(g.edges, old_vis, w);
                        }
                    }
                }
                let ghost pre_comps = comps@;
                let ghost compv = comp@;
                comps.push(comp);
                proof {
                    assert(components_from(g, i as int, vis_before) == seq![compv] + components_from(
                        g,
                        i + 1,
                        visited@,
                    ));
                    assert(comps@.map_values(|c: Vec<usize>| c@) =~= cv_before.push(compv));
                    assert(cv_before.push(compv) + components_from(g, i + 1, visited@) =~= cv_before + (
                    seq![compv] + components_from(g, i + 1, visited@)));
                    reps = reps.push(i as int);
                    assert forall|k: int|
                        0 <= k < comps@.len() implies (#[trigger] comps@[k])@.len() > 0
                            && comps@[k]@.no_duplicates() && 0 <= reps[k] < g.vertices.len()
                            && g.first_of_component(reps[k]) && comps@[k]@[0] == g.vertices[reps[k]]
                            && forall|x: usize|
                            #[trigger] comps@[k]@.contains(x) <==> (x < n && connected(
                                g.edges,
                                g.vertices[reps[k]],
                                x,
                            )) by {
                        if k < pre_comps.len() {
                            assert(comps@[k] == pre_comps[k]);
                        }
                    }
                }
            }
            i = i + 1;
        }
        proof {
            assert(components_from(g, i as int, visited@) =~= Seq::<Seq<usize>>::empty());
            assert(comps@.map_values(|c: Vec<usize>| c@) + Seq::<Seq<usize>>::empty() =~= comps@.map_values(
                |c: Vec<usize>| c@,
            ));
            assert forall|k: int|
                0 <= k < comps@.len() implies (#[trigger] comps@[k])@.len() > 0
                    && comps@[k]@.no_duplicates() && exists|i: int|
                    0 <= i < g.vertices.len() && g.first_of_component(i)
                        && comps@[k]@[0] == g.vertices[i] && forall|x: usize|
                        #[trigger] comps@[k]@.contains(x) <==> (x < n && connected(
                            g.edges,
                            g.vertices[i],
                            x,
                        )) by {
                let i0 = reps[k];
                assert(comps@[k]@.len() > 0);
                assert(0 <= i0 < g.vertices.len() && g.first_of_component(i0));
            }
            let cv = comps@.map_values(|c: Vec<usize>| c@);
            assert forall|k: int|
                0 <= k < cv.len() implies (#[trigger] cv[k]).len() > 0 && cv[k].no_duplicates()
                    && exists|i: int|
                    0 <= i < g.vertices.len() && g.first_of_component(i) && cv[k][0]
                        == g.vertices[i] && forall|x: usize|
                        #[trigger] cv[k].contains(x) <==> (x < g.node_count() && connected(
                            g.edges,
                            g.vertices[i],
                            x,
                        )) by {
                assert(cv[k] == comps@[k]@);
                assert(comps@[k]@.len() > 0);
            }
        }
        comps
    }

    /// First Betti number: β₁ = E − V + C.
    pub fn betti_1(&self) -> (b: i64)
        requires
            self.wf(),
            self@.edges.len() <= i64::MAX,
            self@.vertices.len() <= i64::MAX,
        ensures
            b == self@.edges.len() - self@.vertices.len() + self@.component_count(),
    {
        proof {
            self.lemma_view();
            lemma_components_bounds(self@, self@.vertices.len() as int);
        }
        let c = self.components();
        (self.edge_nodes.len() as i64) - (self.vertex_nodes.len() as i64) + (c as i64)
    }

    /// Laman's count for rigidity in the plane: E = 2V − 3.
    pub fn is_laman_candidate(&self) -> (r: bool)
        ensures
            r == (self@.edges.len() == 2 * self@.vertices.len() - 3),
    {
        proof {
            self.lemma_view();
        }
        (self.edge_nodes.len() as u128) + 3 == 2 * (self.vertex_nodes.len() as u128)
    }

    /// More edges than Laman's count: E > 2V − 3.
    pub fn is_over_constrained(&self) -> (r: bool)
        ensures
            r == (self@.edges.len() > 2 * self@.vertices.len() - 3),
    {
        proof {
            self.lemma_view();
        }
        (self.edge_nodes.len() as u128) + 3 > 2 * (self.vertex_nodes.len() as u128)
    }

    /// Fewer edges than Laman's count: E < 2V − 3.
    pub fn is_under_constrained(&self) -> (r: bool)
        ensures
            r == (self@.edges.len() < 2 * self@.vertices.len() - 3),
    {
        proof {
            self.lemma_view();
        }
        (self.edge_nodes.len() as u128) + 3 < 2 * (self.vertex_nodes.len() as u128)
    }

    /// Number of connected components that hold at least one listed vertex.
    pub fn components(&self) -> (c: usize)
        requires
            self.wf(),
        ensures
            c == self@.component_count(),
    {
        let comps = self.component_lists();
        comps.len()
    }
}

/// A component that a listing names is closed under edges.
pub proof fn lemma_listed_component_closed(g: GraphView, comps: Seq<Seq<usize>>, k: int)
    requires
        g.well_formed(),
        is_component_listing(g, comps),
        0 <= k < comps.len(),
    ensures
        edge_closed(g.edges, comps[k]),
        comps[k].no_duplicates(),
        forall|t: int| 0 <= t < comps[k].len() ==> #[trigger] comps[k][t] < g.node_count(),
{
    let c = comps[k];
    assert(c.len() > 0);
    let i = choose|i: int|
        0 <= i < g.vertices.len() && g.first_of_component(i) && c[0] == g.vertices[i]
            && forall|x: usize|
            #[trigger] c.contains(x) <==> (x < g.node_count() && connected(g.edges, g.vertices[i], x));
    let r = g.vertices[i];
    assert forall|j: int| 0 <= j < g.edges.len() implies (c.contains((#[trigger] g.edges[j]).0)
        <==> c.contains(g.edges[j].1)) by {
        let (a, b) = g.edges[j];
        assert(linked(g.edges, a, b));
        assert(linked(g.edges, b, a));
        if c.contains(a) {
            lemma_connected_extend(g.edges, r, a, b);
        }
        if c.contains(b) {
            lemma_connected_extend(g.edges, r, b, a);
        }
    }
    assert forall|t: int| 0 <= t < c.len() implies #[trigger] c[t] < g.node_count() by {
        assert(c.contains(c[t]));
    }
}

impl SpreadGraph {
    /// Sum of the degrees of the nodes of `s`.
    pub fn degree_total(&self, s: &Vec<usize>) -> (d: usize)
        requires
            self.wf(),
            s@.no_duplicates(),
            forall|t: int| 0 <= t < s@.len() ==> #[trigger] s@[t] < self@.node_count(),
            2 * self@.edges.len() <= usize::MAX,
        ensures
            d == deg_sum(self@.edges, s@),
    {
        proof {
            self.lemma_wf();
        }
        let mut d: usize = 0;
        let mut t: usize = 0;
        while t < s.len()
            invariant
                self.wf(),
                t <= s@.len(),
                s@.no_duplicates(),
                forall|t: int| 0 <= t < s@.len() ==> #[trigger] s@[t] < self@.node_count(),
                2 * self@.edges.len() <= usize::MAX,
                self.adjacency@.len() == self@.node_count(),
                forall|u: int|
                    0 <= u < self.adjacency@.len() ==> (#[trigger] self.adjacency@[u])@ == nbrs(
                        self@.edges,
                        u as usize,
                    ),
                d == deg_sum(self@.edges, s@.take(t as int)),
            decreases s@.len() - t,
        {
            proof {
                let tk = s@.take(t + 1);
                assert(tk.drop_last() =~= s@.take(t as int));
                assert(tk.no_duplicates());
                lemma_deg_sum_bound(self@.edges, tk);
            }
            d = d + self.adjacency[s[t]].len();
            t = t + 1;
        }
        assert(s@.take(s@.len() as int) =~= s@);
        d
    }

    /// Number of edges with both ends among the nodes of `s`.
    pub fn count_edges_within(&self, s: &Vec<usize>) -> (m: usize)
        ensures
            m == edges_within(self@.edges, s@),
    {
        proof {
            self.lemma_view();
        }
        let mut m: usize = 0;
        let mut j: usize = 0;
        while j < self.edge_nodes.len()
            invariant
                self@.edges == self.edge_nodes@,
                j <= self.edge_nodes@.len(),
                m <= j,
                m == edges_within(self.edge_nodes@.take(j as int), s@),
            decreases self.edge_nodes@.len() - j,
        {
            let (a, b) = self.edge_nodes[j];
            let has_a = contains_node(s, a);
            let has_b = contains_node(s, b);
            proof {
                let tk = self.edge_nodes@.take(j + 1);
                assert(tk.drop_last() =~= self.edge_nodes@.take(j as int));
            }
            if has_a && has_b {
                m = m + 1;
            }
            j = j + 1;
        }
        assert(self.edge_nodes@.take(self.edge_nodes@.len() as int) =~= self.edge_nodes@);
        m
    }
}

/// `s` holds `x`.
pub fn contains_node(s: &Vec<usize>, x: usize) -> (r: bool)
    ensures
        r == s@.contains(x),
{
    let mut t: usize = 0;
    while t < s.len()
        invariant
            t <= s@.len(),
            forall|u: int| 0 <= u < t ==> s@[u] != x,
        decreases s@.len() - t,
    {
        if s[t] == x {
            return true;
        }
        t = t + 1;
    }
    false
}


/// Every edge of `edges` lies within `s` when `s` holds both its ends.
proof fn lemma_within_all(edges: Seq<(usize, usize)>, s: Seq<usize>)
    requires
        forall|j: int| 0 <= j < edges.len() ==> s.contains((#[trigger] edges[j]).0) && s.contains(edges[j].1),
    ensures
        edges_within(edges, s) == edges.len(),
    decreases edges.len(),
{
    if edges.len() > 0 {
        let p = edges.drop_last();
        assert forall|j: int| 0 <= j < p.len() implies s.contains((#[trigger] p[j]).0) && s.contains(p[j].1) by {
            assert(p[j] == edges[j]);
        }
        lemma_within_all(p, s);
        assert(edges.last() == edges[edges.len() - 1]);
    }
}

/// The handshake law: the degrees of all nodes add up to twice the number
/// of edges.
pub proof fn law_degree_sum(g: GraphView)
    requires
        g.well_formed(),
        g.node_count() <= usize::MAX,
    ensures
        deg_sum(g.edges, Seq::new(g.node_count(), |i: int| i as usize)) == 2 * g.edges.len(),
{
    let n = g.node_count();
    let all = Seq::new(n, |i: int| i as usize);
    assert forall|i: int| 0 <= i < n implies #[trigger] all[i] == i by {}
    assert(all.no_duplicates()) by {
        assert forall|i: int, j: int| 0 <= i < all.len() && 0 <= j < all.len() && i != j implies all[i] != all[j] by {
            assert(all[i] == i && all[j] == j);
        }
    }
    assert forall|j: int| 0 <= j < g.edges.len() implies all.contains((#[trigger] g.edges[j]).0) && all.contains(
        g.edges[j].1,
    ) by {
        let e = g.edges[j];
        assert(all[e.0 as int] == e.0);
        assert(all[e.1 as int] == e.1);
    }
    assert(edge_closed(g.edges, all));
    lemma_deg_sum_closed(g.edges, all);
    lemma_within_all(g.edges, all);
}

} // verus!

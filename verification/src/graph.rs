//! Fleet graph: agents (vertices) joined by trust links (edges).
//!
//! Agents are named by strings. The graph keeps every distinct name once,
//! as a node, and works on node indices: a vertex is a position in the list
//! of vertices and stands for a node; an edge joins two nodes; the
//! neighbours of a node are listed in the order of the edges.
use vstd::prelude::*;

verus! {

/// A fleet agent, known by its identifier.
pub struct Vertex {
    pub id: String,
}

/// A trust link between two agents, named by their identifiers.
pub struct Edge {
    pub from: String,
    pub to: String,
}

/// The mathematical model of a fleet graph.
pub struct GraphView {
    /// Distinct node names.
    pub names: Seq<Seq<char>>,
    /// The node of each listed vertex, in the order the vertices were given.
    pub vertices: Seq<usize>,
    /// The two nodes of each edge, in the order the edges were given.
    pub edges: Seq<(usize, usize)>,
}

/// Neighbours of node `u` under the given edges: for each edge in order,
/// its `to` end when `u` is its `from` end, then its `from` end when `u` is
/// its `to` end.
pub open spec fn nbrs(edges: Seq<(usize, usize)>, u: usize) -> Seq<usize>
    decreases edges.len(),
{
    if edges.len() == 0 {
        Seq::empty()
    } else {
        let prev = nbrs(edges.drop_last(), u);
        let e = edges.last();
        let with_to = if e.0 == u { prev.push(e.1) } else { prev };
        if e.1 == u { with_to.push(e.0) } else { with_to }
    }
}

/// Some edge joins `a` and `b` (in either direction).
pub open spec fn linked(edges: Seq<(usize, usize)>, a: usize, b: usize) -> bool {
    exists|j: int|
        0 <= j < edges.len() && ((#[trigger] edges[j]).0 == a && edges[j].1 == b || edges[j].0 == b
            && edges[j].1 == a)
}

/// `w` is a walk: consecutive nodes are linked.
pub open spec fn is_walk(edges: Seq<(usize, usize)>, w: Seq<usize>) -> bool {
    &&& w.len() >= 1
    &&& forall|i: int| 0 <= i < w.len() - 1 ==> linked(edges, #[trigger] w[i], w[i + 1])
}

/// A walk leads from `a` to `b`.
pub open spec fn connected(edges: Seq<(usize, usize)>, a: usize, b: usize) -> bool {
    exists|w: Seq<usize>| #[trigger] is_walk(edges, w) && w[0] == a && w.last() == b
}

impl GraphView {
    /// Number of distinct nodes.
    pub open spec fn node_count(self) -> nat {
        self.names.len()
    }

    /// Degree of node `u`: the length of its neighbour list.
    pub open spec fn degree_of(self, u: usize) -> nat {
        nbrs(self.edges, u).len()
    }

    /// The listed vertex at position `i` is the first of its component:
    /// no earlier listed vertex is connected to it.
    pub open spec fn first_of_component(self, i: int) -> bool {
        forall|k: int| 0 <= k < i ==> !connected(self.edges, self.vertices[k], self.vertices[i])
    }

    /// Number of listed positions below `i` that open a new component.
    pub open spec fn components_upto(self, i: int) -> nat
        decreases i,
    {
        if i <= 0 {
            0
        } else {
            self.components_upto(i - 1) + if self.first_of_component(i - 1) {
                1nat
            } else {
                0nat
            }
        }
    }

    /// Number of connected components that hold at least one listed vertex.
    pub open spec fn component_count(self) -> nat {
        self.components_upto(self.vertices.len() as int)
    }

    /// Indices are in range and node names are distinct.
    pub open spec fn well_formed(self) -> bool {
        &&& forall|i: int| 0 <= i < self.vertices.len() ==> #[trigger] self.vertices[i] < self.names.len()
        &&& forall|j: int|
            0 <= j < self.edges.len() ==> (#[trigger] self.edges[j]).0 < self.names.len()
                && self.edges[j].1 < self.names.len()
        &&& forall|a: int, b: int|
            0 <= a < b < self.names.len() ==> self.names[a] != self.names[b]
    }
}

/// A fleet graph. Built once from vertices and edges; it keeps each distinct
/// agent name as a node and the neighbour list of every node.
pub struct SpreadGraph {
    pub(crate) id: String,
    pub(crate) names: Vec<String>,
    pub(crate) vertex_nodes: Vec<usize>,
    pub(crate) edge_nodes: Vec<(usize, usize)>,
    pub(crate) adjacency: Vec<Vec<usize>>,
}

impl View for SpreadGraph {
    type V = GraphView;

    closed spec fn view(&self) -> GraphView {
        GraphView {
            names: self.names@.map_values(|s: String| s@),
            vertices: self.vertex_nodes@,
            edges: self.edge_nodes@,
        }
    }
}

/// Some vertex among the first `upto` is named `s`.
pub open spec fn vertex_named(vs: Seq<Vertex>, s: Seq<char>, upto: int) -> bool {
    exists|p: int| 0 <= p < upto && (#[trigger] vs[p]).id@ == s
}

/// Some edge among the first `upto` has an end named `s`.
pub open spec fn edge_named(es: Seq<Edge>, s: Seq<char>, upto: int) -> bool {
    exists|q: int| 0 <= q < upto && ((#[trigger] es[q]).from@ == s || es[q].to@ == s)
}

/// Position of `name` among `names`, if it is there.
pub open spec fn name_index(names: Seq<Seq<char>>, name: Seq<char>) -> Option<int> {
    if exists|k: int| 0 <= k < names.len() && names[k] == name {
        Some(choose|k: int| 0 <= k < names.len() && names[k] == name)
    } else {
        None
    }
}

impl SpreadGraph {
    /// The graph's internal lists agree with its model: one neighbour list
    /// per node, each equal to `nbrs`.
    pub closed spec fn wf(&self) -> bool {
        &&& self@.well_formed()
        &&& self.names@.len() < usize::MAX
        &&& self.names@.len() <= self.vertex_nodes@.len() + 2 * self.edge_nodes@.len()
        &&& self.adjacency@.len() == self.names@.len()
        &&& forall|u: int|
            0 <= u < self.adjacency@.len() ==> (#[trigger] self.adjacency@[u])@ == nbrs(
                self.edge_nodes@,
                u as usize,
            )
    }

    /// The model's lists are the graph's own.
    pub(crate) proof fn lemma_view(&self)
        ensures
            self@.vertices == self.vertex_nodes@,
            self@.edges == self.edge_nodes@,
            self@.names.len() == self.names@.len(),
    {
    }

    /// What a well-formed graph's internal lists say about its model.
    pub(crate) proof fn lemma_wf(&self)
        requires
            self.wf(),
        ensures
            self@.vertices == self.vertex_nodes@,
            self@.edges == self.edge_nodes@,
            self@.names.len() == self.names@.len(),
            self@.names.len() < usize::MAX,
            self@.names.len() <= self@.vertices.len() + 2 * self@.edges.len(),
            forall|k: int| 0 <= k < self.names@.len() ==> self@.names[k] == (#[trigger] self.names@[k])@,
            self@.well_formed(),
            self.adjacency@.len() == self.names@.len(),
            forall|u: int|
                0 <= u < self.adjacency@.len() ==> (#[trigger] self.adjacency@[u])@ == nbrs(
                    self@.edges,
                    u as usize,
                ),
    {
    }

    /// The graph's identifier.
    pub closed spec fn spec_id(&self) -> Seq<char> {
        self.id@
    }

    /// Position of `name` in `names`, or `names.len()` when it is absent.
    fn find_name(names: &Vec<String>, name: &String) -> (r: usize)
        ensures
            r <= names@.len(),
            r < names@.len() ==> names@[r as int]@ == name@,
            r == names@.len() ==> forall|k: int| 0 <= k < names@.len() ==> names@[k]@ != name@,
    {
        let mut k: usize = 0;
        while k < names.len()
            invariant
                k <= names@.len(),
                forall|i: int| 0 <= i < k ==> names@[i]@ != name@,
            decreases names@.len() - k,
        {
            if names[k] == *name {
                return k;
            }
            k = k + 1;
        }
        k
    }

    /// Node of `name`, adding it as a new node when it is not yet known.
    fn intern(names: &mut Vec<String>, name: &String) -> (r: usize)
        requires
            forall|a: int, b: int|
                0 <= a < b < old(names)@.len() ==> old(names)@[a]@ != old(names)@[b]@,
            old(names)@.len() < usize::MAX,
        ensures
            r < final(names)@.len(),
            final(names)@[r as int]@ == name@,
            forall|a: int, b: int|
                0 <= a < b < final(names)@.len() ==> final(names)@[a]@ != final(names)@[b]@,
            final(names)@.len() == old(names)@.len() || final(names)@.len() == old(names)@.len()
                + 1,
            forall|k: int| 0 <= k < old(names)@.len() ==> final(names)@[k] == old(names)@[k],
            final(names)@.len() == old(names)@.len() + 1 ==> forall|k: int|
                0 <= k < old(names)@.len() ==> old(names)@[k]@ != name@,
    {
        let k = Self::find_name(names, name);
        if k < names.len() {
            k
        } else {
            names.push(name.clone());
            k
        }
    }

    /// Build a fleet graph from its vertices and edges.
    pub fn new(id: String, vertices: Vec<Vertex>, edges: Vec<Edge>) -> (g: SpreadGraph)
        requires
            vertices@.len() + 2 * edges@.len() < usize::MAX,
        ensures
            g.wf(),
            g.spec_id() == id@,
            g@.vertices.len() == vertices@.len(),
            forall|i: int|
                0 <= i < vertices@.len() ==> g@.names[#[trigger] g@.vertices[i] as int]
                    == vertices@[i].id@,
            g@.edges.len() == edges@.len(),
            forall|j: int|
                0 <= j < edges@.len() ==> g@.names[(#[trigger] g@.edges[j]).0 as int]
                    == edges@[j].from@ && g@.names[g@.edges[j].1 as int] == edges@[j].to@,
            forall|k: int|
                0 <= k < g@.names.len() ==> vertex_named(
                    vertices@,
                    #[trigger] g@.names[k],
                    vertices@.len() as int,
                ) || edge_named(edges@, g@.names[k], edges@.len() as int),
    {
        let mut names: Vec<String> = Vec::new();
        let mut vertex_nodes: Vec<usize> = Vec::new();
        let mut i: usize = 0;
        while i < vertices.len()
            invariant
                i <= vertices@.len(),
                vertices@.len() + 2 * edges@.len() < usize::MAX,
                names@.len() <= i,
                vertex_nodes@.len() == i,
                forall|a: int, b: int| 0 <= a < b < names@.len() ==> names@[a]@ != names@[b]@,
                forall|p: int|
                    0 <= p < i ==> #[trigger] vertex_nodes@[p] < names@.len()
                        && names@[vertex_nodes@[p] as int]@ == vertices@[p].id@,
                forall|k: int|
                    0 <= k < names@.len() ==> vertex_named(vertices@, #[trigger] names@[k]@, i as int),
            decreases vertices@.len() - i,
        {
            let ghost old_names = names@;
            let node = Self::intern(&mut names, &vertices[i].id);
            vertex_nodes.push(node);
            assert forall|k: int| 0 <= k < names@.len() implies vertex_named(
                vertices@,
                #[trigger] names@[k]@,
                i + 1,
            ) by {
                if k < old_names.len() {
                    assert(names@[k] == old_names[k]);
                    assert(vertex_named(vertices@, names@[k]@, i as int));
                } else {
                    assert(names@[k]@ == vertices@[i as int].id@);
                }
            }
            i = i + 1;
        }
        let mut edge_nodes: Vec<(usize, usize)> = Vec::new();
        let mut j: usize = 0;
        while j < edges.len()
            invariant
                j <= edges@.len(),
                vertices@.len() + 2 * edges@.len() < usize::MAX,
                names@.len() <= vertices@.len() + 2 * j,
                vertex_nodes@.len() == vertices@.len(),
                edge_nodes@.len() == j,
                forall|a: int, b: int| 0 <= a < b < names@.len() ==> names@[a]@ != names@[b]@,
                forall|p: int|
                    0 <= p < vertices@.len() ==> #[trigger] vertex_nodes@[p] < names@.len()
                        && names@[vertex_nodes@[p] as int]@ == vertices@[p].id@,
                forall|q: int|
                    0 <= q < j ==> (#[trigger] edge_nodes@[q]).0 < names@.len()
                        && edge_nodes@[q].1 < names@.len() && names@[edge_nodes@[q].0 as int]@
                        == edges@[q].from@ && names@[edge_nodes@[q].1 as int]@ == edges@[q].to@,
                forall|k: int|
                    0 <= k < names@.len() ==> vertex_named(
                        vertices@,
                        #[trigger] names@[k]@,
                        vertices@.len() as int,
                    ) || edge_named(edges@, names@[k]@, j as int),
            decreases edges@.len() - j,
        {
            let ghost old_names = names@;
            let a = Self::intern(&mut names, &edges[j].from);
            let ghost mid_names = names@;
            let b = Self::intern(&mut names, &edges[j].to);
            edge_nodes.push((a, b));
            assert forall|k: int| 0 <= k < names@.len() implies vertex_named(
                vertices@,
                #[trigger] names@[k]@,
                vertices@.len() as int,
            ) || edge_named(edges@, names@[k]@, j + 1) by {
                if k < old_names.len() {
                    assert(names@[k] == old_names[k]);
                    if edge_named(edges@, names@[k]@, j as int) {
                        let q = choose|q: int|
                            0 <= q < j && ((#[trigger] edges@[q]).from@ == names@[k]@
                                || edges@[q].to@ == names@[k]@);
                        assert(0 <= q < j + 1);
                    }
                } else if k < mid_names.len() {
                    assert(names@[k] == mid_names[k]);
                    assert(names@[k]@ == edges@[j as int].from@);
                } else {
                    assert(names@[k]@ == edges@[j as int].to@);
                }
            }
            assert(edge_nodes@[j as int] == (a, b));
            j = j + 1;
        }
        let adjacency = Self::build_adjacency(names.len(), &edge_nodes);
        let g = SpreadGraph { id, names, vertex_nodes, edge_nodes, adjacency };
        assert forall|k: int| 0 <= k < g@.names.len() implies vertex_named(
            vertices@,
            #[trigger] g@.names[k],
            vertices@.len() as int,
        ) || edge_named(edges@, g@.names[k], edges@.len() as int) by {
            assert(g@.names[k] == g.names@[k]@);
        }
        assert forall|i: int|
            0 <= i < vertices@.len() implies g@.names[#[trigger] g@.vertices[i] as int]
            == vertices@[i].id@ by {
            assert(g@.vertices[i] == vertex_nodes@[i]);
        }
        assert forall|q: int|
            0 <= q < edges@.len() implies g@.names[(#[trigger] g@.edges[q]).0 as int]
            == edges@[q].from@ && g@.names[g@.edges[q].1 as int] == edges@[q].to@ by {
            assert(g@.edges[q] == g.edge_nodes@[q]);
        }
        g
    }

    /// One neighbour list per node, in edge order.
    fn build_adjacency(n: usize, edge_nodes: &Vec<(usize, usize)>) -> (adj: Vec<Vec<usize>>)
        requires
            forall|q: int|
                0 <= q < edge_nodes@.len() ==> (#[trigger] edge_nodes@[q]).0 < n
                    && edge_nodes@[q].1 < n,
        ensures
            adj@.len() == n,
            forall|u: int| 0 <= u < n ==> (#[trigger] adj@[u])@ == nbrs(edge_nodes@, u as usize),
    {
        let mut adj: Vec<Vec<usize>> = Vec::new();
        let mut u: usize = 0;
        while u < n
            invariant
                u <= n,
                adj@.len() == u,
                forall|x: int| 0 <= x < u ==> (#[trigger] adj@[x])@ == Seq::<usize>::empty(),
            decreases n - u,
        {
            adj.push(Vec::new());
            u = u + 1;
        }
        let mut j: usize = 0;
        while j < edge_nodes.len()
            invariant
                j <= edge_nodes@.len(),
                adj@.len() == n,
                forall|q: int|
                    0 <= q < edge_nodes@.len() ==> (#[trigger] edge_nodes@[q]).0 < n
                        && edge_nodes@[q].1 < n,
                forall|x: int|
                    0 <= x < n ==> (#[trigger] adj@[x])@ == nbrs(
                        edge_nodes@.take(j as int),
                        x as usize,
                    ),
            decreases edge_nodes@.len() - j,
        {
            let (a, b) = edge_nodes[j];
            let ghost before = adj@;
            adj[a].push(b);
            adj[b].push(a);
            proof {
                let t = edge_nodes@.take(j + 1);
                assert(t.drop_last() =~= edge_nodes@.take(j as int));
                assert(t.last() == (a, b));
                assert forall|x: int| 0 <= x < n implies (#[trigger] adj@[x])@ == nbrs(
                    t,
                    x as usize,
                ) by {
                    if x != a && x != b {
                        assert(adj@[x] == before[x]);
                    }
                }
            }
            j = j + 1;
        }
        assert(edge_nodes@.take(edge_nodes@.len() as int) =~= edge_nodes@);
        adj
    }

    /// Number of listed vertices.
    pub fn v(&self) -> (r: usize)
        ensures
            r == self@.vertices.len(),
    {
        self.vertex_nodes.len()
    }

    /// Number of edges.
    pub fn e(&self) -> (r: usize)
        ensures
            r == self@.edges.len(),
    {
        self.edge_nodes.len()
    }
}

impl SpreadGraph {
    /// The graph's identifier.
    pub fn id(&self) -> (r: &String)
        ensures
            r@ == self.spec_id(),
    {
        &self.id
    }

    /// Node names in node order.
    pub fn node_names(&self) -> (r: &Vec<String>)
        requires
            self.wf(),
        ensures
            r@.len() == self@.names.len(),
            forall|k: int| 0 <= k < r@.len() ==> (#[trigger] r@[k])@ == self@.names[k],
    {
        proof {
            self.lemma_wf();
        }
        &self.names
    }

    /// Node of each listed vertex.
    pub fn vertex_nodes(&self) -> (r: &Vec<usize>)
        ensures
            r@ == self@.vertices,
    {
        &self.vertex_nodes
    }

    /// Nodes joined by each edge.
    pub fn edge_nodes(&self) -> (r: &Vec<(usize, usize)>)
        ensures
            r@ == self@.edges,
    {
        &self.edge_nodes
    }

    /// Neighbour list of node `u`.
    pub fn neighbors(&self, u: usize) -> (r: &Vec<usize>)
        requires
            self.wf(),
            u < self@.node_count(),
        ensures
            r@ == nbrs(self@.edges, u),
    {
        proof {
            self.lemma_wf();
        }
        &self.adjacency[u]
    }

    /// Degree of the agent named `vertex_id`: the length of its neighbour
    /// list, or 0 when no vertex or edge names it.
    pub fn degree(&self, vertex_id: &str) -> (d: usize)
        requires
            self.wf(),
        ensures
            d == match name_index(self@.names, vertex_id@) {
                Some(k) => self@.degree_of(k as usize),
                None => 0,
            },
    {
        proof {
            self.lemma_wf();
        }
        let key: String = vertex_id.to_owned();
        let k = Self::find_name(&self.names, &key);
        if k < self.names.len() {
            proof {
                let c = choose|c: int| 0 <= c < self@.names.len() && self@.names[c] == vertex_id@;
                if c != k {
                    if c < k {
                        assert(self@.names[c] != self@.names[k as int]);
                    } else {
                        assert(self@.names[k as int] != self@.names[c]);
                    }
                }
            }
            self.adjacency[k].len()
        } else {
            proof {
                assert forall|c: int| 0 <= c < self@.names.len() implies self@.names[c] != vertex_id@ by {
                    assert(self@.names[c] == self.names@[c]@);
                }
            }
            0
        }
    }

    /// Largest degree of any node (0 when there are no nodes).
    pub fn max_degree(&self) -> (d: usize)
        requires
            self.wf(),
        ensures
            forall|u: usize| u < self@.node_count() ==> self@.degree_of(u) <= d,
            self@.node_count() == 0 ==> d == 0,
            self@.node_count() > 0 ==> exists|u: usize|
                u < self@.node_count() && #[trigger] self@.degree_of(u) == d,
    {
        proof {
            self.lemma_wf();
        }
        let mut best: usize = 0;
        let mut u: usize = 0;
        while u < self.adjacency.len()
            invariant
                self.wf(),
                u <= self.adjacency@.len(),
                self.adjacency@.len() == self@.node_count(),
                forall|x: int|
                    0 <= x < self.adjacency@.len() ==> (#[trigger] self.adjacency@[x])@ == nbrs(
                        self@.edges,
                        x as usize,
                    ),
                forall|x: usize| x < u ==> self@.degree_of(x) <= best,
                u == 0 ==> best == 0,
                u > 0 ==> exists|x: usize| x < u && #[trigger] self@.degree_of(x) == best,
            decreases self.adjacency@.len() - u,
        {
            let len = self.adjacency[u].len();
            assert(self@.degree_of(u) == len);
            if u == 0 || len > best {
                best = len;
            }
            u = u + 1;
        }
        best
    }
}


/// The `to` ends of the edges leaving `u`, in order.
pub open spec fn to_ends(edges: Seq<(usize, usize)>, u: usize) -> Seq<usize>
    decreases edges.len(),
{
    if edges.len() == 0 {
        Seq::empty()
    } else if edges.last().0 == u {
        to_ends(edges.drop_last(), u).push(edges.last().1)
    } else {
        to_ends(edges.drop_last(), u)
    }
}

/// The `from` ends of the edges entering `u`, in order.
pub open spec fn from_ends(edges: Seq<(usize, usize)>, u: usize) -> Seq<usize>
    decreases edges.len(),
{
    if edges.len() == 0 {
        Seq::empty()
    } else if edges.last().1 == u {
        from_ends(edges.drop_last(), u).push(edges.last().0)
    } else {
        from_ends(edges.drop_last(), u)
    }
}

/// A node's neighbour list holds, as a multiset, the `to` ends of the
/// edges leaving it and the `from` ends of the edges entering it.
pub proof fn law_neighbours_multiset(edges: Seq<(usize, usize)>, u: usize)
    ensures
        nbrs(edges, u).to_multiset() == to_ends(edges, u).to_multiset().add(from_ends(edges, u).to_multiset()),
    decreases edges.len(),
{
    broadcast use vstd::seq_lib::group_to_multiset_ensures;
    if edges.len() == 0 {
        assert(nbrs(edges, u).to_multiset() =~= vstd::multiset::Multiset::empty());
        assert(to_ends(edges, u).to_multiset() =~= vstd::multiset::Multiset::empty());
        assert(from_ends(edges, u).to_multiset() =~= vstd::multiset::Multiset::empty());
        assert(vstd::multiset::Multiset::<usize>::empty().add(vstd::multiset::Multiset::empty()) =~= vstd::multiset::Multiset::empty());
    } else {
        let p = edges.drop_last();
        law_neighbours_multiset(p, u);
        let e = edges.last();
        let a = to_ends(p, u).to_multiset();
        let b = from_ends(p, u).to_multiset();
        if e.0 == u && e.1 == u {
            assert(nbrs(edges, u).to_multiset() =~= a.add(b).insert(e.1).insert(e.0));
            assert(to_ends(edges, u).to_multiset().add(from_ends(edges, u).to_multiset()) =~= a.insert(e.1).add(
                b.insert(e.0),
            ));
        } else if e.0 == u {
            assert(nbrs(edges, u).to_multiset() =~= a.add(b).insert(e.1));
            assert(to_ends(edges, u).to_multiset().add(from_ends(edges, u).to_multiset()) =~= a.insert(e.1).add(b));
        } else if e.1 == u {
            assert(nbrs(edges, u).to_multiset() =~= a.add(b).insert(e.0));
            assert(to_ends(edges, u).to_multiset().add(from_ends(edges, u).to_multiset()) =~= a.add(b.insert(e.0)));
        }
    }
}

} // verus!

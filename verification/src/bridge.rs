//! A quick consistency check of a fleet-coordinate graph, using only that
//! crate's mathematics: Laman rigidity by edge count, H¹ emergence, and the
//! first Betti number.
use vstd::prelude::*;

use crate::graph::{Edge, SpreadGraph, Vertex};
use crate::text::{decimal, u64_text};
use fleet_coordinate::emergence::EmergenceDetector;
use fleet_coordinate::graph::FleetGraph as CoordinateGraph;

verus! {

/// The graph type of the fleet-coordinate crate, carried through opaquely.
#[verifier::external_type_specification]
#[verifier::external_body]
pub struct ExCoordinateGraph(fleet_coordinate::graph::FleetGraph);

/// The adjacency a fleet-coordinate graph holds: for each id that has an
/// entry, the ids it has been linked to.
pub uninterp spec fn coordinate_adjacency(g: fleet_coordinate::graph::FleetGraph) -> Map<u64, Set<u64>>;

/// The agents a fleet-coordinate graph lists, in order, each by the length
/// of its own neighbour list.
pub uninterp spec fn coordinate_neighbour_counts(g: fleet_coordinate::graph::FleetGraph) -> Seq<nat>;

/// The number of agents a fleet-coordinate graph lists.
pub open spec fn agent_count_of(g: fleet_coordinate::graph::FleetGraph) -> nat {
    coordinate_neighbour_counts(g).len()
}

/// The number of edges a fleet-coordinate graph has counted.
pub uninterp spec fn coordinate_edge_count(g: fleet_coordinate::graph::FleetGraph) -> nat;

/// Whether `check_laman_rigidity` calls a graph of `v` agents and `e` edges
/// rigid: `e` within 5% of `2v - 3`, compared in floating point.
pub uninterp spec fn ratio_rigid(v: nat, e: nat) -> bool;

/// `n` is the largest of `counts`, or 0 when there is none.
pub open spec fn is_largest_count(counts: Seq<nat>, n: nat) -> bool {
    &&& forall|i: int| 0 <= i < counts.len() ==> #[trigger] counts[i] <= n
    &&& counts.len() == 0 ==> n == 0
    &&& counts.len() > 0 ==> exists|i: int| 0 <= i < counts.len() && #[trigger] counts[i] == n
}

/// `FleetGraph::V`: the length of its list of agents.
#[verifier::external_body]
fn coordinate_vertex_count(g: &CoordinateGraph) -> (r: usize)
    ensures
        r == coordinate_neighbour_counts(*g).len(),
{
    g.V()
}

/// `FleetGraph::check_laman_rigidity`, its fields `is_rigid`,
/// `h1_dimension` and `max_neighbors`. Claimed, as its source shows, with
/// `V` the length of the agent list and `E` the edge counter: it computes
/// `2V - 3` (so it needs two agents or more and `2V` in range); `is_rigid`
/// depends on `V` and `E` alone (its per-agent subgraph test never fails)
/// and holds when `E = 2V - 3` exactly; `h1_dimension` is `E - V + 1` when
/// `E ≥ V`, else 0; `max_neighbors` is the longest of the agents' own
/// neighbour lists.
#[verifier::external_body]
fn coordinate_rigidity(g: &CoordinateGraph) -> (r: (bool, usize, usize))
    requires
        2 <= agent_count_of(*g),
        2 * agent_count_of(*g) <= usize::MAX,
    ensures
        r.0 == ratio_rigid(agent_count_of(*g), coordinate_edge_count(*g)),
        coordinate_edge_count(*g) == 2 * agent_count_of(*g) - 3 ==> r.0,
        r.1 == if coordinate_edge_count(*g) >= agent_count_of(*g) {
            coordinate_edge_count(*g) - agent_count_of(*g) + 1
        } else {
            0
        },
        is_largest_count(coordinate_neighbour_counts(*g), r.2 as nat),
{
    let rigidity = g.check_laman_rigidity();
    (rigidity.is_rigid, rigidity.h1_dimension, rigidity.max_neighbors)
}

/// `FleetGraph::E`: the number of edges counted.
#[verifier::external_body]
fn coordinate_edges(g: &CoordinateGraph) -> (r: usize)
    ensures
        r == coordinate_edge_count(*g),
{
    g.E()
}

/// `FleetGraph::get_neighbors`: the ids linked to `id`, each once, in the
/// order its hash set yields them (that order is left unsaid); none when
/// `id` is not an agent.
#[verifier::external_body]
fn coordinate_neighbors(g: &CoordinateGraph, id: u64) -> (r: Vec<u64>)
    ensures
        r@.no_duplicates(),
        forall|x: u64|
            #[trigger] r@.contains(x) == (coordinate_adjacency(*g).dom().contains(id)
                && coordinate_adjacency(*g)[id].contains(x)),
{
    g.get_neighbors(id)
}

/// The emergence threshold: `2v - 3` for three or more vertices, else 0.
pub open spec fn emergence_threshold(v: nat) -> nat {
    if v >= 3 {
        (2 * v - 3) as nat
    } else {
        0
    }
}

/// `EmergenceDetector::detect`, its fields `emergence_detected` and `h1`.
/// Claimed, as its source shows: emergence is `e` above the threshold
/// (`2v - 3` for three or more vertices, else 0), and `h1` is
/// `e - v + c` when `e ≥ v`, else 0.
#[verifier::external_body]
fn detect_emergence(v: usize, e: usize, c: usize) -> (r: (bool, usize))
    requires
        v >= 3 ==> 2 * v <= usize::MAX,
        e >= v ==> e - v + c <= usize::MAX,
    ensures
        r.0 == (e > emergence_threshold(v as nat)),
        r.1 == if e >= v { e - v + c } else { 0 },
{
    let result = EmergenceDetector::detect(v, e, c);
    (result.emergence_detected, result.h1)
}

/// The outcome of the quick consistency check.
pub struct QuickConsistencyResult {
    pub is_rigid: bool,
    pub emergence_detected: bool,
    pub beta_1: usize,
    pub max_neighbors: usize,
}

/// Rigidity, emergence (for one component) and β₁ of a fleet-coordinate
/// graph with at least two agents.
pub fn quick_check(cg: &CoordinateGraph) -> (r: QuickConsistencyResult)
    requires
        2 <= agent_count_of(*cg),
        2 * agent_count_of(*cg) <= usize::MAX,
    ensures
        ({
            let v = agent_count_of(*cg);
            let e = coordinate_edge_count(*cg);
            &&& r.is_rigid == ratio_rigid(v, e)
            &&& e == 2 * v - 3 ==> r.is_rigid
            &&& r.emergence_detected == (e > emergence_threshold(v))
            &&& r.beta_1 == if e >= v { e - v + 1 } else { 0 }
            &&& is_largest_count(coordinate_neighbour_counts(*cg), r.max_neighbors as nat)
        }),
{
    let (is_rigid, h1, max_neighbors) = coordinate_rigidity(cg);
    let v = coordinate_vertex_count(cg);
    let e = coordinate_edges(cg);
    let (emergence_detected, _h1) = detect_emergence(v, e, 1);
    QuickConsistencyResult { is_rigid, emergence_detected, beta_1: h1, max_neighbors }
}

/// The quick check, or `None` for a graph with fewer than two agents (or
/// too many to count `2V` in a `usize`), which the check cannot take.
pub fn checked_quick_check(cg: &CoordinateGraph) -> (r: Option<QuickConsistencyResult>)
    ensures
        ({
            let v = agent_count_of(*cg);
            let e = coordinate_edge_count(*cg);
            &&& r is None <==> (v < 2 || 2 * v > usize::MAX)
            &&& r matches Some(q) ==> {
                &&& q.is_rigid == ratio_rigid(v, e)
                &&& q.emergence_detected == (e > emergence_threshold(v))
                &&& q.beta_1 == if e >= v { e - v + 1 } else { 0 }
                &&& is_largest_count(coordinate_neighbour_counts(*cg), q.max_neighbors as nat)
            }
        }),
{
    let v = coordinate_vertex_count(cg);
    if v < 2 || v > usize::MAX / 2 {
        return None;
    }
    Some(quick_check(cg))
}

/// The figures of fleet-coordinate's rigidity check on a graph.
pub struct CoordinateRigidity {
    pub is_rigid: bool,
    pub v: usize,
    pub e: usize,
    pub expected_e: usize,
    pub h1_dimension: usize,
    pub max_neighbors: usize,
}

/// The rigidity check of a fleet-coordinate graph, or `None` for a graph
/// with fewer than two agents (or too many to count `2V` in a `usize`),
/// which the check cannot take: `V` agents, `E` edges, the expected count
/// `2V - 3`, rigidity, `E - V + 1` independent cycles when `E ≥ V` (else 0),
/// and the longest neighbour list.
pub fn rigidity_check(cg: &CoordinateGraph) -> (r: Option<CoordinateRigidity>)
    ensures
        ({
            let v = agent_count_of(*cg);
            let e = coordinate_edge_count(*cg);
            &&& r is None <==> (v < 2 || 2 * v > usize::MAX)
            &&& r matches Some(f) ==> {
                &&& f.v == v
                &&& f.e == e
                &&& f.expected_e == 2 * v - 3
                &&& f.is_rigid == ratio_rigid(v, e)
                &&& e == 2 * v - 3 ==> f.is_rigid
                &&& f.h1_dimension == if e >= v { e - v + 1 } else { 0 }
                &&& is_largest_count(coordinate_neighbour_counts(*cg), f.max_neighbors as nat)
            }
        }),
{
    let v = coordinate_vertex_count(cg);
    if v < 2 || v > usize::MAX / 2 {
        return None;
    }
    let (is_rigid, h1, max_neighbors) = coordinate_rigidity(cg);
    let e = coordinate_edges(cg);
    Some(CoordinateRigidity { is_rigid, v, e, expected_e: 2 * v - 3, h1_dimension: h1, max_neighbors })
}

/// Whether a fleet-coordinate graph reads as connected: no independent
/// cycle, or three agents or more.
pub fn reads_connected(h1_dimension: usize, v: usize) -> (r: bool)
    ensures
        r == (h1_dimension == 0 || v >= 3),
{
    h1_dimension == 0 || v >= 3
}

/// "agent-{i}".
pub open spec fn agent_name(i: u64) -> Seq<char> {
    "agent-"@ + decimal(i as nat)
}

/// Agent `a`, one of the ids `0..n`, is linked to a greater id `b`.
pub open spec fn forward_link(adj: Map<u64, Set<u64>>, n: nat, a: u64, b: u64) -> bool {
    &&& a < n
    &&& adj.dom().contains(a)
    &&& adj[a].contains(b)
    &&& a < b
}

/// `links` lists every forward link once.
pub open spec fn lists_links(adj: Map<u64, Set<u64>>, n: nat, links: Seq<(u64, u64)>) -> bool {
    &&& links.no_duplicates()
    &&& forall|p: (u64, u64)| #[trigger] links.contains(p) == forward_link(adj, n, p.0, p.1)
}

/// The name "agent-{i}".
fn agent_text(i: u64) -> (s: String)
    ensures
        s@ == agent_name(i),
{
    let mut s = "agent-".to_owned();
    let d = u64_text(i);
    s.append(d.as_str());
    s
}

/// `links` lists links in ascending order of their first id.
pub open spec fn by_source(links: Seq<(u64, u64)>) -> bool {
    forall|i: int, j: int| 0 <= i < j < links.len() ==> (#[trigger] links[i]).0 <= (#[trigger] links[j]).0
}

/// The graph of a fleet-coordinate graph of `V` agents: vertices "agent-0"
/// to "agent-{V-1}", and an edge "agent-a" → "agent-b" for every link of
/// the adjacency from an id `a < V` to a greater id `b`, each once, in
/// ascending order of `a` (for one `a`, in the order the neighbour set
/// yields them). `None` when the vertices and twice the edges reach
/// `usize::MAX`.
pub fn convert_from_coordinate(cg: &CoordinateGraph) -> (r: Option<SpreadGraph>)
    ensures
        ({
            let adj = coordinate_adjacency(*cg);
            let n = agent_count_of(*cg);
            &&& r matches Some(g) ==> {
                &&& g.wf()
                &&& g.spec_id() == "coordinated-fleet"@
                &&& g@.vertices.len() == n
                &&& forall|i: int| 0 <= i < n ==> g@.names[#[trigger] g@.vertices[i] as int] == agent_name(i as u64)
                &&& exists|links: Seq<(u64, u64)>|
                    {
                        &&& lists_links(adj, n, links)
                        &&& by_source(links)
                        &&& g@.edges.len() == links.len()
                        &&& forall|j: int|
                            0 <= j < links.len() ==> g@.names[(#[trigger] g@.edges[j]).0 as int] == agent_name(links[j].0)
                                && g@.names[g@.edges[j].1 as int] == agent_name(links[j].1)
                    }
            }
            &&& r is None ==> exists|links: Seq<(u64, u64)>|
                lists_links(adj, n, links) && n + 2 * links.len() >= usize::MAX
        }),
{
    let ghost adj = coordinate_adjacency(*cg);
    let n = coordinate_vertex_count(cg);
    let mut vertices: Vec<Vertex> = Vec::new();
    let mut i: usize = 0;
    while i < n
        invariant
            i <= n,
            vertices@.len() == i,
            forall|t: int| 0 <= t < i ==> (#[trigger] vertices@[t]).id@ == agent_name(t as u64),
        decreases n - i,
    {
        vertices.push(Vertex { id: agent_text(i as u64) });
        i = i + 1;
    }
    let mut edges: Vec<Edge> = Vec::new();
    let ghost mut links: Seq<(u64, u64)> = Seq::empty();
    let mut a: usize = 0;
    while a < n
        invariant
            n == agent_count_of(*cg),
            adj == coordinate_adjacency(*cg),
            a <= n,
            by_source(links),
            forall|j: int| 0 <= j < links.len() ==> (#[trigger] links[j]).0 < a,
            edges@.len() == links.len(),
            links.no_duplicates(),
            forall|j: int|
                0 <= j < links.len() ==> (#[trigger] edges@[j]).from@ == agent_name(links[j].0)
                    && edges@[j].to@ == agent_name(links[j].1),
            forall|p: (u64, u64)| #[trigger] links.contains(p) == (forward_link(adj, n as nat, p.0, p.1) && p.0 < a),
        decreases n - a,
    {
        let id = a as u64;
        let nb = coordinate_neighbors(cg, id);
        let mut k: usize = 0;
        while k < nb.len()
            invariant
                n == agent_count_of(*cg),
                adj == coordinate_adjacency(*cg),
                a < n,
                by_source(links),
                forall|j: int| 0 <= j < links.len() ==> (#[trigger] links[j]).0 <= id,
                id == a,
                k <= nb@.len(),
                nb@.no_duplicates(),
                forall|x: u64| #[trigger] nb@.contains(x) == (adj.dom().contains(id) && adj[id].contains(x)),
                edges@.len() == links.len(),
                links.no_duplicates(),
                forall|j: int|
                    0 <= j < links.len() ==> (#[trigger] edges@[j]).from@ == agent_name(links[j].0)
                        && edges@[j].to@ == agent_name(links[j].1),
                forall|p: (u64, u64)|
                    #[trigger] links.contains(p) == ((forward_link(adj, n as nat, p.0, p.1) && p.0 < a) || (p.0
                        == id && nb@.take(k as int).contains(p.1) && id < p.1)),
            decreases nb@.len() - k,
        {
            let b = nb[k];
            assert(nb@.contains(b));
            let ghost old_links = links;
            if b > id {
                proof {
                    if links.contains((id, b)) {
                        let t = choose|t: int| 0 <= t < k && nb@.take(k as int)[t] == b;
                        assert(nb@[t] == nb@[k as int]);
                    }
                    links = links.push((id, b));
                    assert forall|p: (u64, u64)| #[trigger] links.contains(p) == ((forward_link(adj, n as nat, p.0, p.1) && p.0 < a) || (p.0
                        == id && nb@.take(k + 1).contains(p.1) && id < p.1)) by {
                        let s1 = nb@.take(k + 1);
                        let s0 = nb@.take(k as int);
                        assert(s1 =~= s0.push(b));
                        assert(s1[k as int] == b);
                        if s1.contains(p.1) {
                            let t = choose|t: int| 0 <= t < s1.len() && s1[t] == p.1;
                            if t < k {
                                assert(s0[t] == p.1);
                            }
                        }
                        if s0.contains(p.1) {
                            let t = choose|t: int| 0 <= t < s0.len() && s0[t] == p.1;
                            assert(s1[t] == p.1);
                        }
                        if links.contains(p) {
                            let t = choose|t: int| 0 <= t < links.len() && links[t] == p;
                            if t < old_links.len() {
                                assert(old_links.contains(p));
                            }
                        }
                        if old_links.contains(p) {
                            let t = choose|t: int| 0 <= t < old_links.len() && old_links[t] == p;
                            assert(links[t] == p);
                        }
                        if p == (id, b) {
                            assert(links[links.len() - 1] == p);
                        }
                    }
                }
                edges.push(Edge { from: agent_text(id), to: agent_text(b) });
            } else {
                assert forall|p: (u64, u64)| #[trigger] links.contains(p) == ((forward_link(adj, n as nat, p.0, p.1) && p.0 < a) || (p.0
                    == id && nb@.take(k + 1).contains(p.1) && id < p.1)) by {
                    let s1 = nb@.take(k + 1);
                    let s0 = nb@.take(k as int);
                    assert(links.contains(p) == ((forward_link(adj, n as nat, p.0, p.1) && p.0 < a) || (
                    p.0 == id && s0.contains(p.1) && id < p.1)));
                    assert(s1 =~= s0.push(b));
                    if s1.contains(p.1) {
                        let t = choose|t: int| 0 <= t < s1.len() && s1[t] == p.1;
                        if t < k {
                            assert(s0[t] == p.1);
                        }
                    }
                    if s0.contains(p.1) {
                        let t = choose|t: int| 0 <= t < s0.len() && s0[t] == p.1;
                        assert(s1[t] == p.1);
                        assert(s1.contains(p.1));
                    }
                    assert(nb@.take(k + 1) == s1);
                }
            }
            k = k + 1;
        }
        assert(nb@.take(nb@.len() as int) =~= nb@);
        a = a + 1;
    }
    assert(lists_links(adj, n as nat, links));
    if n >= usize::MAX || edges.len() > (usize::MAX - n - 1) / 2 {
        return None;
    }
    let g = SpreadGraph::new("coordinated-fleet".to_owned(), vertices, edges);
    Some(g)
}

} // verus!

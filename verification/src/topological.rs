//! S1, the topological specialist: Betti numbers and connected components.
use vstd::prelude::*;

use crate::connectivity::{
    edges_within, is_component_listing, component_order, lemma_components_bounds, lemma_deg_sum_closed, lemma_listed_component_closed,
};
use crate::cycles::cycle_count;
use crate::graph::{SpreadGraph, GraphView};
use crate::report::{Finding, FindingView, findings_of, finding_with, push_finding, single};
use crate::text::{decimal, i64_text, signed_decimal, texts_of, u64_text, usize_text};

verus! {

/// Figures for one connected component.
pub struct ComponentStats {
    pub vertices: usize,
    pub edges: usize,
    pub betti_1: i64,
    pub is_rigid_possible: bool,
}

/// The figures of the component whose nodes are `c`: its size, its edges,
/// its Betti number E − V + 1, and whether it has the 2V − 3 edges that
/// rigidity needs (with at least three nodes).
pub open spec fn stats_match(s: ComponentStats, g: GraphView, c: Seq<usize>) -> bool {
    &&& s.vertices == c.len()
    &&& s.edges == edges_within(g.edges, c)
    &&& s.betti_1 == edges_within(g.edges, c) - c.len() + 1
    &&& s.is_rigid_possible == (c.len() >= 3 && edges_within(g.edges, c) >= 2 * c.len() - 3)
}


/// "E - V + C = {e} - {v} + {c}".
pub open spec fn euler_evidence(v: nat, e: nat, c: nat) -> Seq<char> {
    "E - V + C = "@ + decimal(e) + " - "@ + decimal(v) + " + "@ + decimal(c)
}

/// The finding on the Betti number β₁ = E − V + C of the whole graph: an
/// under-constrained graph when it is negative, a forest when it is zero,
/// else the number of independent cycles.
pub open spec fn betti_finding(v: nat, e: nat, c: nat) -> FindingView {
    let b = e - v + c;
    if b < 0 {
        single(
            "Graph is under-constrained: E="@ + decimal(e) + ", V="@ + decimal(v) + ", β₁="@
                + signed_decimal(b),
            950,
            euler_evidence(v, e, c),
        )
    } else if b == 0 {
        single("Graph is a forest (no cycles)"@, 900, "β₁ = "@ + signed_decimal(b))
    } else {
        single(
            "Graph contains "@ + decimal(b as nat) + " independent cycles (β₁ = "@ + signed_decimal(b)
                + ")"@,
            900,
            euler_evidence(v, e, c),
        )
    }
}

/// How complex a cycle basis of `n` cycles is: high above 10, moderate
/// above 3, low above 0, else none.
pub open spec fn cycle_complexity(n: nat) -> Seq<char> {
    if n > 10 {
        "high"@
    } else if n > 3 {
        "moderate"@
    } else if n > 0 {
        "low"@
    } else {
        "none"@
    }
}

/// The finding on the size of the cycle basis.
pub open spec fn complexity_finding(n: nat) -> FindingView {
    single(
        "Cycle complexity: "@ + cycle_complexity(n) + " ("@ + decimal(n) + " cycles detected)"@,
        850,
        "cycle_basis.len() = "@ + decimal(n),
    )
}

/// The finding on connectivity, for `c` components.
pub open spec fn connectivity_finding(c: nat) -> FindingView {
    if c > 1 {
        single("Graph is disconnected: "@ + decimal(c) + " components detected"@, 950, "C = "@ + decimal(c))
    } else {
        single("Graph is connected"@, 950, "C = 1"@)
    }
}

/// Whether a component can be rigid, in words.
pub open spec fn rigidity_words(possible: bool) -> Seq<char> {
    if possible {
        "can be rigid"@
    } else {
        "cannot be rigid (under-constrained)"@
    }
}

/// "Component {k+1}: V={n}, E={m}, β₁={b}, {rigidity}" with the evidence
/// "component[{k}]".
pub open spec fn component_claim(k: nat, n: nat, m: nat, b: int, possible: bool) -> FindingView {
    single(
        "Component "@ + decimal(k + 1) + ": V="@ + decimal(n) + ", E="@ + decimal(m) + ", β₁="@
            + signed_decimal(b) + ", "@ + rigidity_words(possible),
        800,
        "component["@ + decimal(k) + "]"@,
    )
}

/// The finding on the component `c`, the `k`-th counted from 0.
pub open spec fn component_finding(k: nat, g: GraphView, c: Seq<usize>) -> FindingView {
    let m = edges_within(g.edges, c);
    component_claim(k, c.len(), m, m - c.len() + 1, c.len() >= 3 && m >= 2 * c.len() - 3)
}

/// One finding per component, in the order of their first listed vertex.
pub open spec fn component_findings(g: GraphView) -> Seq<FindingView> {
    Seq::new(
        component_order(g).len(),
        |k: int| component_finding(k as nat, g, component_order(g)[k]),
    )
}

/// The topological findings on a graph: with fewer than three listed
/// vertices, only that it is too small; else the Betti number, the cycle
/// complexity, the connectivity, then each component.
pub open spec fn topology_findings(g: GraphView) -> Seq<FindingView> {
    let v = g.vertices.len();
    if v < 3 {
        seq![
            single(
                "Graph has insufficient vertices for meaningful topological analysis"@,
                900,
                "V < 3"@,
            ),
        ]
    } else {
        seq![
            betti_finding(v, g.edges.len(), g.component_count()),
            complexity_finding(cycle_count(g)),
            connectivity_finding(g.component_count()),
        ] + component_findings(g)
    }
}

/// The questions a topological analysis leaves open.
pub open spec fn topology_questions(g: GraphView) -> Seq<Seq<char>> {
    if g.vertices.len() < 3 {
        seq!["Graph too small for cycle detection (V < 3)"@]
    } else if g.component_count() > 1 {
        seq!["Cross-component trust relationships cannot be analyzed"@]
    } else {
        Seq::empty()
    }
}

/// The shape of a topological analysis of three or more listed vertices:
/// three findings on the whole graph, the connectivity finding third, then
/// one finding per component in order; one question left open exactly when
/// the graph is disconnected.
pub proof fn law_topology_shape(g: GraphView)
    requires
        g.vertices.len() >= 3,
    ensures
        topology_findings(g).len() == 3 + component_order(g).len(),
        topology_findings(g)[2] == connectivity_finding(g.component_count()),
        forall|k: int|
            0 <= k < component_order(g).len() ==> #[trigger] topology_findings(g)[3 + k] == component_finding(
                k as nat,
                g,
                component_order(g)[k],
            ),
        topology_questions(g).len() == if g.component_count() > 1 {
            1nat
        } else {
            0nat
        },
{
    let head = seq![
        betti_finding(g.vertices.len(), g.edges.len(), g.component_count()),
        complexity_finding(cycle_count(g)),
        connectivity_finding(g.component_count()),
    ];
    assert(topology_findings(g) == head + component_findings(g));
    assert forall|k: int| 0 <= k < component_order(g).len() implies #[trigger] topology_findings(g)[3 + k]
        == component_finding(k as nat, g, component_order(g)[k]) by {
        assert((head + component_findings(g))[3 + k] == component_findings(g)[k]);
    }
}

/// The findings among `fs` whose claims begin with `p`.
pub open spec fn count_prefixed(fs: Seq<FindingView>, p: Seq<char>) -> nat
    decreases fs.len(),
{
    if fs.len() == 0 {
        0
    } else {
        count_prefixed(fs.drop_last(), p) + if fs.last().claim.len() >= p.len() && fs.last().claim.take(
            p.len() as int,
        ) == p {
            1nat
        } else {
            0nat
        }
    }
}

/// Some finding among `fs` claims exactly `c`.
pub open spec fn has_claim(fs: Seq<FindingView>, c: Seq<char>) -> bool {
    exists|k: int| 0 <= k < fs.len() && (#[trigger] fs[k]).claim == c
}

/// Counting over two lists adds up.
proof fn lemma_count_prefixed_add(a: Seq<FindingView>, b: Seq<FindingView>, p: Seq<char>)
    ensures
        count_prefixed(a + b, p) == count_prefixed(a, p) + count_prefixed(b, p),
    decreases b.len(),
{
    if b.len() == 0 {
        assert(a + b =~= a);
    } else {
        lemma_count_prefixed_add(a, b.drop_last(), p);
        assert((a + b).drop_last() =~= a + b.drop_last());
        assert((a + b).last() == b.last());
    }
}

/// Texts that differ at a position they both hold differ.
proof fn lemma_differ_at(x: Seq<char>, y: Seq<char>, i: int)
    requires
        0 <= i < x.len(),
        0 <= i < y.len(),
        x[i] != y[i],
    ensures
        x != y,
{
}

/// A text that differs from `p` at a position below `p`'s length does not
/// begin with `p`.
proof fn lemma_not_prefixed(x: Seq<char>, p: Seq<char>, i: int)
    requires
        0 <= i < p.len(),
        i < x.len() ==> x[i] != p[i],
    ensures
        !(x.len() >= p.len() && x.take(p.len() as int) == p),
{
    if x.len() >= p.len() && x.take(p.len() as int) == p {
        assert(x.take(p.len() as int)[i] == x[i]);
    }
}

/// The claims of a topological analysis of three or more listed vertices:
/// one "Component …" claim per component; "Graph is connected" exactly when
/// there is one component.
proof fn lemma_topology_claims(g: GraphView)
    requires
        g.vertices.len() >= 3,
        component_order(g).len() == g.component_count(),
    ensures
        count_prefixed(topology_findings(g), "Component "@) == g.component_count(),
        has_claim(topology_findings(g), "Graph is connected"@) <==> g.component_count() == 1,
{
    reveal_strlit("Component ");
    reveal_strlit("Graph is connected");
    reveal_strlit("Graph is under-constrained: E=");
    reveal_strlit("Graph is a forest (no cycles)");
    reveal_strlit("Graph contains ");
    reveal_strlit("Cycle complexity: ");
    reveal_strlit("Graph is disconnected: ");
    let pc = "Component "@;
    let gc = "Graph is connected"@;
    let c = g.component_count();
    lemma_components_bounds(g, g.vertices.len() as int);
    let v = g.vertices.len();
    let e = g.edges.len();
    let h0 = betti_finding(v, e, c);
    let h1 = complexity_finding(cycle_count(g));
    let h2 = connectivity_finding(c);
    let head = seq![h0, h1, h2];
    let comps = component_findings(g);
    assert(topology_findings(g) == head + comps);
    // the claims of the head
    let b = e - v + c;
    if b < 0 {
        let lit = "Graph is under-constrained: E="@;
        assert(h0.claim[9] == lit[9]);
        lemma_differ_at(h0.claim, gc, 9);
    } else if b == 0 {
        let lit = "Graph is a forest (no cycles)"@;
        lemma_differ_at(h0.claim, gc, 9);
    } else {
        let lit = "Graph contains "@;
        assert(h0.claim[6] == lit[6]);
        lemma_differ_at(h0.claim, gc, 6);
    }
    lemma_not_prefixed(h0.claim, pc, 0);
    let lit1 = "Cycle complexity: "@;
    assert(h1.claim[0] == lit1[0] && h1.claim[1] == lit1[1]);
    lemma_differ_at(h1.claim, gc, 0);
    lemma_not_prefixed(h1.claim, pc, 1);
    if c > 1 {
        let lit2 = "Graph is disconnected: "@;
        assert(h2.claim[9] == lit2[9]);
        lemma_differ_at(h2.claim, gc, 9);
    }
    lemma_not_prefixed(h2.claim, pc, 0);
    assert(count_prefixed(head, pc) == 0) by {
        let s1 = seq![h0];
        let s2 = seq![h0, h1];
        assert(s1.drop_last() =~= Seq::<FindingView>::empty());
        assert(s1.last() == h0);
        assert(s1.len() == 1);
        assert(count_prefixed(Seq::<FindingView>::empty(), pc) == 0);
        assert(!(h0.claim.len() >= pc.len() && h0.claim.take(pc.len() as int) == pc));
        assert(count_prefixed(s1, pc) == count_prefixed(s1.drop_last(), pc) + 0);
        assert(count_prefixed(s1, pc) == 0);
        assert(s2.drop_last() =~= s1);
        assert(s2.last() == h1);
        assert(count_prefixed(s2, pc) == 0);
        assert(head.drop_last() =~= s2);
        assert(head.last() == h2);
    }
    // every component claim begins with "Component "
    assert forall|k: int| 0 <= k < comps.len() implies (#[trigger] comps[k]).claim.len() >= pc.len()
        && comps[k].claim.take(pc.len() as int) == pc && comps[k].claim != gc by {
        let cl = comps[k].claim;
        assert(cl.take(pc.len() as int) =~= pc);
        lemma_differ_at(cl, gc, 0);
    }
    assert(count_prefixed(comps, pc) == comps.len()) by {
        lemma_count_all_prefixed(comps, pc);
    }
    lemma_count_prefixed_add(head, comps, pc);
    let fs = topology_findings(g);
    if has_claim(fs, gc) {
        let k = choose|k: int| 0 <= k < fs.len() && (#[trigger] fs[k]).claim == gc;
        if k >= 3 {
            assert(fs[k] == comps[k - 3]);
        } else if k == 0 {
            assert(fs[k] == h0);
        } else if k == 1 {
            assert(fs[k] == h1);
        } else {
            assert(fs[k] == h2);
        }
    }
    if c == 1 {
        assert(fs[2] == h2);
        assert(h2.claim == gc);
    }
}

/// Every finding of a list whose claims all begin with `p` counts.
proof fn lemma_count_all_prefixed(fs: Seq<FindingView>, p: Seq<char>)
    requires
        forall|k: int|
            0 <= k < fs.len() ==> (#[trigger] fs[k]).claim.len() >= p.len() && fs[k].claim.take(p.len() as int)
                == p,
    ensures
        count_prefixed(fs, p) == fs.len(),
    decreases fs.len(),
{
    if fs.len() > 0 {
        let q = fs.drop_last();
        assert forall|k: int| 0 <= k < q.len() implies (#[trigger] q[k]).claim.len() >= p.len() && q[k].claim.take(
            p.len() as int,
        ) == p by {
            assert(q[k] == fs[k]);
        }
        lemma_count_all_prefixed(q, p);
        assert(fs.last() == fs[fs.len() - 1]);
    }
}

/// `x` ends with `y`.
pub open spec fn ends_with(x: Seq<char>, y: Seq<char>) -> bool {
    y.len() <= x.len() && x.subrange(x.len() - y.len(), x.len() as int) == y
}

/// A component may be rigid exactly when it has three nodes or more and at
/// least 2V − 3 edges among them: one with more edges than that is never
/// called under-constrained.
pub proof fn law_rigid_possible(s: ComponentStats, g: GraphView, c: Seq<usize>)
    requires
        stats_match(s, g, c),
    ensures
        s.is_rigid_possible <==> (s.vertices >= 3 && s.edges + 3 >= 2 * s.vertices),
        s.betti_1 == s.edges - s.vertices + 1,
{
}

/// The claim on a component ends with "can be rigid" when it has three
/// nodes or more and at least 2V − 3 edges among them, and with "cannot be
/// rigid (under-constrained)" otherwise.
pub proof fn law_component_words(k: nat, g: GraphView, c: Seq<usize>)
    ensures
        ({
            let cl = component_finding(k, g, c).claim;
            let m = edges_within(g.edges, c);
            &&& c.len() >= 3 && m + 3 >= 2 * c.len() ==> ends_with(cl, "can be rigid"@)
            &&& !(c.len() >= 3 && m + 3 >= 2 * c.len()) ==> ends_with(
                cl,
                "cannot be rigid (under-constrained)"@,
            )
        }),
{
    let m = edges_within(g.edges, c);
    let possible = c.len() >= 3 && m >= 2 * c.len() - 3;
    let n = c.len();
    let b = m - n + 1;
    let pre = "Component "@ + decimal(k + 1) + ": V="@ + decimal(n) + ", E="@ + decimal(m) + ", β₁="@
        + signed_decimal(b) + ", "@;
    let w = rigidity_words(possible);
    let cl = component_finding(k, g, c).claim;
    assert(cl == pre + w);
    assert((pre + w).subrange(pre.len() as int, (pre + w).len() as int) =~= w);
}

/// `x` begins with `y`.
pub open spec fn begins_with(x: Seq<char>, y: Seq<char>) -> bool {
    y.len() <= x.len() && x.take(y.len() as int) == y
}

/// A text followed by more begins with it.
pub proof fn lemma_begins_with(x: Seq<char>, y: Seq<char>)
    ensures
        begins_with(x + y, x),
{
    assert((x + y).take(x.len() as int) =~= x);
}

/// How complex a cycle basis is by its size: high above ten cycles,
/// moderate from four to ten, low from one to three, none without cycles.
pub proof fn law_cycle_complexity(n: nat)
    ensures
        n > 10 ==> cycle_complexity(n) == "high"@,
        4 <= n <= 10 ==> cycle_complexity(n) == "moderate"@,
        1 <= n <= 3 ==> cycle_complexity(n) == "low"@,
        n == 0 ==> cycle_complexity(n) == "none"@,
{
}

/// The claim on β₁ = E − V + C: an under-constrained graph when it is
/// negative, a forest when it is zero, independent cycles when positive.
pub proof fn law_betti_claim(v: nat, e: nat, c: nat)
    ensures
        e + c < v ==> begins_with(betti_finding(v, e, c).claim, "Graph is under-constrained: E="@),
        e + c == v ==> betti_finding(v, e, c).claim == "Graph is a forest (no cycles)"@,
        e + c > v ==> begins_with(betti_finding(v, e, c).claim, "Graph contains "@),
{
    let b = e - v + c;
    if b < 0 {
        lemma_begins_with(
            "Graph is under-constrained: E="@,
            decimal(e) + ", V="@ + decimal(v) + ", β₁="@ + signed_decimal(b),
        );
        assert("Graph is under-constrained: E="@ + (decimal(e) + ", V="@ + decimal(v) + ", β₁="@ + signed_decimal(b))
            =~= betti_finding(v, e, c).claim);
    } else if b > 0 {
        lemma_begins_with(
            "Graph contains "@,
            decimal(b as nat) + " independent cycles (β₁ = "@ + signed_decimal(b) + ")"@,
        );
        assert("Graph contains "@ + (decimal(b as nat) + " independent cycles (β₁ = "@ + signed_decimal(b) + ")"@)
            =~= betti_finding(v, e, c).claim);
    }
}

/// The claim on connectivity: disconnected with more than one component,
/// connected otherwise.
pub proof fn law_connectivity_claim(c: nat)
    ensures
        c > 1 ==> begins_with(connectivity_finding(c).claim, "Graph is disconnected: "@),
        c <= 1 ==> connectivity_finding(c).claim == "Graph is connected"@,
{
    if c > 1 {
        lemma_begins_with("Graph is disconnected: "@, decimal(c) + " components detected"@);
        assert("Graph is disconnected: "@ + (decimal(c) + " components detected"@) =~= connectivity_finding(c).claim);
    }
}

/// A graph of fewer than three listed vertices gets one finding and one
/// open question, whatever its edges.
pub proof fn law_topology_too_small(g: GraphView)
    requires
        g.vertices.len() < 3,
    ensures
        topology_findings(g).len() == 1,
        topology_questions(g).len() == 1,
{
}

/// The figures behind a topological analysis.
pub struct TopologyFigures {
    pub components: usize,
    pub betti_1: i64,
    pub cycles: usize,
    pub component_stats: Vec<ComponentStats>,
}

/// What a topological analysis finds, the questions it leaves open, and,
/// for a graph of three or more listed vertices, its figures.
pub struct TopologyReport {
    pub findings: Vec<Finding>,
    pub unanswered: Vec<String>,
    pub figures: Option<TopologyFigures>,
}

/// The figures are those of the graph.
pub open spec fn figures_match(f: TopologyFigures, g: GraphView) -> bool {
    &&& f.components == g.component_count()
    &&& f.betti_1 == g.edges.len() - g.vertices.len() + g.component_count()
    &&& f.cycles == cycle_count(g)
    &&& f.component_stats@.len() == component_order(g).len()
    &&& forall|k: int|
        0 <= k < f.component_stats@.len() ==> stats_match(
            #[trigger] f.component_stats@[k],
            g,
            component_order(g)[k],
        )
}

/// The topological specialist.
pub struct TopologicalSpecialist {
    cycle_threshold: usize,
}

impl TopologicalSpecialist {
    /// Minimum number of cycles of interest (1 by default).
    pub closed spec fn spec_cycle_threshold(&self) -> usize {
        self.cycle_threshold
    }

    /// A topological specialist with cycle threshold 1.
    pub fn new() -> (s: Self)
        ensures
            s.spec_cycle_threshold() == 1,
    {
        TopologicalSpecialist { cycle_threshold: 1 }
    }

    /// The cycle threshold.
    pub fn cycle_threshold(&self) -> (r: usize)
        ensures
            r == self.spec_cycle_threshold(),
    {
        self.cycle_threshold
    }

    /// Number of components and the figures of each, in the order of their
    /// first listed vertex.
    pub fn analyze_components(&self, graph: &SpreadGraph) -> (r: (usize, Vec<ComponentStats>))
        requires
            graph.wf(),
            graph@.vertices.len() + 2 * graph@.edges.len() <= i64::MAX,
            2 * graph@.edges.len() <= usize::MAX,
        ensures
            r.0 == component_order(graph@).len(),
            r.0 == graph@.component_count(),
            r.1@.len() == component_order(graph@).len(),
            forall|k: int|
                0 <= k < r.1@.len() ==> stats_match(
                    #[trigger] r.1@[k],
                    graph@,
                    component_order(graph@)[k],
                ),
    {
        let comps = graph.component_lists();
        let ghost cv = comps@.map_values(|c: Vec<usize>| c@);
        let mut stats: Vec<ComponentStats> = Vec::new();
        let mut k: usize = 0;
        while k < comps.len()
            invariant
                graph.wf(),
                graph@.vertices.len() + 2 * graph@.edges.len() <= i64::MAX,
                2 * graph@.edges.len() <= usize::MAX,
                cv == comps@.map_values(|c: Vec<usize>| c@),
                cv == component_order(graph@),
                is_component_listing(graph@, cv),
                comps@.len() == graph@.component_count(),
                k <= comps@.len(),
                stats@.len() == k,
                forall|q: int| 0 <= q < k ==> stats_match(#[trigger] stats@[q], graph@, cv[q]),
            decreases comps@.len() - k,
        {
            let comp = &comps[k];
            proof {
                graph.lemma_wf();
                assert(cv[k as int] == comp@);
                lemma_listed_component_closed(graph@, cv, k as int);
                lemma_deg_sum_closed(graph@.edges, comp@);
                crate::connectivity::lemma_deg_sum_bound(graph@.edges, comp@);
                crate::connectivity::lemma_no_dup_len_bound(comp@, graph@.node_count());
            }
            let size = comp.len();
            let d = graph.degree_total(comp);
            let edges = d / 2;
            let betti_1 = (edges as i64) - (size as i64) + 1;
            let is_rigid_possible = size >= 3 && (edges as u128) >= 2 * (size as u128) - 3;
            stats.push(ComponentStats { vertices: size, edges, betti_1, is_rigid_possible });
            k = k + 1;
        }
        (comps.len(), stats)
    }
}


/// The text of `euler_evidence`.
fn euler_text(v: usize, e: usize, c: usize) -> (s: String)
    ensures
        s@ == euler_evidence(v as nat, e as nat, c as nat),
{
    let mut s = String::new();
    s.append("E - V + C = ");
    s.append(usize_text(e).as_str());
    s.append(" - ");
    s.append(usize_text(v).as_str());
    s.append(" + ");
    s.append(usize_text(c).as_str());
    s
}

/// The finding on β₁ = `b`.
fn betti_finding_of(v: usize, e: usize, c: usize, b: i64) -> (f: Finding)
    requires
        b == e - v + c,
    ensures
        f@ == betti_finding(v as nat, e as nat, c as nat),
{
    if b < 0 {
        let mut s = String::new();
        s.append("Graph is under-constrained: E=");
        s.append(usize_text(e).as_str());
        s.append(", V=");
        s.append(usize_text(v).as_str());
        s.append(", β₁=");
        s.append(i64_text(b).as_str());
        finding_with(s, 950, euler_text(v, e, c))
    } else if b == 0 {
        let mut ev = String::new();
        ev.append("β₁ = ");
        ev.append(i64_text(b).as_str());
        finding_with("Graph is a forest (no cycles)".to_owned(), 900, ev)
    } else {
        let mut s = String::new();
        s.append("Graph contains ");
        s.append(u64_text(b as u64).as_str());
        s.append(" independent cycles (β₁ = ");
        s.append(i64_text(b).as_str());
        s.append(")");
        finding_with(s, 900, euler_text(v, e, c))
    }
}

/// How complex a cycle basis of `n` cycles is.
pub fn cycle_complexity_name(n: usize) -> (r: &'static str)
    ensures
        r@ == cycle_complexity(n as nat),
{
    if n > 10 {
        "high"
    } else if n > 3 {
        "moderate"
    } else if n > 0 {
        "low"
    } else {
        "none"
    }
}

/// The finding on a cycle basis of `n` cycles.
fn complexity_finding_of(n: usize) -> (f: Finding)
    ensures
        f@ == complexity_finding(n as nat),
{
    let word = cycle_complexity_name(n);
    let mut s = String::new();
    s.append("Cycle complexity: ");
    s.append(word);
    s.append(" (");
    s.append(usize_text(n).as_str());
    s.append(" cycles detected)");
    let mut ev = String::new();
    ev.append("cycle_basis.len() = ");
    ev.append(usize_text(n).as_str());
    finding_with(s, 850, ev)
}

/// The finding on connectivity, for `c` components.
fn connectivity_finding_of(c: usize) -> (f: Finding)
    ensures
        f@ == connectivity_finding(c as nat),
{
    if c > 1 {
        let mut s = String::new();
        s.append("Graph is disconnected: ");
        s.append(usize_text(c).as_str());
        s.append(" components detected");
        let mut ev = String::new();
        ev.append("C = ");
        ev.append(usize_text(c).as_str());
        finding_with(s, 950, ev)
    } else {
        finding_with("Graph is connected".to_owned(), 950, "C = 1".to_owned())
    }
}

/// The finding on the `k`-th component, from its figures.
fn component_finding_of(k: usize, st: &ComponentStats) -> (f: Finding)
    requires
        k < usize::MAX,
    ensures
        f@ == component_claim(
            k as nat,
            st.vertices as nat,
            st.edges as nat,
            st.betti_1 as int,
            st.is_rigid_possible,
        ),
{
    let mut s = String::new();
    s.append("Component ");
    s.append(usize_text(k + 1).as_str());
    s.append(": V=");
    s.append(usize_text(st.vertices).as_str());
    s.append(", E=");
    s.append(usize_text(st.edges).as_str());
    s.append(", β₁=");
    s.append(i64_text(st.betti_1).as_str());
    s.append(", ");
    if st.is_rigid_possible {
        s.append("can be rigid");
    } else {
        s.append("cannot be rigid (under-constrained)");
    }
    let mut ev = String::new();
    ev.append("component[");
    ev.append(usize_text(k).as_str());
    ev.append("]");
    finding_with(s, 800, ev)
}

impl TopologicalSpecialist {
    /// The specialist's identifier, "topological".
    pub fn id(&self) -> (r: &'static str)
        ensures
            r@ == "topological"@,
    {
        "topological"
    }

    /// The topological analysis of a graph: its findings, the questions it
    /// leaves open and, with three or more listed vertices, its figures.
    pub fn topology_report(&self, graph: &SpreadGraph) -> (r: TopologyReport)
        requires
            graph.wf(),
            graph@.vertices.len() + 2 * graph@.edges.len() <= i64::MAX,
            2 * graph@.edges.len() <= usize::MAX,
        ensures
            findings_of(r.findings@) == topology_findings(graph@),
            texts_of(r.unanswered@) == topology_questions(graph@),
            r.figures is None <==> graph@.vertices.len() < 3,
            r.figures matches Some(f) ==> figures_match(f, graph@),
            graph@.vertices.len() >= 3 ==> count_prefixed(findings_of(r.findings@), "Component "@)
                == graph@.component_count(),
            graph@.vertices.len() >= 3 ==> (has_claim(findings_of(r.findings@), "Graph is connected"@)
                <==> graph@.component_count() == 1),
            graph@.vertices.len() >= 3 ==> (texts_of(r.unanswered@).contains(
                "Cross-component trust relationships cannot be analyzed"@,
            ) <==> graph@.component_count() > 1),
    {
        let v = graph.v();
        let mut findings: Vec<Finding> = Vec::new();
        let mut unanswered: Vec<String> = Vec::new();
        if v < 3 {
            unanswered.push("Graph too small for cycle detection (V < 3)".to_owned());
            push_finding(
                &mut findings,
                finding_with(
                    "Graph has insufficient vertices for meaningful topological analysis".to_owned(),
                    900,
                    "V < 3".to_owned(),
                ),
            );
            assert(texts_of(unanswered@) =~= topology_questions(graph@));
            assert(findings_of(findings@) =~= topology_findings(graph@));
            return TopologyReport { findings, unanswered, figures: None };
        }
        let e = graph.e();
        let b = graph.betti_1();
        let cycles = graph.cycle_indices().len();
        let (c, stats) = self.analyze_components(graph);
        push_finding(&mut findings, betti_finding_of(v, e, c, b));
        push_finding(&mut findings, complexity_finding_of(cycles));
        push_finding(&mut findings, connectivity_finding_of(c));
        if c > 1 {
            unanswered.push("Cross-component trust relationships cannot be analyzed".to_owned());
        }
        assert(texts_of(unanswered@) =~= topology_questions(graph@));
        let ghost head = seq![
            betti_finding(v as nat, e as nat, c as nat),
            complexity_finding(cycles as nat),
            connectivity_finding(c as nat),
        ];
        assert(findings_of(findings@) =~= head);
        let mut k: usize = 0;
        while k < stats.len()
            invariant
                k <= stats@.len(),
                stats@.len() == component_order(graph@).len(),
                forall|q: int|
                    0 <= q < stats@.len() ==> stats_match(
                        #[trigger] stats@[q],
                        graph@,
                        component_order(graph@)[q],
                    ),
                findings_of(findings@) == head + component_findings(graph@).take(k as int),
            decreases stats@.len() - k,
        {
            let f = component_finding_of(k, &stats[k]);
            assert(f@ == component_findings(graph@)[k as int]);
            push_finding(&mut findings, f);
            assert(component_findings(graph@).take(k as int).push(f@) =~= component_findings(
                graph@,
            ).take(k as int + 1));
            k = k + 1;
        }
        assert(component_findings(graph@).take(k as int) =~= component_findings(graph@));
        proof {
            lemma_topology_claims(graph@);
            if c > 1 {
                assert(texts_of(unanswered@)[0] == "Cross-component trust relationships cannot be analyzed"@);
            }
        }
        let figures = TopologyFigures { components: c, betti_1: b, cycles, component_stats: stats };
        TopologyReport { findings, unanswered, figures: Some(figures) }
    }
}

} // verus!

//! S4, the systems specialist: rigidity by Laman's theorem (E = 2V − 3 for
//! generic rigidity in the plane, with no subgraph on k vertices holding more
//! than 2k − 3 edges).
use vstd::prelude::*;

use crate::connectivity::{
    component_order, edges_within, is_component_listing, lemma_listed_component_closed,
};
use crate::cycles::{built_basis, is_redundant_label};
use crate::graph::{SpreadGraph, GraphView};
use crate::report::{Finding, FindingView, findings_of, finding_with, push_finding, single};
use crate::topological::{begins_with, lemma_begins_with};
use crate::text::{decimal, i64_text, signed_decimal, texts_of, usize_text};

verus! {

/// All `k`-element subsequences of `s`, in lexicographic order of positions.
pub open spec fn combos(s: Seq<usize>, k: nat) -> Seq<Seq<usize>>
    decreases s.len(),
{
    if k == 0 {
        seq![Seq::empty()]
    } else if s.len() == 0 {
        Seq::empty()
    } else {
        combos(s.drop_first(), (k - 1) as nat).map_values(|c: Seq<usize>| seq![s[0]] + c) + combos(
            s.drop_first(),
            k,
        )
    }
}

/// The views of a list of vectors.
pub open spec fn seqs_of(vs: Seq<Vec<usize>>) -> Seq<Seq<usize>> {
    vs.map_values(|v: Vec<usize>| v@)
}

/// `prefix` put in front of every sequence of `cs`.
pub open spec fn prefixed(prefix: Seq<usize>, cs: Seq<Seq<usize>>) -> Seq<Seq<usize>> {
    cs.map_values(|c: Seq<usize>| prefix + c)
}

/// The positions `0, 1, ..., n - 1`.
pub open spec fn index_seq(n: nat) -> Seq<usize> {
    Seq::new(n, |i: int| i as usize)
}

/// Node `x` is the node of one of the listed vertices chosen by `combo`.
pub open spec fn in_subset(g: GraphView, combo: Seq<usize>, x: usize) -> bool {
    exists|t: int| 0 <= t < combo.len() && g.vertices[#[trigger] combo[t] as int] == x
}

/// Number of edges among the first `j` with both ends in the chosen subset.
pub open spec fn induced_count(g: GraphView, combo: Seq<usize>, j: int) -> nat
    decreases j,
{
    if j <= 0 {
        0
    } else {
        induced_count(g, combo, j - 1) + if in_subset(g, combo, g.edges[j - 1].0) && in_subset(
            g,
            combo,
            g.edges[j - 1].1,
        ) {
            1nat
        } else {
            0nat
        }
    }
}

/// Number of edges with both ends in the chosen subset.
pub open spec fn induced_edges(g: GraphView, combo: Seq<usize>) -> nat {
    induced_count(g, combo, g.edges.len() as int)
}

/// "Subgraph with {size} vertices has {edges} edges (expected ≤ {expected})".
pub open spec fn violation_msg(size: nat, edges: nat, expected: nat) -> Seq<char> {
    "Subgraph with "@ + decimal(size) + " vertices has "@ + decimal(edges)
        + " edges (expected ≤ "@ + decimal(expected) + ")"@
}

/// Messages for the subsets among `cs` (each of `size` vertices) that hold
/// more than 2·size − 3 edges, in order.
pub open spec fn size_violations(g: GraphView, size: nat, cs: Seq<Seq<usize>>) -> Seq<Seq<char>>
    decreases cs.len(),
{
    if cs.len() == 0 {
        Seq::empty()
    } else {
        let prev = size_violations(g, size, cs.drop_last());
        let m = induced_edges(g, cs.last());
        if m > 2 * size - 3 {
            prev.push(violation_msg(size, m, (2 * size - 3) as nat))
        } else {
            prev
        }
    }
}

/// Violations of Laman's subgraph condition over all vertex subsets of
/// sizes 2 up to `size - 1`, smaller sizes first.
pub open spec fn laman_violations_below(g: GraphView, size: nat) -> Seq<Seq<char>>
    decreases size,
{
    if size <= 2 {
        Seq::empty()
    } else {
        laman_violations_below(g, (size - 1) as nat) + size_violations(
            g,
            (size - 1) as nat,
            combos(index_seq(g.vertices.len()), (size - 1) as nat),
        )
    }
}

/// Violations of Laman's subgraph condition over all subsets of listed
/// vertices with at least two members.
pub open spec fn laman_violations(g: GraphView) -> Seq<Seq<char>> {
    laman_violations_below(g, g.vertices.len() + 1)
}

/// "E={e} ≠ 2V-3={count}".
pub open spec fn count_mismatch_msg(e: int, count: int) -> Seq<char> {
    "E="@ + signed_decimal(e) + " ≠ 2V-3="@ + signed_decimal(count)
}

/// "E={e} = 2V-3={count}, all subgraphs valid".
pub open spec fn rigid_msg(e: int, count: int) -> Seq<char> {
    "E="@ + signed_decimal(e) + " = 2V-3="@ + signed_decimal(count) + ", all subgraphs valid"@
}


/// Laman's verdict on a graph, with its reasons: not rigid when E ≠ 2V − 3;
/// else rigid when no subset of two or more listed vertices breaks the
/// subgraph condition, not rigid with the violations otherwise.
pub open spec fn laman_verdict(g: GraphView) -> (bool, Seq<Seq<char>>) {
    let v = g.vertices.len() as int;
    let e = g.edges.len() as int;
    let count = 2 * v - 3;
    if e != count {
        (false, seq![count_mismatch_msg(e, count)])
    } else if laman_violations(g).len() == 0 {
        (true, seq![rigid_msg(e, count)])
    } else {
        (false, laman_violations(g))
    }
}

/// Rigidity of a connected component by Laman's count.
#[derive(PartialEq, Eq, Structural, Clone, Copy, Debug)]
pub enum RigidityStatus {
    TooSmall,
    UnderConstrained,
    Rigid,
    OverConstrained,
}

impl RigidityStatus {
    /// "too_small", "under_constrained", "rigid" or "over_constrained".
    pub fn name(&self) -> (s: &'static str)
        ensures
            s@ == rigidity_status_name(*self),
    {
        match self {
            RigidityStatus::TooSmall => "too_small",
            RigidityStatus::UnderConstrained => "under_constrained",
            RigidityStatus::Rigid => "rigid",
            RigidityStatus::OverConstrained => "over_constrained",
        }
    }
}

/// The name of a rigidity status.
pub open spec fn rigidity_status_name(s: RigidityStatus) -> Seq<char> {
    match s {
        RigidityStatus::TooSmall => "too_small"@,
        RigidityStatus::UnderConstrained => "under_constrained"@,
        RigidityStatus::Rigid => "rigid"@,
        RigidityStatus::OverConstrained => "over_constrained"@,
    }
}

/// Laman's count for a component of `v` nodes (0 below two nodes).
pub open spec fn component_laman_count(v: nat) -> nat {
    if v >= 2 {
        (2 * v - 3) as nat
    } else {
        0
    }
}

/// Status of a component of `v` nodes and `e` edges: too small below three
/// nodes (or with a zero count), then under, at, or over Laman's count.
pub open spec fn rigidity_status(v: nat, e: nat) -> RigidityStatus {
    let count = component_laman_count(v);
    if v < 3 {
        RigidityStatus::TooSmall
    } else if count == 0 {
        RigidityStatus::TooSmall
    } else if e < count {
        RigidityStatus::UnderConstrained
    } else if e == count {
        RigidityStatus::Rigid
    } else {
        RigidityStatus::OverConstrained
    }
}

/// Rigidity figures of one connected component.
pub struct ComponentRigidity {
    pub vertices: usize,
    pub edges: usize,
    pub lamancount: usize,
    pub status: RigidityStatus,
    pub vertices_list: Vec<String>,
}

/// The figures of the component whose nodes are `c`.
pub open spec fn rigidity_match(r: ComponentRigidity, g: GraphView, c: Seq<usize>) -> bool {
    &&& r.vertices == c.len()
    &&& r.edges == edges_within(g.edges, c)
    &&& r.lamancount == component_laman_count(c.len())
    &&& r.status == rigidity_status(c.len(), edges_within(g.edges, c))
    &&& r.vertices_list@.len() == c.len()
    &&& forall|t: int| 0 <= t < c.len() ==> (#[trigger] r.vertices_list@[t])@ == g.names[c[t] as int]
}

/// The rigidity status of a component of `v` nodes and `e` edges: too small
/// below three nodes; otherwise under-constrained below 2V − 3 edges, rigid
/// at exactly 2V − 3, over-constrained above.
pub proof fn law_rigidity_status(v: nat, e: nat)
    ensures
        v < 3 ==> rigidity_status(v, e) == RigidityStatus::TooSmall,
        v >= 3 && e + 3 < 2 * v ==> rigidity_status(v, e) == RigidityStatus::UnderConstrained,
        v >= 3 && e + 3 == 2 * v ==> rigidity_status(v, e) == RigidityStatus::Rigid,
        v >= 3 && e + 3 > 2 * v ==> rigidity_status(v, e) == RigidityStatus::OverConstrained,
{
}

/// The figures of a component agree with its status: a component of three
/// nodes or more is rigid only with exactly 2V − 3 edges, over-constrained
/// with more and under-constrained with fewer; its count is 2V − 3.
pub proof fn law_component_rigidity(r: ComponentRigidity, g: GraphView, c: Seq<usize>)
    requires
        rigidity_match(r, g, c),
    ensures
        r.vertices >= 3 ==> r.lamancount + 3 == 2 * r.vertices,
        r.vertices >= 3 && r.edges + 3 > 2 * r.vertices ==> r.status == RigidityStatus::OverConstrained,
        r.vertices >= 3 && r.edges + 3 == 2 * r.vertices ==> r.status == RigidityStatus::Rigid,
        r.vertices >= 3 && r.edges + 3 < 2 * r.vertices ==> r.status == RigidityStatus::UnderConstrained,
        r.vertices < 3 ==> r.status == RigidityStatus::TooSmall,
{
    law_rigidity_status(r.vertices as nat, r.edges as nat);
}

/// Laman's test finds a graph rigid exactly when E = 2V − 3 and no subset
/// of two or more listed vertices breaks the subgraph condition, so never
/// with any other edge count; it always gives a reason.
pub proof fn law_laman_verdict(g: GraphView)
    ensures
        laman_verdict(g).0 <==> (g.edges.len() + 3 == 2 * g.vertices.len() && laman_violations(g).len() == 0),
        laman_verdict(g).1.len() >= 1,
{
}

/// The claim on Laman's count: Laman-rigid when the verdict says so,
/// otherwise over-constrained above 2V − 3 edges and under-constrained at
/// or below; the reasons of the verdict are its evidence.
pub proof fn law_rigidity_claim(v: nat, e: nat, verdict: (bool, Seq<Seq<char>>))
    ensures
        verdict.0 ==> begins_with(rigidity_finding(v, e, verdict).claim, "Graph is Laman-rigid: E="@),
        !verdict.0 && e + 3 > 2 * v ==> begins_with(
            rigidity_finding(v, e, verdict).claim,
            "Graph is over-constrained: E="@,
        ),
        !verdict.0 && e + 3 <= 2 * v ==> begins_with(
            rigidity_finding(v, e, verdict).claim,
            "Graph is under-constrained: E="@,
        ),
        rigidity_finding(v, e, verdict).evidence == verdict.1,
{
    let count = 2 * v - 3;
    let cl = rigidity_finding(v, e, verdict).claim;
    if verdict.0 {
        lemma_begins_with("Graph is Laman-rigid: E="@, decimal(e) + " = 2V-3="@ + signed_decimal(count));
        assert("Graph is Laman-rigid: E="@ + (decimal(e) + " = 2V-3="@ + signed_decimal(count)) =~= cl);
    } else if e > count {
        lemma_begins_with("Graph is over-constrained: E="@, decimal(e) + " > 2V-3="@ + signed_decimal(count));
        assert("Graph is over-constrained: E="@ + (decimal(e) + " > 2V-3="@ + signed_decimal(count)) =~= cl);
    } else {
        lemma_begins_with("Graph is under-constrained: E="@, decimal(e) + " < 2V-3="@ + signed_decimal(count));
        assert("Graph is under-constrained: E="@ + (decimal(e) + " < 2V-3="@ + signed_decimal(count)) =~= cl);
    }
}

/// The systems specialist.
pub struct SystemsSpecialist {
    rigidity_threshold: i64,
}

/// The first combination grows by one element in front.
proof fn lemma_combos_step(s: Seq<usize>, k: nat)
    requires
        k >= 1,
        s.len() >= 1,
    ensures
        combos(s, k) == combos(s.drop_first(), (k - 1) as nat).map_values(
            |c: Seq<usize>| seq![s[0]] + c,
        ) + combos(s.drop_first(), k),
{
}

impl SystemsSpecialist {
    /// Threshold for rigidity (0 by default).
    pub closed spec fn spec_rigidity_threshold(&self) -> i64 {
        self.rigidity_threshold
    }

    /// A systems specialist with threshold 0.
    pub fn new() -> (s: Self)
        ensures
            s.spec_rigidity_threshold() == 0,
    {
        SystemsSpecialist { rigidity_threshold: 0 }
    }

    /// The rigidity threshold.
    pub fn rigidity_threshold(&self) -> (r: i64)
        ensures
            r == self.spec_rigidity_threshold(),
    {
        self.rigidity_threshold
    }

    /// All `k`-element selections from `arr`, keeping `arr`'s order, listed
    /// in lexicographic order of positions.
    pub fn combinations(&self, arr: &[usize], k: usize) -> (r: Vec<Vec<usize>>)
        ensures
            seqs_of(r@) == combos(arr@, k as nat),
    {
        let mut result: Vec<Vec<usize>> = Vec::new();
        let mut current: Vec<usize> = Vec::new();
        self.combinations_helper(arr, k, 0, &mut current, &mut result);
        assert(arr@.skip(0) =~= arr@);
        assert(prefixed(Seq::empty(), combos(arr@, k as nat)) =~= combos(arr@, k as nat)) by {
            assert forall|i: int| 0 <= i < combos(arr@, k as nat).len() implies #[trigger] prefixed(
                Seq::empty(),
                combos(arr@, k as nat),
            )[i] == combos(arr@, k as nat)[i] by {
                assert(Seq::<usize>::empty() + combos(arr@, k as nat)[i] =~= combos(
                    arr@,
                    k as nat,
                )[i]);
            }
        }
        assert(seqs_of(result@) =~= seqs_of(Seq::empty()) + prefixed(
            Seq::empty(),
            combos(arr@, k as nat),
        ));
        result
    }

    /// Append to `result`, after what it holds, every completion of
    /// `current` to `k` elements by picks from `arr[start..]`, in
    /// lexicographic order; `current` comes back unchanged.
    pub fn combinations_helper(
        &self,
        arr: &[usize],
        k: usize,
        start: usize,
        current: &mut Vec<usize>,
        result: &mut Vec<Vec<usize>>,
    )
        requires
            start <= arr@.len(),
            old(current)@.len() <= k,
        ensures
            final(current)@ == old(current)@,
            seqs_of(final(result)@) == seqs_of(old(result)@) + prefixed(
                old(current)@,
                combos(arr@.skip(start as int), (k - old(current)@.len()) as nat),
            ),
        decreases arr@.len() - start,
    {
        let ghost cur0 = current@;
        let ghost res0 = result@;
        if current.len() == k {
            let mut copy: Vec<usize> = Vec::new();
            let mut t: usize = 0;
            while t < current.len()
                invariant
                    t <= current@.len(),
                    copy@ == current@.take(t as int),
                decreases current@.len() - t,
            {
                copy.push(current[t]);
                assert(copy@ =~= current@.take(t + 1));
                t = t + 1;
            }
            assert(current@.take(current@.len() as int) =~= current@);
            result.push(copy);
            assert(prefixed(cur0, combos(arr@.skip(start as int), 0)) =~= seq![cur0]) by {
                assert(cur0 + Seq::<usize>::empty() =~= cur0);
            }
            assert(seqs_of(result@) =~= seqs_of(res0) + seq![cur0]);
            return;
        }
        let ghost m: nat = (k - cur0.len()) as nat;
        let ghost mut done: Seq<Seq<usize>> = Seq::empty();
        let mut i: usize = start;
        assert(done + combos(arr@.skip(i as int), m) =~= combos(arr@.skip(start as int), m));
        while i < arr.len()
            invariant
                start <= i <= arr@.len(),
                current@ == cur0,
                cur0.len() < k,
                m == k - cur0.len(),
                m >= 1,
                seqs_of(result@) == seqs_of(res0) + prefixed(cur0, done),
                done + combos(arr@.skip(i as int), m) == combos(arr@.skip(start as int), m),
            decreases arr@.len() - i,
        {
            let a = arr[i];
            current.push(a);
            let ghost mid = result@;
            self.combinations_helper(arr, k, i + 1, current, result);
            let _ = current.pop();
            proof {
                let s = arr@.skip(i as int);
                assert(s.drop_first() =~= arr@.skip(i + 1));
                assert(s[0] == a);
                lemma_combos_step(s, m);
                let sub = combos(arr@.skip(i + 1), (m - 1) as nat);
                let p = sub.map_values(|c: Seq<usize>| seq![a] + c);
                assert(current@ =~= cur0);
                assert(prefixed(cur0.push(a), sub) =~= prefixed(cur0, p)) by {
                    assert forall|t: int| 0 <= t < sub.len() implies #[trigger] prefixed(
                        cur0.push(a),
                        sub,
                    )[t] == prefixed(cur0, p)[t] by {
                        assert(cur0.push(a) + sub[t] =~= cur0 + (seq![a] + sub[t]));
                    }
                }
                assert(prefixed(cur0, done + p) =~= prefixed(cur0, done) + prefixed(cur0, p));
                assert(seqs_of(res0) + prefixed(cur0, done) + prefixed(cur0, p) =~= seqs_of(res0)
                    + prefixed(cur0, done + p));
                assert((done + p) + combos(arr@.skip(i + 1), m) =~= done + (p + combos(
                    arr@.skip(i + 1),
                    m,
                )));
                done = done + p;
            }
            i = i + 1;
        }
        proof {
            assert(arr@.skip(i as int) =~= Seq::<usize>::empty());
            assert(combos(arr@.skip(i as int), m) =~= Seq::<Seq<usize>>::empty());
            assert(done + Seq::<Seq<usize>>::empty() =~= done);
        }
    }
}

/// Every member of a combination of `s` is a member of `s`.
proof fn lemma_combos_members(s: Seq<usize>, k: nat)
    ensures
        forall|i: int, t: int|
            0 <= i < combos(s, k).len() && 0 <= t < combos(s, k)[i].len() ==> s.contains(
                #[trigger] combos(s, k)[i][t],
            ),
    decreases s.len(),
{
    if k == 0 {
    } else if s.len() == 0 {
    } else {
        let rest = s.drop_first();
        lemma_combos_members(rest, (k - 1) as nat);
        lemma_combos_members(rest, k);
        let a = combos(rest, (k - 1) as nat).map_values(|c: Seq<usize>| seq![s[0]] + c);
        let b = combos(rest, k);
        assert forall|i: int, t: int|
            0 <= i < combos(s, k).len() && 0 <= t < combos(s, k)[i].len() implies s.contains(
            #[trigger] combos(s, k)[i][t],
        ) by {
            if i < a.len() {
                let c = combos(rest, (k - 1) as nat)[i];
                assert(combos(s, k)[i] == seq![s[0]] + c);
                if t == 0 {
                    assert(s[0] == combos(s, k)[i][t]);
                } else {
                    assert(combos(s, k)[i][t] == c[t - 1]);
                    assert(rest.contains(c[t - 1]));
                    let r = choose|r: int| 0 <= r < rest.len() && rest[r] == c[t - 1];
                    assert(s[r + 1] == rest[r]);
                }
            } else {
                assert(combos(s, k)[i] == b[i - a.len()]);
                assert(rest.contains(b[i - a.len()][t]));
                let r = choose|r: int| 0 <= r < rest.len() && rest[r] == b[i - a.len()][t];
                assert(s[r + 1] == rest[r]);
            }
        }
    }
}

impl SystemsSpecialist {
    /// Some vertex chosen by `combo` stands for node `x`.
    fn subset_has(vertex_nodes: &Vec<usize>, combo: &Vec<usize>, x: usize) -> (r: bool)
        requires
            forall|t: int| 0 <= t < combo@.len() ==> #[trigger] combo@[t] < vertex_nodes@.len(),
        ensures
            r == exists|t: int| 0 <= t < combo@.len() && vertex_nodes@[#[trigger] combo@[t] as int] == x,
    {
        let mut t: usize = 0;
        while t < combo.len()
            invariant
                t <= combo@.len(),
                forall|t: int| 0 <= t < combo@.len() ==> #[trigger] combo@[t] < vertex_nodes@.len(),
                forall|u: int| 0 <= u < t ==> vertex_nodes@[#[trigger] combo@[u] as int] != x,
            decreases combo@.len() - t,
        {
            if vertex_nodes[combo[t]] == x {
                return true;
            }
            t = t + 1;
        }
        false
    }

    /// Number of edges with both ends among the vertices chosen by `combo`.
    fn induced_edge_count(graph: &SpreadGraph, combo: &Vec<usize>) -> (m: usize)
        requires
            forall|t: int| 0 <= t < combo@.len() ==> #[trigger] combo@[t] < graph@.vertices.len(),
        ensures
            m == induced_edges(graph@, combo@),
    {
        let vn = graph.vertex_nodes();
        let en = graph.edge_nodes();
        let mut m: usize = 0;
        let mut j: usize = 0;
        while j < en.len()
            invariant
                vn@ == graph@.vertices,
                en@ == graph@.edges,
                forall|t: int| 0 <= t < combo@.len() ==> #[trigger] combo@[t] < vn@.len(),
                j <= en@.len(),
                m <= j,
                m == induced_count(graph@, combo@, j as int),
            decreases en@.len() - j,
        {
            let (a, b) = en[j];
            if Self::subset_has(vn, combo, a) && Self::subset_has(vn, combo, b) {
                m = m + 1;
            }
            j = j + 1;
        }
        m
    }

    /// "Subgraph with {size} vertices has {edges} edges (expected ≤ {expected})".
    fn violation_text(size: usize, edges: usize, expected: usize) -> (s: String)
        ensures
            s@ == violation_msg(size as nat, edges as nat, expected as nat),
    {
        let mut s = String::new();
        s.append("Subgraph with ");
        s.append(usize_text(size).as_str());
        s.append(" vertices has ");
        s.append(usize_text(edges).as_str());
        s.append(" edges (expected ≤ ");
        s.append(usize_text(expected).as_str());
        s.append(")");
        s
    }

    /// Subsets of two or more listed vertices that hold more than
    /// 2k − 3 edges among their k members, smaller subsets first and, within
    /// a size, in lexicographic order of vertex positions.
    pub fn check_laman_subgraphs(&self, graph: &SpreadGraph) -> (violations: Vec<String>)
        requires
            2 * graph@.vertices.len() <= usize::MAX,
        ensures
            texts_of(violations@) == laman_violations(graph@),
    {
        let ghost g = graph@;
        let v_count = graph.v();
        let mut violations: Vec<String> = Vec::new();
        let mut indices: Vec<usize> = Vec::new();
        let mut t: usize = 0;
        while t < v_count
            invariant
                t <= v_count,
                indices@ == index_seq(t as nat),
            decreases v_count - t,
        {
            indices.push(t);
            assert(indices@ =~= index_seq((t + 1) as nat));
            t = t + 1;
        }
        let mut size: usize = 2;
        assert(texts_of(violations@) =~= laman_violations_below(g, 2));
        while size <= v_count
            invariant
                g == graph@,
                v_count == g.vertices.len(),
                2 * v_count <= usize::MAX,
                2 <= size,
                size <= v_count + 1 || size == 2,
                indices@ == index_seq(v_count as nat),
                texts_of(violations@) == laman_violations_below(g, size as nat),
            decreases v_count + 2 - size,
        {
            let cs = self.combinations(indices.as_slice(), size);
            proof {
                lemma_combos_members(indices@, size as nat);
            }
            let expected = 2 * size - 3;
            let ghost base = violations@;
            let mut c: usize = 0;
            while c < cs.len()
                invariant
                    g == graph@,
                    v_count == g.vertices.len(),
                    indices@ == index_seq(v_count as nat),
                    seqs_of(cs@) == combos(indices@, size as nat),
                    forall|i: int, t: int|
                        0 <= i < combos(indices@, size as nat).len() && 0 <= t < combos(
                            indices@,
                            size as nat,
                        )[i].len() ==> indices@.contains(
                            #[trigger] combos(indices@, size as nat)[i][t],
                        ),
                    expected == 2 * size - 3,
                    c <= cs@.len(),
                    texts_of(violations@) == texts_of(base) + size_violations(
                        g,
                        size as nat,
                        seqs_of(cs@).take(c as int),
                    ),
                decreases cs@.len() - c,
            {
                let combo = &cs[c];
                assert(combo@ == seqs_of(cs@)[c as int]);
                assert forall|t: int| 0 <= t < combo@.len() implies #[trigger] combo@[t]
                    < graph@.vertices.len() by {
                    assert(combo@[t] == combos(indices@, size as nat)[c as int][t]);
                    assert(indices@.contains(combo@[t]));
                }
                let sub_edges = Self::induced_edge_count(graph, combo);
                let ghost before = violations@;
                if sub_edges > expected {
                    let msg = Self::violation_text(size, sub_edges, expected);
                    violations.push(msg);
                    assert(texts_of(violations@) =~= texts_of(before).push(
                        violation_msg(size as nat, sub_edges as nat, expected as nat),
                    ));
                } else {
                    assert(texts_of(violations@) == texts_of(before));
                }
                proof {
                    let tk = seqs_of(cs@).take(c + 1);
                    assert(tk.drop_last() =~= seqs_of(cs@).take(c as int));
                    assert(tk.last() == combo@);
                    assert(texts_of(violations@) =~= texts_of(base) + size_violations(
                        g,
                        size as nat,
                        tk,
                    ));
                }
                c = c + 1;
            }
            proof {
                assert(seqs_of(cs@).take(cs@.len() as int) =~= seqs_of(cs@));
                assert(laman_violations_below(g, (size + 1) as nat) == laman_violations_below(
                    g,
                    size as nat,
                ) + size_violations(g, size as nat, combos(index_seq(g.vertices.len()), size as nat)));
            }
            size = size + 1;
        }
        assert(laman_violations(g) == laman_violations_below(g, size as nat));
        violations
    }

    /// Laman rigidity: E = 2V − 3 and no subset of k ≥ 2 listed vertices
    /// holds more than 2k − 3 edges; with the reasons.
    pub fn is_laman_rigid(&self, graph: &SpreadGraph) -> (r: (bool, Vec<String>))
        requires
            2 * graph@.vertices.len() <= usize::MAX,
            2 * graph@.vertices.len() <= i64::MAX,
            graph@.edges.len() <= i64::MAX,
        ensures
            r.0 == laman_verdict(graph@).0,
            texts_of(r.1@) == laman_verdict(graph@).1,
    {
        let v = graph.v() as i64;
        let e = graph.e() as i64;
        let lamancount = 2 * v - 3;
        if e != lamancount {
            let mut s = String::new();
            s.append("E=");
            s.append(i64_text(e).as_str());
            s.append(" ≠ 2V-3=");
            s.append(i64_text(lamancount).as_str());
            let mut out: Vec<String> = Vec::new();
            out.push(s);
            assert(texts_of(out@) =~= seq![count_mismatch_msg(e as int, lamancount as int)]);
            return (false, out);
        }
        let violations = self.check_laman_subgraphs(graph);
        if violations.len() == 0 {
            let mut s = String::new();
            s.append("E=");
            s.append(i64_text(e).as_str());
            s.append(" = 2V-3=");
            s.append(i64_text(lamancount).as_str());
            s.append(", all subgraphs valid");
            let mut out: Vec<String> = Vec::new();
            out.push(s);
            assert(texts_of(out@) =~= seq![rigid_msg(e as int, lamancount as int)]);
            (true, out)
        } else {
            (false, violations)
        }
    }
}

impl SystemsSpecialist {
    /// Rigidity figures of every connected component, in the order of
    /// their first listed vertex; each lists its agents in depth-first order.
    pub fn analyze_rigid_components(&self, graph: &SpreadGraph) -> (r: Vec<ComponentRigidity>)
        requires
            graph.wf(),
            2 * (graph@.vertices.len() + 2 * graph@.edges.len()) <= usize::MAX,
        ensures
            r@.len() == component_order(graph@).len(),
            forall|k: int|
                0 <= k < r@.len() ==> rigidity_match(
                    #[trigger] r@[k],
                    graph@,
                    component_order(graph@)[k],
                ),
    {
        let comps = graph.component_lists();
        let ghost cv = comps@.map_values(|c: Vec<usize>| c@);
        let names = graph.node_names();
        let mut out: Vec<ComponentRigidity> = Vec::new();
        let mut k: usize = 0;
        while k < comps.len()
            invariant
                graph.wf(),
                2 * (graph@.vertices.len() + 2 * graph@.edges.len()) <= usize::MAX,
                names@.len() == graph@.names.len(),
                forall|q: int| 0 <= q < names@.len() ==> (#[trigger] names@[q])@ == graph@.names[q],
                cv == comps@.map_values(|c: Vec<usize>| c@),
                cv == component_order(graph@),
                is_component_listing(graph@, cv),
                k <= comps@.len(),
                out@.len() == k,
                forall|q: int| 0 <= q < k ==> rigidity_match(#[trigger] out@[q], graph@, cv[q]),
            decreases comps@.len() - k,
        {
            let comp = &comps[k];
            proof {
                graph.lemma_wf();
                assert(cv[k as int] == comp@);
                lemma_listed_component_closed(graph@, cv, k as int);
                crate::connectivity::lemma_no_dup_len_bound(comp@, graph@.node_count());
            }
            let v = comp.len();
            let e = graph.count_edges_within(comp);
            let lamancount: usize = if v >= 2 {
                2 * v - 3
            } else {
                0
            };
            let status = if v < 3 {
                RigidityStatus::TooSmall
            } else if lamancount == 0 {
                RigidityStatus::TooSmall
            } else if e < lamancount {
                RigidityStatus::UnderConstrained
            } else if e == lamancount {
                RigidityStatus::Rigid
            } else {
                RigidityStatus::OverConstrained
            };
            let mut list: Vec<String> = Vec::new();
            let mut t: usize = 0;
            while t < comp.len()
                invariant
                    t <= comp@.len(),
                    forall|u: int| 0 <= u < comp@.len() ==> #[trigger] comp@[u] < names@.len(),
                    forall|q: int| 0 <= q < names@.len() ==> (#[trigger] names@[q])@ == graph@.names[q],
                    list@.len() == t,
                    forall|u: int| 0 <= u < t ==> (#[trigger] list@[u])@ == graph@.names[comp@[u] as int],
                decreases comp@.len() - t,
            {
                list.push(names[comp[t]].clone());
                t = t + 1;
            }
            out.push(ComponentRigidity { vertices: v, edges: e, lamancount, status, vertices_list: list });
            k = k + 1;
        }
        out
    }
}


/// `d` is the largest degree of a node (0 without nodes).
pub open spec fn is_max_degree(g: GraphView, d: nat) -> bool {
    &&& forall|u: usize| u < g.node_count() ==> g.degree_of(u) <= d
    &&& g.node_count() == 0 ==> d == 0
    &&& g.node_count() > 0 ==> exists|u: usize| u < g.node_count() && #[trigger] g.degree_of(u) == d
}

/// The largest degree of a node (0 without nodes).
pub open spec fn max_degree_of(g: GraphView) -> nat {
    choose|d: nat| is_max_degree(g, d)
}

/// The largest degree is unique.
pub proof fn lemma_max_degree_unique(g: GraphView, d: nat)
    requires
        is_max_degree(g, d),
    ensures
        max_degree_of(g) == d,
{
    let m = max_degree_of(g);
    assert(is_max_degree(g, m));
    if g.node_count() > 0 {
        let u = choose|u: usize| u < g.node_count() && #[trigger] g.degree_of(u) == d;
        let w = choose|w: usize| w < g.node_count() && #[trigger] g.degree_of(w) == m;
        assert(g.degree_of(u) <= m);
        assert(g.degree_of(w) <= d);
    }
}

/// The labels of the redundant edges: both directions of every step along
/// the cycles of the cycle basis `cs`.
pub open spec fn redundant_labels(g: GraphView, cs: Seq<Seq<usize>>) -> Set<Seq<char>> {
    Set::new(|x: Seq<char>| is_redundant_label(g, cs, x))
}

/// Components of `comps` with the given rigidity status.
pub open spec fn status_count(g: GraphView, comps: Seq<Seq<usize>>, st: RigidityStatus) -> nat
    decreases comps.len(),
{
    if comps.len() == 0 {
        0
    } else {
        let c = comps.last();
        status_count(g, comps.drop_last(), st) + if rigidity_status(c.len(), edges_within(g.edges, c))
            == st {
            1nat
        } else {
            0nat
        }
    }
}

/// The finding on Laman's count: rigid, over- or under-constrained, backed
/// by the reasons of the verdict.
pub open spec fn rigidity_finding(v: nat, e: nat, verdict: (bool, Seq<Seq<char>>)) -> FindingView {
    let count = 2 * v - 3;
    if verdict.0 {
        FindingView {
            claim: "Graph is Laman-rigid: E="@ + decimal(e) + " = 2V-3="@ + signed_decimal(count),
            confidence: 900,
            evidence: verdict.1,
        }
    } else if e > count {
        FindingView {
            claim: "Graph is over-constrained: E="@ + decimal(e) + " > 2V-3="@ + signed_decimal(count),
            confidence: 850,
            evidence: verdict.1,
        }
    } else {
        FindingView {
            claim: "Graph is under-constrained: E="@ + decimal(e) + " < 2V-3="@ + signed_decimal(count),
            confidence: 850,
            evidence: verdict.1,
        }
    }
}

/// The finding on the largest degree against the average 2E / V.
pub open spec fn max_degree_finding(v: nat, e: nat, d: nat) -> FindingView {
    single(
        "Max vertex degree: "@ + decimal(d) + " (expected: ~"@ + decimal((2 * e) / v) + ")"@,
        700,
        "V="@ + decimal(v) + ", E="@ + decimal(e),
    )
}

/// The finding on over-constrained nodes, `share` telling their share.
pub open spec fn over_finding(n: nat, share: Seq<char>) -> FindingView {
    single(
        decimal(n) + " nodes are over-constrained (high degree relative to average)"@,
        750,
        share,
    )
}

/// The finding on the rigidity of the components.
pub open spec fn components_finding(g: GraphView) -> FindingView {
    let comps = component_order(g);
    single(
        "Component analysis: "@ + decimal(status_count(g, comps, RigidityStatus::Rigid)) + " rigid, "@
            + decimal(status_count(g, comps, RigidityStatus::UnderConstrained)) + " under, "@
            + decimal(status_count(g, comps, RigidityStatus::OverConstrained)) + " over"@,
        800,
        decimal(comps.len()) + " total components"@,
    )
}

/// The finding on redundant edges, `n` of them.
pub open spec fn redundant_finding(n: nat) -> FindingView {
    single(
        decimal(n) + " redundant edges detected (not needed for rigidity)"@,
        700,
        "Edges in cycle basis but not in minimal rigidity subgraph"@,
    )
}

/// The systems findings on a graph, given how many nodes are
/// over-constrained and their share in words, and with `cs` its cycle
/// basis: with fewer than three listed
/// vertices, only that it is too small; else Laman's verdict, the largest
/// degree, then, where there are any, the over-constrained nodes, the
/// components (when more than one) and the redundant edges.
pub open spec fn systems_findings(g: GraphView, over: nat, share: Seq<char>, cs: Seq<Seq<usize>>) -> Seq<FindingView> {
    let v = g.vertices.len();
    let e = g.edges.len();
    if v < 3 {
        seq![single("Graph has insufficient vertices for Laman rigidity (V < 3)"@, 900, "V = "@ + decimal(v))]
    } else {
        seq![rigidity_finding(v, e, laman_verdict(g)), max_degree_finding(v, e, max_degree_of(g))] + (
        if over > 0 {
            seq![over_finding(over, share)]
        } else {
            Seq::empty()
        }) + (if component_order(g).len() > 1 {
            seq![components_finding(g)]
        } else {
            Seq::empty()
        }) + (if redundant_labels(g, cs).len() > 0 {
            seq![redundant_finding(redundant_labels(g, cs).len())]
        } else {
            Seq::empty()
        })
    }
}

/// The questions a systems analysis leaves open.
pub open spec fn systems_questions(g: GraphView) -> Seq<Seq<char>> {
    if g.vertices.len() < 3 {
        seq!["Graph too small for rigidity analysis (V < 3)"@]
    } else {
        Seq::empty()
    }
}

/// The figures behind a systems analysis.
pub struct SystemsFigures {
    pub lamancount: usize,
    pub is_rigid: bool,
    pub max_degree: usize,
    pub max_degree_expected: usize,
    pub components: Vec<ComponentRigidity>,
    pub redundant_edges: usize,
}

/// What a systems analysis finds, the questions it leaves open, and, for a
/// graph of three or more listed vertices, its figures.
pub struct SystemsReport {
    pub findings: Vec<Finding>,
    pub unanswered: Vec<String>,
    pub figures: Option<SystemsFigures>,
}

/// The figures are those of the graph.
pub open spec fn systems_figures_match(f: SystemsFigures, g: GraphView, cs: Seq<Seq<usize>>) -> bool {
    &&& f.lamancount == 2 * g.vertices.len() - 3
    &&& f.is_rigid == laman_verdict(g).0
    &&& f.max_degree == max_degree_of(g)
    &&& f.max_degree_expected == (2 * g.edges.len()) / g.vertices.len()
    &&& f.components@.len() == component_order(g).len()
    &&& forall|k: int|
        0 <= k < f.components@.len() ==> rigidity_match(
            #[trigger] f.components@[k],
            g,
            component_order(g)[k],
        )
    &&& f.redundant_edges == redundant_labels(g, cs).len()
}

/// The finding on Laman's count, from the verdict.
fn rigidity_finding_of(v: usize, e: usize, is_rigid: bool, reasons: Vec<String>) -> (f: Finding)
    requires
        3 <= v,
        2 * v <= usize::MAX,
    ensures
        f@ == rigidity_finding(v as nat, e as nat, (is_rigid, texts_of(reasons@))),
{
    let count = 2 * v - 3;
    let mut s = String::new();
    if is_rigid {
        s.append("Graph is Laman-rigid: E=");
        s.append(usize_text(e).as_str());
        s.append(" = 2V-3=");
        s.append(usize_text(count).as_str());
        Finding { claim: s, confidence_permille: 900, evidence: reasons }
    } else if e > count {
        s.append("Graph is over-constrained: E=");
        s.append(usize_text(e).as_str());
        s.append(" > 2V-3=");
        s.append(usize_text(count).as_str());
        Finding { claim: s, confidence_permille: 850, evidence: reasons }
    } else {
        s.append("Graph is under-constrained: E=");
        s.append(usize_text(e).as_str());
        s.append(" < 2V-3=");
        s.append(usize_text(count).as_str());
        Finding { claim: s, confidence_permille: 850, evidence: reasons }
    }
}

/// The finding on the largest degree.
fn max_degree_finding_of(v: usize, e: usize, d: usize) -> (f: Finding)
    requires
        0 < v,
        2 * e <= usize::MAX,
    ensures
        f@ == max_degree_finding(v as nat, e as nat, d as nat),
{
    let mut s = String::new();
    s.append("Max vertex degree: ");
    s.append(usize_text(d).as_str());
    s.append(" (expected: ~");
    s.append(usize_text((2 * e) / v).as_str());
    s.append(")");
    let mut ev = String::new();
    ev.append("V=");
    ev.append(usize_text(v).as_str());
    ev.append(", E=");
    ev.append(usize_text(e).as_str());
    finding_with(s, 700, ev)
}

/// Number of `comps` with status `st`.
fn count_status(comps: &Vec<ComponentRigidity>, st: RigidityStatus, Ghost(g): Ghost<GraphView>) -> (n: usize)
    requires
        comps@.len() == component_order(g).len(),
        forall|k: int|
            0 <= k < comps@.len() ==> rigidity_match(#[trigger] comps@[k], g, component_order(g)[k]),
    ensures
        n == status_count(g, component_order(g), st),
{
    let ghost co = component_order(g);
    let mut n: usize = 0;
    let mut k: usize = 0;
    while k < comps.len()
        invariant
            k <= comps@.len(),
            co == component_order(g),
            comps@.len() == co.len(),
            forall|q: int| 0 <= q < comps@.len() ==> rigidity_match(#[trigger] comps@[q], g, co[q]),
            n == status_count(g, co.take(k as int), st),
            n <= k,
        decreases comps@.len() - k,
    {
        assert(co.take(k as int + 1).drop_last() =~= co.take(k as int));
        assert(co.take(k as int + 1).last() == co[k as int]);
        assert(rigidity_match(comps@[k as int], g, co[k as int]));
        if comps[k].status == st {
            n = n + 1;
        }
        k = k + 1;
    }
    assert(co.take(k as int) =~= co);
    n
}

impl SystemsSpecialist {
    /// The specialist's identifier, "systems".
    pub fn id(&self) -> (r: &'static str)
        ensures
            r@ == "systems"@,
    {
        "systems"
    }

    /// The systems analysis of a graph: its findings, the questions it
    /// leaves open and, with three or more listed vertices, its figures.
    /// `over_count` is the number of nodes found over-constrained and
    /// `over_share` their share of the vertices, in words.
    pub fn rigidity_report(&self, graph: &SpreadGraph, over_count: usize, over_share: String) -> (r: SystemsReport)
        requires
            graph.wf(),
            2 * (graph@.vertices.len() + 2 * graph@.edges.len()) <= usize::MAX,
            2 * graph@.vertices.len() <= i64::MAX,
            graph@.edges.len() <= i64::MAX,
        ensures
            findings_of(r.findings@) == systems_findings(
                graph@,
                over_count as nat,
                over_share@,
                built_basis(graph@),
            ),
            r.figures matches Some(f) ==> systems_figures_match(f, graph@, built_basis(graph@)),
            texts_of(r.unanswered@) == systems_questions(graph@),
            r.figures is None <==> graph@.vertices.len() < 3,
    {
        let v = graph.v();
        let e = graph.e();
        let mut findings: Vec<Finding> = Vec::new();
        let mut unanswered: Vec<String> = Vec::new();
        if v < 3 {
            unanswered.push("Graph too small for rigidity analysis (V < 3)".to_owned());
            let mut ev = String::new();
            ev.append("V = ");
            ev.append(usize_text(v).as_str());
            push_finding(
                &mut findings,
                finding_with("Graph has insufficient vertices for Laman rigidity (V < 3)".to_owned(), 900, ev),
            );
            assert(texts_of(unanswered@) =~= systems_questions(graph@));
            assert(findings_of(findings@) =~= systems_findings(graph@, over_count as nat, over_share@, built_basis(graph@)));
            return SystemsReport { findings, unanswered, figures: None };
        }
        let ghost g = graph@;
        let lamancount = 2 * v - 3;
        let (is_rigid, reasons) = self.is_laman_rigid(graph);
        push_finding(&mut findings, rigidity_finding_of(v, e, is_rigid, reasons));
        let max_degree = graph.max_degree();
        proof {
            lemma_max_degree_unique(g, max_degree as nat);
        }
        let max_degree_expected = (2 * e) / v;
        push_finding(&mut findings, max_degree_finding_of(v, e, max_degree));
        let ghost head = findings_of(findings@);
        if over_count > 0 {
            let mut s = usize_text(over_count);
            s.append(" nodes are over-constrained (high degree relative to average)");
            push_finding(&mut findings, finding_with(s, 750, over_share));
        }
        let ghost with_over = findings_of(findings@);
        let components = self.analyze_rigid_components(graph);
        if components.len() > 1 {
            let rigid = count_status(&components, RigidityStatus::Rigid, Ghost(g));
            let under = count_status(&components, RigidityStatus::UnderConstrained, Ghost(g));
            let over = count_status(&components, RigidityStatus::OverConstrained, Ghost(g));
            let mut s = String::new();
            s.append("Component analysis: ");
            s.append(usize_text(rigid).as_str());
            s.append(" rigid, ");
            s.append(usize_text(under).as_str());
            s.append(" under, ");
            s.append(usize_text(over).as_str());
            s.append(" over");
            let mut ev = usize_text(components.len());
            ev.append(" total components");
            push_finding(&mut findings, finding_with(s, 800, ev));
        }
        let ghost with_comps = findings_of(findings@);
        let redundant = graph.redundant_edges();
        let ghost cs = built_basis(g);
        proof {
            let ts = texts_of(redundant@);
            assert(ts.no_duplicates()) by {
                assert forall|a: int, b: int| 0 <= a < ts.len() && 0 <= b < ts.len() && a != b implies ts[a]
                    != ts[b] by {
                    if a < b {
                        assert(redundant@[a]@ != redundant@[b]@);
                    } else {
                        assert(redundant@[b]@ != redundant@[a]@);
                    }
                }
            }
            assert(ts.to_set() =~= redundant_labels(g, cs)) by {
                assert forall|x: Seq<char>| ts.to_set().contains(x) <==> redundant_labels(g, cs).contains(x) by {
                    if ts.to_set().contains(x) {
                        assert(ts.contains(x));
                        let a = choose|a: int| 0 <= a < ts.len() && ts[a] == x;
                        assert(redundant@[a]@ == x);
                        assert(crate::cycles::has_text(redundant@, x));
                        assert(is_redundant_label(g, cs, x));
                    }
                    if redundant_labels(g, cs).contains(x) {
                        assert(crate::cycles::has_text(redundant@, x));
                        let a = choose|a: int| 0 <= a < redundant@.len() && (#[trigger] redundant@[a])@ == x;
                        assert(ts[a] == x);
                        assert(ts.contains(x));
                    }
                }
            }
            ts.unique_seq_to_set();
        }
        let redundant_count = redundant.len();
        if redundant_count > 0 {
            let mut s = usize_text(redundant_count);
            s.append(" redundant edges detected (not needed for rigidity)");
            push_finding(
                &mut findings,
                finding_with(s, 700, "Edges in cycle basis but not in minimal rigidity subgraph".to_owned()),
            );
        }
        assert(findings_of(findings@) =~= systems_findings(g, over_count as nat, over_share@, cs));
        assert(texts_of(unanswered@) =~= systems_questions(g));
        let figures = SystemsFigures {
            lamancount,
            is_rigid,
            max_degree,
            max_degree_expected,
            components,
            redundant_edges: redundant_count,
        };
        assert(systems_figures_match(figures, g, cs));
        SystemsReport { findings, unanswered, figures: Some(figures) }
    }
}

} // verus!

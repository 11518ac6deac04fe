//! The captain's deliberation logic: which specialists to consult, which
//! findings survive adjudication (taken by quality rank, none contradicting
//! one accepted before it), which findings name safe actions, and which
//! kind of decision ends the deliberation.
use vstd::prelude::*;

use crate::claims::{
    captain_opposed, captain_opposed_lowered, danger_lowered, lower_all, lowered_all, lowered_chars,
    names_safe_action, no_spares_lowered, safe_action_lowered, signals_danger, signals_no_spares,
};
use crate::gate::Specialist;
use crate::text::{lowercase_of, texts_of};

verus! {

/// Whether two findings contradict each other by the captain's table, once
/// lower-cased.
pub fn findings_contradict(claim_a: &str, claim_b: &str) -> (r: bool)
    ensures
        r == captain_opposed(lowercase_of(claim_a@), lowercase_of(claim_b@)),
{
    let a = lowered_chars(claim_a);
    let b = lowered_chars(claim_b);
    captain_opposed_lowered(&a, &b)
}

/// Whether a finding speaks of danger (unsafe, danger, collision), once
/// lower-cased.
pub fn claim_signals_danger(claim: &str) -> (r: bool)
    ensures
        r == signals_danger(lowercase_of(claim@)),
{
    let l = lowered_chars(claim);
    danger_lowered(&l)
}

/// Whether a finding speaks of missing spares, once lower-cased.
pub fn claim_signals_no_spares(claim: &str) -> (r: bool)
    ensures
        r == signals_no_spares(lowercase_of(claim@)),
{
    let l = lowered_chars(claim);
    no_spares_lowered(&l)
}

/// Finding `x` contradicts one of the accepted findings `acc`.
pub open spec fn contradicts_accepted(lw: Seq<Seq<char>>, x: int, acc: Seq<usize>) -> bool {
    exists|k: int| 0 <= k < acc.len() && captain_opposed(lw[x], lw[#[trigger] acc[k] as int])
}

/// `s` lists positions from the highest rank down.
pub open spec fn rank_sorted(ranks: Seq<u64>, s: Seq<usize>) -> bool {
    forall|a: int, b: int| 0 <= a < b < s.len() ==> ranks[#[trigger] s[a] as int] >= ranks[#[trigger] s[b] as int]
}

/// Inserts position `x` into `s` after every position of rank at least
/// that of `x`.
pub open spec fn insert_by_rank(s: Seq<usize>, x: usize, ranks: Seq<u64>) -> Seq<usize>
    decreases s.len(),
{
    if s.len() == 0 {
        seq![x]
    } else if ranks[x as int] > ranks[s[0] as int] {
        seq![x] + s
    } else {
        seq![s[0]] + insert_by_rank(s.drop_first(), x, ranks)
    }
}

/// The positions `0..n` from the highest rank down, equal ranks in their
/// order of position.
pub open spec fn rank_order(ranks: Seq<u64>, n: int) -> Seq<usize>
    decreases n,
{
    if n <= 0 {
        Seq::empty()
    } else {
        insert_by_rank(rank_order(ranks, n - 1), (n - 1) as usize, ranks)
    }
}

/// The findings that adjudication accepts among the first `i` of `ord`, in
/// order: each one that contradicts no finding accepted before it.
pub open spec fn accepted_upto(lw: Seq<Seq<char>>, ord: Seq<usize>, i: int) -> Seq<usize>
    decreases i,
{
    if i <= 0 {
        Seq::empty()
    } else {
        let p = accepted_upto(lw, ord, i - 1);
        let x = ord[i - 1];
        if contradicts_accepted(lw, x as int, p) {
            p
        } else {
            p.push(x)
        }
    }
}

/// Inserting keeps the order sorted, adds one position and nothing else.
proof fn lemma_insert_by_rank(s: Seq<usize>, x: usize, ranks: Seq<u64>)
    requires
        rank_sorted(ranks, s),
    ensures
        rank_sorted(ranks, insert_by_rank(s, x, ranks)),
        insert_by_rank(s, x, ranks).len() == s.len() + 1,
        forall|y: usize| #[trigger] insert_by_rank(s, x, ranks).contains(y) <==> (s.contains(y) || y == x),
    decreases s.len(),
{
    let r = insert_by_rank(s, x, ranks);
    if s.len() == 0 {
        assert forall|y: usize| #[trigger] r.contains(y) <==> (s.contains(y) || y == x) by {
            if r.contains(y) {
                assert(r[0] == x);
            }
            if y == x {
                assert(r[0] == x);
            }
        }
    } else if ranks[x as int] > ranks[s[0] as int] {
        assert forall|a: int, b: int| 0 <= a < b < r.len() implies ranks[#[trigger] r[a] as int] >= ranks[#[trigger] r[b] as int] by {
            if a == 0 {
                assert(r[b] == s[b - 1]);
                if b - 1 > 0 {
                    assert(ranks[s[0] as int] >= ranks[s[b - 1] as int]);
                }
            } else {
                assert(r[a] == s[a - 1] && r[b] == s[b - 1]);
            }
        }
        assert forall|y: usize| #[trigger] r.contains(y) <==> (s.contains(y) || y == x) by {
            if r.contains(y) {
                let k = choose|k: int| 0 <= k < r.len() && r[k] == y;
                if k > 0 {
                    assert(s[k - 1] == y);
                }
            }
            if s.contains(y) {
                let k = choose|k: int| 0 <= k < s.len() && s[k] == y;
                assert(r[k + 1] == y);
            }
            if y == x {
                assert(r[0] == y);
            }
        }
    } else {
        let t = s.drop_first();
        assert(rank_sorted(ranks, t)) by {
            assert forall|a: int, b: int| 0 <= a < b < t.len() implies ranks[#[trigger] t[a] as int] >= ranks[#[trigger] t[b] as int] by {
                assert(t[a] == s[a + 1] && t[b] == s[b + 1]);
            }
        }
        lemma_insert_by_rank(t, x, ranks);
        let rt = insert_by_rank(t, x, ranks);
        assert(r == seq![s[0]] + rt);
        assert forall|a: int, b: int| 0 <= a < b < r.len() implies ranks[#[trigger] r[a] as int] >= ranks[#[trigger] r[b] as int] by {
            assert(r[b] == rt[b - 1]);
            if a == 0 {
                assert(rt.contains(rt[b - 1]));
                let y = rt[b - 1];
                if y != x {
                    assert(t.contains(y));
                    let k = choose|k: int| 0 <= k < t.len() && t[k] == y;
                    assert(s[k + 1] == y);
                }
            } else {
                assert(r[a] == rt[a - 1]);
            }
        }
        assert forall|y: usize| #[trigger] r.contains(y) <==> (s.contains(y) || y == x) by {
            if r.contains(y) {
                let k = choose|k: int| 0 <= k < r.len() && r[k] == y;
                if k > 0 {
                    assert(rt[k - 1] == y);
                    assert(rt.contains(y));
                    if t.contains(y) {
                        let j = choose|j: int| 0 <= j < t.len() && t[j] == y;
                        assert(s[j + 1] == y);
                    }
                } else {
                    assert(s[0] == y);
                }
            }
            if s.contains(y) {
                let k = choose|k: int| 0 <= k < s.len() && s[k] == y;
                if k == 0 {
                    assert(r[0] == y);
                } else {
                    assert(t[k - 1] == y);
                    assert(rt.contains(y));
                    let j = choose|j: int| 0 <= j < rt.len() && rt[j] == y;
                    assert(r[j + 1] == y);
                }
            }
            if y == x {
                assert(rt.contains(y));
                let j = choose|j: int| 0 <= j < rt.len() && rt[j] == y;
                assert(r[j + 1] == y);
            }
        }
    }
}

/// The rank order is sorted and holds exactly the positions `0..n`.
pub proof fn lemma_rank_order(ranks: Seq<u64>, n: int)
    requires
        0 <= n,
    ensures
        rank_sorted(ranks, rank_order(ranks, n)),
        rank_order(ranks, n).len() == n,
        forall|y: usize| #[trigger] rank_order(ranks, n).contains(y) <==> y < n,
    decreases n,
{
    if n > 0 {
        lemma_rank_order(ranks, n - 1);
        lemma_insert_by_rank(rank_order(ranks, n - 1), (n - 1) as usize, ranks);
    }
}

/// Inserting at the first position of lower rank is `insert_by_rank`.
proof fn lemma_insert_at(s: Seq<usize>, x: usize, ranks: Seq<u64>, k: int)
    requires
        0 <= k <= s.len(),
        forall|t: int| 0 <= t < k ==> !(ranks[x as int] > ranks[#[trigger] s[t] as int]),
        k < s.len() ==> ranks[x as int] > ranks[s[k] as int],
    ensures
        insert_by_rank(s, x, ranks) == s.insert(k, x),
    decreases k,
{
    if k == 0 {
        assert(s.insert(0, x) =~= seq![x] + s);
    } else {
        let t = s.drop_first();
        assert forall|u: int| 0 <= u < k - 1 implies !(ranks[x as int] > ranks[#[trigger] t[u] as int]) by {
            assert(t[u] == s[u + 1]);
        }
        assert(!(ranks[x as int] > ranks[s[0] as int]));
        lemma_insert_at(t, x, ranks, k - 1);
        assert(seq![s[0]] + t.insert(k - 1, x) =~= s.insert(k, x));
    }
}

/// The positions of the findings adjudication accepts, judged on their
/// lower-cased texts `lowered`, taking the findings in the order `ord`:
/// each one that contradicts none of the findings accepted before it.
fn accepted_among(lowered: &Vec<Vec<char>>, ord: &Vec<usize>) -> (r: Vec<usize>)
    requires
        forall|k: int| 0 <= k < ord@.len() ==> #[trigger] ord@[k] < lowered@.len(),
    ensures
        r@ == accepted_upto(lowered@.map_values(|v: Vec<char>| v@), ord@, ord@.len() as int),
{
    let ghost lw = lowered@.map_values(|v: Vec<char>| v@);
    let n = ord.len();
    let mut acc: Vec<usize> = Vec::new();
    let mut i: usize = 0;
    while i < n
        invariant
            n == ord@.len(),
            forall|k: int| 0 <= k < ord@.len() ==> #[trigger] ord@[k] < lowered@.len(),
            lw == lowered@.map_values(|v: Vec<char>| v@),
            i <= n,
            acc@ == accepted_upto(lw, ord@, i as int),
        decreases n - i,
    {
        proof {
            lemma_accepted_earlier(lw, ord@, i as int);
        }
        let x = ord[i];
        let mut hit = false;
        let mut k: usize = 0;
        while k < acc.len()
            invariant
                n == ord@.len(),
                lw == lowered@.map_values(|v: Vec<char>| v@),
                i < n,
                x == ord@[i as int],
                x < lowered@.len(),
                acc@ == accepted_upto(lw, ord@, i as int),
                forall|t: int|
                    0 <= t < acc@.len() ==> exists|jj: int| 0 <= jj < i && ord@[jj] == #[trigger] acc@[t],
                forall|k: int| 0 <= k < ord@.len() ==> #[trigger] ord@[k] < lowered@.len(),
                k <= acc@.len(),
                hit == exists|t: int| 0 <= t < k && captain_opposed(lw[x as int], lw[#[trigger] acc@[t] as int]),
            decreases acc@.len() - k,
        {
            let a = acc[k];
            proof {
                assert(acc@[k as int] == a);
                let j = choose|j: int| 0 <= j < i && ord@[j] == acc@[k as int];
                assert(ord@[j] == a);
            }
            assert(lw[x as int] == lowered@[x as int]@);
            assert(lw[a as int] == lowered@[a as int]@);
            if captain_opposed_lowered(&lowered[x], &lowered[a]) {
                hit = true;
            }
            k = k + 1;
        }
        if !hit {
            acc.push(x);
        }
        i = i + 1;
    }
    acc
}

/// The positions `0..n`, from the highest rank down, equal ranks in their
/// order of position.
pub fn order_by_rank(ranks: &Vec<u64>) -> (r: Vec<usize>)
    ensures
        r@ == rank_order(ranks@, ranks@.len() as int),
{
    let n = ranks.len();
    let mut order: Vec<usize> = Vec::new();
    let mut i: usize = 0;
    while i < n
        invariant
            n == ranks@.len(),
            i <= n,
            order@ == rank_order(ranks@, i as int),
        decreases n - i,
    {
        proof {
            lemma_rank_order(ranks@, i as int);
            assert forall|t: int| 0 <= t < order@.len() implies #[trigger] order@[t] < i by {
                assert(order@.contains(order@[t]));
            }
        }
        let mut k: usize = 0;
        while k < order.len() && !(ranks[i] > ranks[order[k]])
            invariant
                n == ranks@.len(),
                i < n,
                order@ == rank_order(ranks@, i as int),
                forall|y: usize| #[trigger] order@.contains(y) <==> y < i,
                forall|t: int| 0 <= t < order@.len() ==> #[trigger] order@[t] < i,
                k <= order@.len(),
                forall|t: int| 0 <= t < k ==> !(ranks@[i as int] > ranks@[#[trigger] order@[t] as int]),
            decreases order@.len() - k,
        {
            assert(order@.contains(order@[k as int]));
            k = k + 1;
        }
        proof {
            if k < order@.len() {
                assert(order@.contains(order@[k as int]));
            }
            lemma_insert_at(order@, i, ranks@, k as int);
        }
        order.insert(k, i);
        i = i + 1;
    }
    order
}

/// The positions of the findings adjudication accepts. Findings are taken
/// from the highest quality rank down (equal ranks in their order), and a
/// finding is accepted when, once lower-cased, it contradicts none accepted
/// before it; so of two contradicting findings the higher-ranked is kept
/// unless a finding ranked higher still has excluded it.
pub fn accepted_findings(claims: &Vec<String>, ranks: &Vec<u64>) -> (r: Vec<usize>)
    requires
        ranks@.len() == claims@.len(),
    ensures
        r@ == accepted_upto(
            lowered_all(texts_of(claims@)),
            rank_order(ranks@, claims@.len() as int),
            claims@.len() as int,
        ),
{
    let lowered = lower_all(claims);
    let order = order_by_rank(ranks);
    proof {
        lemma_rank_order(ranks@, ranks@.len() as int);
        assert forall|k: int| 0 <= k < order@.len() implies #[trigger] order@[k] < lowered@.len() by {
            assert(order@.contains(order@[k]));
        }
    }
    accepted_among(&lowered, &order)
}

/// The claims below `i` that name a safe action (judged on `lw`), in order.
pub open spec fn safe_upto(cs: Seq<Seq<char>>, lw: Seq<Seq<char>>, i: int) -> Seq<Seq<char>>
    decreases i,
{
    if i <= 0 {
        Seq::empty()
    } else if names_safe_action(lw[i - 1]) {
        safe_upto(cs, lw, i - 1).push(cs[i - 1])
    } else {
        safe_upto(cs, lw, i - 1)
    }
}

/// The claims whose lower-cased texts `lowered` name a safe action (safe,
/// stable, constraint), in order.
pub fn safe_actions_among(claims: &Vec<String>, lowered: &Vec<Vec<char>>) -> (r: Vec<String>)
    requires
        lowered@.len() == claims@.len(),
    ensures
        texts_of(r@) == safe_upto(
            texts_of(claims@),
            lowered@.map_values(|v: Vec<char>| v@),
            claims@.len() as int,
        ),
{
    let ghost lw = lowered@.map_values(|v: Vec<char>| v@);
    let mut out: Vec<String> = Vec::new();
    let mut i: usize = 0;
    while i < claims.len()
        invariant
            lowered@.len() == claims@.len(),
            lw == lowered@.map_values(|v: Vec<char>| v@),
            i <= claims@.len(),
            texts_of(out@) == safe_upto(texts_of(claims@), lw, i as int),
        decreases claims@.len() - i,
    {
        assert(lw[i as int] == lowered@[i as int]@);
        if safe_action_lowered(&lowered[i]) {
            let ghost before = out@;
            out.push(claims[i].clone());
            assert(texts_of(out@) =~= texts_of(before).push(claims@[i as int]@));
        }
        i = i + 1;
    }
    out
}

/// The accepted findings that name a safe action (safe, stable,
/// constraint), once lower-cased, in order.
pub fn safe_action_set(claims: &Vec<String>) -> (r: Vec<String>)
    ensures
        texts_of(r@) == safe_upto(texts_of(claims@), lowered_all(texts_of(claims@)), claims@.len() as int),
{
    let lowered = lower_all(claims);
    safe_actions_among(claims, &lowered)
}

/// How a deliberation ends.
#[derive(Debug, Clone, Copy, PartialEq, Eq, Structural)]
pub enum DecisionKind {
    /// A finding was chosen as the decision.
    Decided,
    /// A hard constraint was violated: safety takes precedence, no action.
    Constrained,
    /// Nothing to act on: the fleet is stable.
    Stable,
}

/// The kind of decision: constrained when a hard constraint is violated;
/// otherwise stable when no safe action and no adjudicated finding exist;
/// otherwise decided.
pub open spec fn kind_for(has_violations: bool, safe_actions: nat, adjudicated: nat) -> DecisionKind {
    if has_violations {
        DecisionKind::Constrained
    } else if safe_actions == 0 && adjudicated == 0 {
        DecisionKind::Stable
    } else {
        DecisionKind::Decided
    }
}

/// The kind of decision that ends a deliberation.
pub fn decision_kind(has_violations: bool, safe_actions: usize, adjudicated: usize) -> (r: DecisionKind)
    ensures
        r == kind_for(has_violations, safe_actions as nat, adjudicated as nat),
{
    if has_violations {
        DecisionKind::Constrained
    } else if safe_actions == 0 && adjudicated == 0 {
        DecisionKind::Stable
    } else {
        DecisionKind::Decided
    }
}

/// A decision of kind `kind` acts: it was decided and chose something.
pub open spec fn acts(kind: DecisionKind, has_decision: bool) -> bool {
    kind == DecisionKind::Decided && has_decision
}

/// Whether a decision took action: only a decided deliberation that chose
/// something does.
pub fn took_action(kind: DecisionKind, has_decision: bool) -> (r: bool)
    ensures
        r == acts(kind, has_decision),
{
    match kind {
        DecisionKind::Decided => has_decision,
        _ => false,
    }
}

/// Safety first: whenever a hard constraint is violated, the captain takes
/// no action, whatever the findings say; with nothing to act on it takes
/// none either.
pub proof fn law_violation_blocks_action(safe_actions: nat, adjudicated: nat, has_decision: bool)
    ensures
        !acts(kind_for(true, safe_actions, adjudicated), has_decision),
        !acts(kind_for(false, 0, 0), has_decision),
{
}

/// What the captain reads of the fleet graph state to choose whom to consult.
pub struct SourceSignals {
    /// Number of vertices.
    pub vertex_count: usize,
    /// Number of edges.
    pub edge_count: usize,
    /// Current number of agents.
    pub agent_count: usize,
    /// β₁ is above zero.
    pub beta_positive: bool,
    /// The topology changed less than 10 s ago.
    pub changed_recently: bool,
    /// The ZHC loop residual is above zero.
    pub zhc_positive: bool,
    /// The topology has not changed for more than 60 s.
    pub quiet_long: bool,
}

/// The specialists the captain consults, in order: systems (three or more
/// vertices), topological (β₁ above zero or a recent change), geometric (a
/// ZHC residual), algebraic (any edge), empirical (agent count changed or a
/// long quiet spell).
pub open spec fn consulted(s: SourceSignals) -> Seq<Specialist> {
    (if s.vertex_count >= 3 {
        seq![Specialist::Systems]
    } else {
        Seq::empty()
    }) + (if s.beta_positive || s.changed_recently {
        seq![Specialist::Topological]
    } else {
        Seq::empty()
    }) + (if s.zhc_positive {
        seq![Specialist::Geometric]
    } else {
        Seq::empty()
    }) + (if s.edge_count > 0 {
        seq![Specialist::Algebraic]
    } else {
        Seq::empty()
    }) + (if s.agent_count != s.vertex_count || s.quiet_long {
        seq![Specialist::Empirical]
    } else {
        Seq::empty()
    })
}

/// The specialists with signal for the captain's inquiry.
pub fn sources_with_signal(s: &SourceSignals) -> (r: Vec<Specialist>)
    ensures
        r@ == consulted(*s),
{
    let mut v: Vec<Specialist> = Vec::new();
    if s.vertex_count >= 3 {
        v.push(Specialist::Systems);
    }
    if s.beta_positive || s.changed_recently {
        v.push(Specialist::Topological);
    }
    if s.zhc_positive {
        v.push(Specialist::Geometric);
    }
    if s.edge_count > 0 {
        v.push(Specialist::Algebraic);
    }
    if s.agent_count != s.vertex_count || s.quiet_long {
        v.push(Specialist::Empirical);
    }
    assert(v@ =~= consulted(*s));
    v
}

/// No two accepted findings contradict each other, in the order in which
/// they were accepted: a later one never contradicts an earlier one.
pub proof fn law_accepted_consistent(lw: Seq<Seq<char>>, ord: Seq<usize>, i: int)
    requires
        0 <= i <= ord.len(),
    ensures
        forall|a: int, b: int|
            0 <= a < b < accepted_upto(lw, ord, i).len() ==> !captain_opposed(
                lw[accepted_upto(lw, ord, i)[b] as int],
                lw[accepted_upto(lw, ord, i)[a] as int],
            ),
    decreases i,
{
    if i > 0 {
        law_accepted_consistent(lw, ord, i - 1);
        let p = accepted_upto(lw, ord, i - 1);
        let x = ord[i - 1];
        if !contradicts_accepted(lw, x as int, p) {
            let q = p.push(x);
            assert forall|a: int, b: int| 0 <= a < b < q.len() implies !captain_opposed(
                lw[q[b] as int],
                lw[q[a] as int],
            ) by {
                if b == q.len() - 1 {
                    assert(q[a] == p[a]);
                    if captain_opposed(lw[x as int], lw[p[a] as int]) {
                        assert(contradicts_accepted(lw, x as int, p));
                    }
                } else {
                    assert(q[a] == p[a] && q[b] == p[b]);
                }
            }
        }
    }
}

/// Quality wins: every finding left out contradicts an accepted finding of
/// at least its quality rank.
pub proof fn law_rejected_outranked(lw: Seq<Seq<char>>, ranks: Seq<u64>, x: usize)
    requires
        0 <= x < ranks.len(),
        !accepted_upto(lw, rank_order(ranks, ranks.len() as int), ranks.len() as int).contains(x),
    ensures
        exists|a: usize|
            #[trigger] accepted_upto(lw, rank_order(ranks, ranks.len() as int), ranks.len() as int).contains(a)
                && ranks[a as int] >= ranks[x as int] && captain_opposed(lw[x as int], lw[a as int]),
{
    let n = ranks.len() as int;
    let ord = rank_order(ranks, n);
    lemma_rank_order(ranks, n);
    assert(ord.contains(x));
    let j = choose|j: int| 0 <= j < ord.len() && ord[j] == x;
    lemma_accepted_prefix(lw, ord, j + 1, n);
    lemma_accepted_earlier(lw, ord, j);
    let p = accepted_upto(lw, ord, j);
    if !contradicts_accepted(lw, x as int, p) {
        assert(accepted_upto(lw, ord, j + 1) == p.push(x));
        assert(accepted_upto(lw, ord, j + 1)[p.len() as int] == x);
        let full = accepted_upto(lw, ord, n);
        assert(full[p.len() as int] == x);
        assert(full.contains(x));
    }
    let k = choose|k: int| 0 <= k < p.len() && captain_opposed(lw[x as int], lw[#[trigger] p[k] as int]);
    let a = p[k];
    let jj = choose|jj: int| 0 <= jj < j && ord[jj] == a;
    assert(ranks[ord[jj] as int] >= ranks[ord[j] as int]);
    let full = accepted_upto(lw, ord, n);
    assert(full[k] == a);
    assert(full.contains(a));
}

/// A longer run accepts what a shorter one did, in the same places.
proof fn lemma_accepted_prefix(lw: Seq<Seq<char>>, ord: Seq<usize>, i: int, m: int)
    requires
        0 <= i <= m,
    ensures
        accepted_upto(lw, ord, i).len() <= accepted_upto(lw, ord, m).len(),
        forall|k: int|
            0 <= k < accepted_upto(lw, ord, i).len() ==> #[trigger] accepted_upto(lw, ord, m)[k]
                == accepted_upto(lw, ord, i)[k],
    decreases m - i,
{
    if i < m {
        lemma_accepted_prefix(lw, ord, i, m - 1);
    }
}

/// Every accepted finding of a run over the first `j` came earlier in the
/// order.
proof fn lemma_accepted_earlier(lw: Seq<Seq<char>>, ord: Seq<usize>, j: int)
    requires
        0 <= j <= ord.len(),
    ensures
        forall|k: int|
            0 <= k < accepted_upto(lw, ord, j).len() ==> exists|jj: int|
                0 <= jj < j && ord[jj] == #[trigger] accepted_upto(lw, ord, j)[k],
    decreases j,
{
    if j > 0 {
        lemma_accepted_earlier(lw, ord, j - 1);
        let p = accepted_upto(lw, ord, j - 1);
        let q = accepted_upto(lw, ord, j);
        assert forall|k: int| 0 <= k < q.len() implies exists|jj: int| 0 <= jj < j && ord[jj] == #[trigger] q[k] by {
            if k < p.len() {
                assert(q[k] == p[k]);
                let jj = choose|jj: int| 0 <= jj < j - 1 && ord[jj] == p[k];
                assert(ord[jj] == q[k]);
            } else {
                assert(q[k] == ord[j - 1]);
            }
        }
    }
}


/// Accepted findings come from the order in the order they were taken.
proof fn lemma_accepted_in_order(lw: Seq<Seq<char>>, ord: Seq<usize>, i: int)
    requires
        0 <= i <= ord.len(),
    ensures
        forall|a: int, b: int|
            0 <= a < b < accepted_upto(lw, ord, i).len() ==> exists|ia: int, ib: int|
                0 <= ia < ib < i && ord[ia] == #[trigger] accepted_upto(lw, ord, i)[a] && ord[ib]
                    == #[trigger] accepted_upto(lw, ord, i)[b],
    decreases i,
{
    if i > 0 {
        lemma_accepted_in_order(lw, ord, i - 1);
        lemma_accepted_earlier(lw, ord, i - 1);
        let p = accepted_upto(lw, ord, i - 1);
        let q = accepted_upto(lw, ord, i);
        assert forall|a: int, b: int| 0 <= a < b < q.len() implies exists|ia: int, ib: int|
            0 <= ia < ib < i && ord[ia] == #[trigger] q[a] && ord[ib] == #[trigger] q[b] by {
            if b < p.len() {
                assert(q[a] == p[a] && q[b] == p[b]);
                let (ia, ib) = choose|ia: int, ib: int| 0 <= ia < ib < i - 1 && ord[ia] == p[a] && ord[ib] == p[b];
                assert(ord[ia] == q[a] && ord[ib] == q[b]);
            } else {
                assert(q[a] == p[a]);
                assert(q[b] == ord[i - 1]);
                let ia = choose|ia: int| 0 <= ia < i - 1 && ord[ia] == #[trigger] p[a];
                assert(ord[ia] == q[a] && ord[i - 1] == q[b]);
            }
        }
    }
}

/// Adjudication keeps quality order: the accepted findings come from the
/// highest quality rank down.
pub proof fn law_accepted_by_rank(lw: Seq<Seq<char>>, ranks: Seq<u64>)
    ensures
        ({
            let acc = accepted_upto(lw, rank_order(ranks, ranks.len() as int), ranks.len() as int);
            forall|a: int, b: int| 0 <= a < b < acc.len() ==> ranks[#[trigger] acc[a] as int] >= ranks[#[trigger] acc[b] as int]
        }),
{
    let n = ranks.len() as int;
    let ord = rank_order(ranks, n);
    let acc = accepted_upto(lw, ord, n);
    lemma_rank_order(ranks, n);
    lemma_accepted_in_order(lw, ord, n);
    assert forall|a: int, b: int| 0 <= a < b < acc.len() implies ranks[#[trigger] acc[a] as int] >= ranks[#[trigger] acc[b] as int] by {
        let (ia, ib) = choose|ia: int, ib: int| 0 <= ia < ib < n && ord[ia] == acc[a] && ord[ib] == acc[b];
        assert(ranks[ord[ia] as int] >= ranks[ord[ib] as int]);
    }
}

/// At most one safe action per claim.
proof fn lemma_safe_len(cs: Seq<Seq<char>>, lw: Seq<Seq<char>>, i: int)
    requires
        0 <= i,
    ensures
        safe_upto(cs, lw, i).len() <= i,
    decreases i,
{
    if i > 0 {
        lemma_safe_len(cs, lw, i - 1);
    }
}

/// With no hard constraint violated, the captain is stable exactly when no
/// finding was adjudicated, the safe actions being drawn from the
/// adjudicated findings.
pub proof fn law_stable_without_findings(adjudicated: Seq<Seq<char>>)
    ensures
        kind_for(
            false,
            safe_upto(adjudicated, lowered_all(adjudicated), adjudicated.len() as int).len(),
            adjudicated.len(),
        ) == DecisionKind::Stable <==> adjudicated.len() == 0,
{
    lemma_safe_len(adjudicated, lowered_all(adjudicated), adjudicated.len() as int);
}

} // verus!

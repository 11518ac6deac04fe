//! The library gate: given what was measured of the fleet graph, which one
//! specialist to run, and which specialists have any signal at all.
//!
//! Priority (first match wins): fewer than three vertices → systems; ZHC
//! loop degraded → geometric; trust vector noisy → algebraic; β₁ rising →
//! topological; agent count changed → empirical; otherwise none.
use vstd::prelude::*;

verus! {

/// The five specialists.
#[derive(Debug, Clone, Copy, PartialEq, Eq, Structural)]
pub enum Specialist {
    Topological,
    Geometric,
    Algebraic,
    Systems,
    Empirical,
}

/// The name of a specialist.
pub open spec fn specialist_name(s: Specialist) -> Seq<char> {
    match s {
        Specialist::Topological => "topological"@,
        Specialist::Geometric => "geometric"@,
        Specialist::Algebraic => "algebraic"@,
        Specialist::Systems => "systems"@,
        Specialist::Empirical => "empirical"@,
    }
}

impl Specialist {
    /// Human-readable name for the specialist.
    pub fn name(&self) -> (s: &'static str)
        ensures
            s@ == specialist_name(*self),
    {
        match self {
            Specialist::Topological => "topological",
            Specialist::Geometric => "geometric",
            Specialist::Algebraic => "algebraic",
            Specialist::Systems => "systems",
            Specialist::Empirical => "empirical",
        }
    }
}

/// What the selector reads of the fleet graph state. The three flags are the
/// comparisons of measured values with the agent's constants.
pub struct GateSignals {
    /// Number of vertices.
    pub vertex_count: usize,
    /// Current number of agents.
    pub agent_count: usize,
    /// The ZHC loop residual exceeds the tolerance.
    pub zhc_degraded: bool,
    /// The trust vector entropy exceeds 0.5.
    pub trust_noisy: bool,
    /// β₁ exceeds the threshold.
    pub beta_rising: bool,
}

/// The one specialist the selector selects, by priority.
pub open spec fn selection(s: GateSignals) -> Option<Specialist> {
    if s.vertex_count < 3 {
        Some(Specialist::Systems)
    } else if s.zhc_degraded {
        Some(Specialist::Geometric)
    } else if s.trust_noisy {
        Some(Specialist::Algebraic)
    } else if s.beta_rising {
        Some(Specialist::Topological)
    } else if s.agent_count != s.vertex_count {
        Some(Specialist::Empirical)
    } else {
        None
    }
}

/// Every specialist with a signal: systems always, then geometric,
/// algebraic, topological and empirical when their conditions hold.
pub open spec fn signal_list(s: GateSignals) -> Seq<Specialist> {
    seq![Specialist::Systems] + (if s.zhc_degraded {
        seq![Specialist::Geometric]
    } else {
        Seq::empty()
    }) + (if s.trust_noisy {
        seq![Specialist::Algebraic]
    } else {
        Seq::empty()
    }) + (if s.beta_rising {
        seq![Specialist::Topological]
    } else {
        Seq::empty()
    }) + (if s.agent_count != s.vertex_count {
        seq![Specialist::Empirical]
    } else {
        Seq::empty()
    })
}

/// The one specialist to run, or `None` when the fleet is stable.
pub fn select(s: &GateSignals) -> (r: Option<Specialist>)
    ensures
        r == selection(*s),
{
    if s.vertex_count < 3 {
        return Some(Specialist::Systems);
    }
    if s.zhc_degraded {
        return Some(Specialist::Geometric);
    }
    if s.trust_noisy {
        return Some(Specialist::Algebraic);
    }
    if s.beta_rising {
        return Some(Specialist::Topological);
    }
    if s.agent_count != s.vertex_count {
        return Some(Specialist::Empirical);
    }
    None
}

/// Every specialist whose signal condition holds (systems always).
pub fn all_with_signal(s: &GateSignals) -> (r: Vec<Specialist>)
    ensures
        r@ == signal_list(*s),
{
    let mut v: Vec<Specialist> = Vec::new();
    v.push(Specialist::Systems);
    if s.zhc_degraded {
        v.push(Specialist::Geometric);
    }
    if s.trust_noisy {
        v.push(Specialist::Algebraic);
    }
    if s.beta_rising {
        v.push(Specialist::Topological);
    }
    if s.agent_count != s.vertex_count {
        v.push(Specialist::Empirical);
    }
    assert(v@ =~= signal_list(*s));
    v
}

/// The specialist for a task: none when the agent's constants do not match
/// the task, else the selector's selection.
pub fn select_for_task(constants_match: bool, s: &GateSignals) -> (r: Option<Specialist>)
    ensures
        !constants_match ==> r is None,
        constants_match ==> r == selection(*s),
{
    if !constants_match {
        return None;
    }
    select(s)
}

/// The selected specialist always has a signal, and systems always does:
/// whatever `select` returns is among `all_with_signal`, and the selector's one
/// choice is, for three or more vertices, the most critical of the other
/// signals (the second entry of the list), or none when systems is alone.
pub proof fn law_selection_has_signal(s: GateSignals)
    ensures
        signal_list(s).contains(Specialist::Systems),
        selection(s) matches Some(x) ==> signal_list(s).contains(x),
        s.vertex_count >= 3 ==> selection(s) == (if signal_list(s).len() > 1 {
            Some(signal_list(s)[1])
        } else {
            None
        }),
{
    let l = signal_list(s);
    assert(l[0] == Specialist::Systems);
    match selection(s) {
        Some(x) => {
            if s.vertex_count >= 3 {
                assert(l[1] == x);
            }
        },
        None => {},
    }
}

/// With fewer than three vertices the selector picks systems, whatever else
/// the signals say.
pub proof fn law_small_graph_systems(s: GateSignals)
    requires
        s.vertex_count < 3,
    ensures
        selection(s) == Some(Specialist::Systems),
{
}

/// A degraded ZHC loop outranks every other signal except a small graph.
pub proof fn law_zhc_first(s: GateSignals)
    requires
        s.vertex_count >= 3,
        s.zhc_degraded,
    ensures
        selection(s) == Some(Specialist::Geometric),
{
}

/// The selector selects nothing exactly when the graph has three or more
/// vertices and no condition holds.
pub proof fn law_none_when_quiet(s: GateSignals)
    ensures
        selection(s) is None <==> (s.vertex_count >= 3 && !s.zhc_degraded && !s.trust_noisy
            && !s.beta_rising && s.agent_count == s.vertex_count),
{
}

} // verus!

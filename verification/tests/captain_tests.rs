use fleet_spread::captain::{
    accepted_findings, order_by_rank, claim_signals_danger, claim_signals_no_spares, decision_kind,
    findings_contradict, safe_action_set, sources_with_signal, took_action, DecisionKind,
    SourceSignals,
};
use fleet_spread::gate::Specialist;

/// The captain's view of a fleet graph state.
struct State {
    v: usize,
    e: usize,
    beta_1: f64,
    zhc_loop_residual: f64,
    agent_count: usize,
    last_change_s: f64,
}

impl State {
    fn rising_beta() -> State {
        State { v: 5, e: 9, beta_1: 4.0, zhc_loop_residual: 0.005, agent_count: 5, last_change_s: 0.5 }
    }
    fn degraded_zhc() -> State {
        State { v: 5, e: 7, beta_1: 3.0, zhc_loop_residual: 0.15, agent_count: 5, last_change_s: 5.0 }
    }
    fn noisy_trust() -> State {
        State { v: 5, e: 7, beta_1: 3.0, zhc_loop_residual: 0.005, agent_count: 5, last_change_s: 10.0 }
    }
    fn small_graph() -> State {
        State { v: 2, e: 1, beta_1: 0.0, zhc_loop_residual: 0.0, agent_count: 2, last_change_s: 0.0 }
    }
    fn agent_count_changed() -> State {
        State { v: 6, e: 7, beta_1: 0.0, zhc_loop_residual: 0.005, agent_count: 7, last_change_s: 30.0 }
    }
    fn stable_rigid() -> State {
        State { v: 5, e: 7, beta_1: 0.0, zhc_loop_residual: 0.005, agent_count: 5, last_change_s: 100.0 }
    }
    fn signals(&self) -> SourceSignals {
        SourceSignals {
            vertex_count: self.v,
            edge_count: self.e,
            agent_count: self.agent_count,
            beta_positive: self.beta_1 > 0.0,
            changed_recently: self.last_change_s < 10.0,
            zhc_positive: self.zhc_loop_residual > 0.0,
            quiet_long: self.last_change_s > 60.0,
        }
    }
}

#[test]
fn test_sources_small_graph() {
    let sources = sources_with_signal(&State::small_graph().signals());
    assert!(!sources.contains(&Specialist::Systems));
}

#[test]
fn test_sources_rising_beta() {
    let sources = sources_with_signal(&State::rising_beta().signals());
    assert!(sources.contains(&Specialist::Topological));
}

#[test]
fn test_sources_degraded_zhc() {
    let sources = sources_with_signal(&State::degraded_zhc().signals());
    assert!(sources.contains(&Specialist::Geometric));
}

#[test]
fn test_sources_noisy_trust() {
    let sources = sources_with_signal(&State::noisy_trust().signals());
    assert!(sources.contains(&Specialist::Algebraic));
}

#[test]
fn test_sources_agent_count_changed() {
    let sources = sources_with_signal(&State::agent_count_changed().signals());
    assert!(sources.contains(&Specialist::Empirical));
}

#[test]
fn captain_sources_stable_fleet() {
    // systems (V ≥ 3), geometric (residual 0.005), algebraic (edges), empirical (quiet for 100 s)
    assert_eq!(
        sources_with_signal(&State::stable_rigid().signals()),
        vec![Specialist::Systems, Specialist::Geometric, Specialist::Algebraic, Specialist::Empirical]
    );
}

#[test]
fn test_adjudicate_finds_contradiction() {
    let claims = vec!["Graph is rigid".to_string(), "Graph is under-constrained".to_string()];
    // both reports carry the same confidence, so both findings rank alike
    let accepted = accepted_findings(&claims, &vec![0, 0]);
    assert!(accepted.len() <= 2);
    // of equal ranks the earlier is kept and the later, contradicting it, dropped
    assert_eq!(accepted, vec![0]);
}

#[test]
fn captain_higher_quality_wins_contradiction() {
    let claims = vec!["Graph is rigid".to_string(), "Graph is under-constrained".to_string()];
    // the under-constrained finding comes from the report of higher quality
    assert_eq!(accepted_findings(&claims, &vec![0, 1]), vec![1]);
    assert_eq!(accepted_findings(&claims, &vec![1, 0]), vec![0]);
}

#[test]
fn captain_accepts_in_rank_order() {
    let claims = vec!["Fleet is stable".to_string(), "Graph is rigid".to_string(), "Trust is drifting".to_string()];
    // ranked highest first: drifting (5), rigid (2), stable (1); stable is then excluded by drifting
    assert_eq!(accepted_findings(&claims, &vec![1, 2, 5]), vec![2, 1]);
    assert_eq!(order_by_rank(&vec![1, 2, 5, 2]), vec![2, 1, 3, 0]);
}

#[test]
fn test_findings_contradict_rigid_underconstrained() {
    assert!(findings_contradict("Graph is rigid", "Graph is under-constrained"));
}

#[test]
fn test_findings_contradict_stable_drift() {
    assert!(findings_contradict("System is stable", "System is drifting"));
}

#[test]
fn test_findings_no_contradiction_similar() {
    assert!(!findings_contradict("Graph is rigid", "Laman condition satisfied"));
}

#[test]
fn captain_contradiction_ignores_case_and_order() {
    assert!(findings_contradict("GRAPH IS RIGID", "graph is Over-Constrained"));
    assert!(findings_contradict("graph is Over-Constrained", "GRAPH IS RIGID"));
    assert!(findings_contradict("Fleet is SAFE", "collision course is unsafe"));
    assert!(!findings_contradict("Trust is high", "Trust is low"));
}

#[test]
fn captain_accepts_consistent_findings() {
    let claims = vec![
        "Graph is rigid".to_string(),
        "Fleet is stable".to_string(),
        "Graph is over-constrained".to_string(),
        "Trust is drifting".to_string(),
        "Loop closure is consistent".to_string(),
    ];
    assert_eq!(accepted_findings(&claims, &vec![0, 0, 0, 0, 0]), vec![0, 1, 4]);
}

#[test]
fn test_safe_action_set() {
    let claims = vec!["Maintain safe distance".to_string()];
    assert!(!safe_action_set(&claims).is_empty());
}

#[test]
fn captain_safe_actions_filter_in_order() {
    let claims = vec![
        "Keep the Constraint".to_string(),
        "Graph is rigid".to_string(),
        "Fleet is STABLE".to_string(),
    ];
    assert_eq!(
        safe_action_set(&claims),
        vec!["Keep the Constraint".to_string(), "Fleet is STABLE".to_string()]
    );
}

#[test]
fn test_captain_decision_took_action() {
    assert!(took_action(DecisionKind::Decided, true));
}

#[test]
fn test_captain_decision_no_action_constrained() {
    assert!(!took_action(DecisionKind::Constrained, false));
}

#[test]
fn test_captain_decision_no_action_stable() {
    assert!(!took_action(DecisionKind::Stable, false));
}

#[test]
fn captain_decision_kinds() {
    assert_eq!(decision_kind(true, 3, 3), DecisionKind::Constrained);
    assert_eq!(decision_kind(false, 0, 0), DecisionKind::Stable);
    assert_eq!(decision_kind(false, 0, 2), DecisionKind::Decided);
    assert_eq!(decision_kind(false, 1, 0), DecisionKind::Decided);
    assert!(!took_action(decision_kind(true, 5, 5), true));
}

#[test]
fn captain_hard_constraint_keywords() {
    assert!(claim_signals_danger("Imminent COLLISION between agents"));
    assert!(claim_signals_danger("Formation is unsafe"));
    assert!(!claim_signals_danger("Formation is safe"));
    assert!(claim_signals_no_spares("No spare agents left"));
    assert!(claim_signals_no_spares("Insufficient backup capacity"));
    assert!(!claim_signals_no_spares("Spares available"));
}

#[test]
fn captain_accepted_findings_keep_rank_order() {
    let claims = vec![
        "Fleet is stable".to_string(),
        "Loop closure is consistent".to_string(),
        "Graph is rigid".to_string(),
    ];
    let ranks = vec![1, 7, 4];
    let accepted = accepted_findings(&claims, &ranks);
    assert_eq!(accepted, vec![1, 2, 0]);
    for w in accepted.windows(2) {
        assert!(ranks[w[0]] >= ranks[w[1]]);
    }
}

#[test]
fn captain_safe_actions_drawn_from_findings() {
    assert!(safe_action_set(&vec![]).is_empty());
    let claims = vec!["Graph is rigid".to_string(), "Fleet is stable".to_string()];
    assert!(safe_action_set(&claims).len() <= claims.len());
    // no violation: with findings the decision is not Stable
    assert_eq!(decision_kind(false, safe_action_set(&claims).len(), claims.len()), DecisionKind::Decided);
    assert_eq!(decision_kind(false, 0, 0), DecisionKind::Stable);
}

use fleet_spread::gate::{all_with_signal, select, select_for_task, GateSignals, Specialist};

/// A fleet graph state as the library gate sees it, with the default fleet
/// constants (β threshold 0.05, ZHC tolerance 0.01).
struct State {
    v: usize,
    beta_1: f64,
    zhc_loop_residual: f64,
    trust_vector_entropy: f64,
    agent_count: usize,
}

impl State {
    fn stable_rigid() -> State {
        State { v: 5, beta_1: 0.0, zhc_loop_residual: 0.005, trust_vector_entropy: 0.1, agent_count: 5 }
    }
    fn rising_beta() -> State {
        State { v: 5, beta_1: 4.0, zhc_loop_residual: 0.005, trust_vector_entropy: 0.1, agent_count: 5 }
    }
    fn degraded_zhc() -> State {
        State { v: 5, beta_1: 3.0, zhc_loop_residual: 0.15, trust_vector_entropy: 0.1, agent_count: 5 }
    }
    fn noisy_trust() -> State {
        State { v: 5, beta_1: 3.0, zhc_loop_residual: 0.005, trust_vector_entropy: 0.8, agent_count: 5 }
    }
    fn small_graph() -> State {
        State { v: 2, beta_1: 0.0, zhc_loop_residual: 0.0, trust_vector_entropy: 0.0, agent_count: 2 }
    }
    fn agent_count_changed() -> State {
        State { v: 6, beta_1: 0.0, zhc_loop_residual: 0.005, trust_vector_entropy: 0.1, agent_count: 7 }
    }
    fn signals(&self) -> GateSignals {
        GateSignals {
            vertex_count: self.v,
            agent_count: self.agent_count,
            zhc_degraded: self.zhc_loop_residual > 0.01,
            trust_noisy: self.trust_vector_entropy > 0.5,
            beta_rising: self.beta_1 > 0.05,
        }
    }
}

#[test]
fn test_stable_fleet_returns_none() {
    assert_eq!(select(&State::stable_rigid().signals()), None);
}

#[test]
fn test_rigid_fleet_returns_none() {
    assert_eq!(select(&State::stable_rigid().signals()), None);
}

#[test]
fn library_gate_test_small_graph_returns_systems() {
    assert_eq!(select(&State::small_graph().signals()), Some(Specialist::Systems));
}

#[test]
fn test_library_gate_test_small_graph_returns_systems() {
    assert_eq!(select(&State::small_graph().signals()), Some(Specialist::Systems));
}

#[test]
fn library_gate_test_rising_beta_returns_topological() {
    assert_eq!(select(&State::rising_beta().signals()), Some(Specialist::Topological));
}

#[test]
fn test_library_gate_test_rising_beta_returns_topological() {
    assert_eq!(select(&State::rising_beta().signals()), Some(Specialist::Topological));
}

#[test]
fn library_gate_test_degraded_zhc_returns_geometric() {
    assert_eq!(select(&State::degraded_zhc().signals()), Some(Specialist::Geometric));
}

#[test]
fn test_library_gate_test_degraded_zhc_returns_geometric() {
    assert_eq!(select(&State::degraded_zhc().signals()), Some(Specialist::Geometric));
}

#[test]
fn library_gate_test_noisy_trust_returns_algebraic() {
    assert_eq!(select(&State::noisy_trust().signals()), Some(Specialist::Algebraic));
}

#[test]
fn test_library_gate_test_noisy_trust_returns_algebraic() {
    assert_eq!(select(&State::noisy_trust().signals()), Some(Specialist::Algebraic));
}

#[test]
fn library_gate_test_agent_count_changed_returns_empirical() {
    assert_eq!(select(&State::agent_count_changed().signals()), Some(Specialist::Empirical));
}

#[test]
fn test_library_gate_test_agent_count_changed_returns_empirical() {
    assert_eq!(select(&State::agent_count_changed().signals()), Some(Specialist::Empirical));
}

#[test]
fn test_specialist_names() {
    assert_eq!(Specialist::Topological.name(), "topological");
    assert_eq!(Specialist::Geometric.name(), "geometric");
    assert_eq!(Specialist::Algebraic.name(), "algebraic");
    assert_eq!(Specialist::Systems.name(), "systems");
    assert_eq!(Specialist::Empirical.name(), "empirical");
}

#[test]
fn library_gate_test_priority_order_small_graph_first() {
    let mut state = State::small_graph();
    state.beta_1 = 10.0;
    assert_eq!(select(&state.signals()), Some(Specialist::Systems));
}

#[test]
fn test_library_gate_test_priority_order_small_graph_first() {
    let mut state = State::small_graph();
    state.beta_1 = 10.0;
    assert_eq!(select(&state.signals()), Some(Specialist::Systems));
}

#[test]
fn library_gate_test_priority_order_noisy_trust_before_beta() {
    let mut state = State::noisy_trust();
    state.beta_1 = 10.0;
    assert_eq!(select(&state.signals()), Some(Specialist::Algebraic));
}

#[test]
fn test_library_gate_test_priority_order_noisy_trust_before_beta() {
    let mut state = State::noisy_trust();
    state.beta_1 = 10.0;
    assert_eq!(select(&state.signals()), Some(Specialist::Algebraic));
}

#[test]
fn test_all_with_signal_stable_fleet() {
    let signal = all_with_signal(&State::stable_rigid().signals());
    assert!(signal.contains(&Specialist::Systems));
    assert!(!signal.contains(&Specialist::Topological));
}

#[test]
fn test_all_with_signal_rising_beta() {
    let signal = all_with_signal(&State::rising_beta().signals());
    assert!(signal.contains(&Specialist::Systems));
    assert!(signal.contains(&Specialist::Topological));
}

#[test]
fn test_all_with_signal_degraded_zhc() {
    let signal = all_with_signal(&State::degraded_zhc().signals());
    assert!(signal.contains(&Specialist::Systems));
    assert!(signal.contains(&Specialist::Geometric));
}

#[test]
fn test_all_with_signal_noisy_trust() {
    let signal = all_with_signal(&State::noisy_trust().signals());
    assert!(signal.contains(&Specialist::Systems));
    assert!(signal.contains(&Specialist::Algebraic));
}

#[test]
fn test_all_with_signal_multiple_signals() {
    let mut state = State::rising_beta();
    state.zhc_loop_residual = 0.15;
    let signal = all_with_signal(&state.signals());
    assert!(signal.contains(&Specialist::Systems));
    assert!(signal.contains(&Specialist::Topological));
    assert!(signal.contains(&Specialist::Geometric));
}

#[test]
fn gate_all_signals_in_priority_order() {
    let s = GateSignals { vertex_count: 5, agent_count: 6, zhc_degraded: true, trust_noisy: true, beta_rising: true };
    assert_eq!(
        all_with_signal(&s),
        vec![
            Specialist::Systems,
            Specialist::Geometric,
            Specialist::Algebraic,
            Specialist::Topological,
            Specialist::Empirical
        ]
    );
    // the single choice is the first signal after systems
    assert_eq!(select(&s), Some(Specialist::Geometric));
}

#[test]
fn gate_selection_is_among_signals() {
    for bits in 0..32u32 {
        for v in [2usize, 3, 5] {
            let s = GateSignals {
                vertex_count: v,
                agent_count: if bits & 1 == 1 { v + 1 } else { v },
                zhc_degraded: bits & 2 == 2,
                trust_noisy: bits & 4 == 4,
                beta_rising: bits & 8 == 8,
            };
            let all = all_with_signal(&s);
            assert_eq!(all[0], Specialist::Systems);
            match select(&s) {
                Some(x) => assert!(all.contains(&x)),
                None => assert_eq!(all.len(), 1),
            }
        }
    }
}

#[test]
fn gate_task_mismatch_selects_nothing() {
    let s = State::degraded_zhc().signals();
    assert_eq!(select_for_task(false, &s), None);
    assert_eq!(select_for_task(true, &s), Some(Specialist::Geometric));
}

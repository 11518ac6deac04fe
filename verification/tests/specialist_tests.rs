use fleet_spread::graph::{Edge, SpreadGraph, Vertex};
use fleet_spread::report::Finding;
use fleet_spread::systems::{RigidityStatus, SystemsSpecialist};
use fleet_spread::topological::{cycle_complexity_name, TopologicalSpecialist};

fn vertex(i: usize) -> Vertex {
    Vertex { id: format!("agent-{}", i) }
}

fn edge(a: usize, b: usize) -> Edge {
    Edge { from: format!("agent-{}", a), to: format!("agent-{}", b) }
}

fn graph(n: usize, edges: &[(usize, usize)]) -> SpreadGraph {
    let vertices = (0..n).map(vertex).collect();
    let edges = edges.iter().map(|&(a, b)| edge(a, b)).collect();
    SpreadGraph::new("test".to_string(), vertices, edges)
}

fn small_rigid() -> SpreadGraph {
    graph(5, &[(0, 1), (1, 2), (2, 0), (0, 3), (3, 4), (4, 2), (1, 4)])
}

fn disconnected() -> SpreadGraph {
    graph(8, &[(0, 1), (1, 2), (2, 0), (0, 3), (3, 4), (4, 2), (1, 4), (5, 6), (6, 7)])
}

fn over_connected() -> SpreadGraph {
    let mut edges = Vec::new();
    for i in 0..5 {
        for j in (i + 1)..5 {
            edges.push((i, j));
        }
    }
    for i in 0..5 {
        for _ in 0..2 {
            edges.push((i, (i + 1) % 5));
        }
    }
    graph(5, &edges)
}

fn claims(findings: &[Finding]) -> Vec<String> {
    findings.iter().map(|f| f.claim.clone()).collect()
}

#[test]
fn topology_report_counts_independent_cycles() {
    let r = TopologicalSpecialist::new().topology_report(&small_rigid());
    assert_eq!(r.findings[0].claim, "Graph contains 3 independent cycles (β₁ = 3)");
    assert_eq!(r.findings[0].confidence_permille, 900);
    assert_eq!(r.findings[0].evidence, vec!["E - V + C = 7 - 5 + 1".to_string()]);
    assert!(r.findings[1].claim.starts_with("Cycle complexity: "));
    assert_eq!(r.findings[2].claim, "Graph is connected");
    assert_eq!(r.findings[2].evidence, vec!["C = 1".to_string()]);
    assert_eq!(r.findings[3].claim, "Component 1: V=5, E=7, β₁=3, can be rigid");
    assert_eq!(r.findings[3].evidence, vec!["component[0]".to_string()]);
    assert_eq!(r.findings.len(), 4);
    assert!(r.unanswered.is_empty());
    let f = r.figures.unwrap();
    assert_eq!(f.components, 1);
    assert_eq!(f.betti_1, 3);
    assert!(r.findings.iter().any(|f| f.claim.contains("β₁ = 3")));
}

#[test]
fn topology_report_flags_disconnection() {
    let r = TopologicalSpecialist::new().topology_report(&disconnected());
    let cs = claims(&r.findings);
    assert_eq!(cs[0], "Graph contains 3 independent cycles (β₁ = 3)");
    assert_eq!(cs[2], "Graph is disconnected: 2 components detected");
    assert_eq!(r.findings[2].confidence_permille, 950);
    assert_eq!(cs[3], "Component 1: V=5, E=7, β₁=3, can be rigid");
    assert_eq!(cs[4], "Component 2: V=3, E=2, β₁=0, cannot be rigid (under-constrained)");
    assert_eq!(r.unanswered, vec!["Cross-component trust relationships cannot be analyzed".to_string()]);
    assert_eq!(r.figures.unwrap().components, 2);
}

#[test]
fn topology_report_on_forest() {
    let r = TopologicalSpecialist::new().topology_report(&graph(4, &[(0, 1), (1, 2), (2, 3)]));
    assert_eq!(r.findings[0].claim, "Graph is a forest (no cycles)");
    assert_eq!(r.findings[0].evidence, vec!["β₁ = 0".to_string()]);
    assert_eq!(r.findings[1].claim, "Cycle complexity: none (0 cycles detected)");
    assert_eq!(r.findings[1].evidence, vec!["cycle_basis.len() = 0".to_string()]);
    assert_eq!(r.findings[1].confidence_permille, 850);
    assert_eq!(r.findings[3].claim, "Component 1: V=4, E=3, β₁=0, cannot be rigid (under-constrained)");
}

#[test]
fn topology_report_negative_betti_with_repeated_agent() {
    let vertices = vec![Vertex { id: "a".to_string() }, Vertex { id: "a".to_string() }, Vertex { id: "b".to_string() }];
    let g = SpreadGraph::new("repeated".to_string(), vertices, Vec::new());
    let r = TopologicalSpecialist::new().topology_report(&g);
    assert_eq!(r.findings[0].claim, "Graph is under-constrained: E=0, V=3, β₁=-1");
    assert_eq!(r.findings[0].confidence_permille, 950);
    assert_eq!(r.findings[0].evidence, vec!["E - V + C = 0 - 3 + 2".to_string()]);
}

#[test]
fn topology_report_on_too_small_graph() {
    let r = TopologicalSpecialist::new().topology_report(&graph(2, &[(0, 1)]));
    assert_eq!(claims(&r.findings), vec!["Graph has insufficient vertices for meaningful topological analysis".to_string()]);
    assert_eq!(r.findings[0].confidence_permille, 900);
    assert_eq!(r.findings[0].evidence, vec!["V < 3".to_string()]);
    assert_eq!(r.unanswered, vec!["Graph too small for cycle detection (V < 3)".to_string()]);
    assert!(r.figures.is_none());
}

#[test]
fn cycle_complexity_levels() {
    assert_eq!(cycle_complexity_name(0), "none");
    assert_eq!(cycle_complexity_name(1), "low");
    assert_eq!(cycle_complexity_name(3), "low");
    assert_eq!(cycle_complexity_name(4), "moderate");
    assert_eq!(cycle_complexity_name(10), "moderate");
    assert_eq!(cycle_complexity_name(11), "high");
}

#[test]
fn rigidity_report_on_laman_rigid_graph() {
    let r = SystemsSpecialist::new().rigidity_report(&small_rigid(), 0, String::new());
    assert_eq!(r.findings[0].claim, "Graph is Laman-rigid: E=7 = 2V-3=7");
    assert_eq!(r.findings[0].confidence_permille, 900);
    assert_eq!(r.findings[0].evidence, vec!["E=7 = 2V-3=7, all subgraphs valid".to_string()]);
    assert_eq!(r.findings[1].claim, "Max vertex degree: 3 (expected: ~2)");
    assert_eq!(r.findings[1].evidence, vec!["V=5, E=7".to_string()]);
    assert_eq!(r.findings[1].confidence_permille, 700);
    assert!(r.findings[2].claim.ends_with(" redundant edges detected (not needed for rigidity)"));
    assert_eq!(r.findings.len(), 3);
    assert!(r.unanswered.is_empty());
    let f = r.figures.unwrap();
    assert!(f.is_rigid);
    assert_eq!(f.lamancount, 7);
    assert_eq!(f.max_degree, 3);
    assert_eq!(f.max_degree_expected, 2);
    assert!(f.redundant_edges > 0);
}

#[test]
fn rigidity_report_on_over_constrained_graph() {
    let mut edges = Vec::new();
    for i in 0..5 {
        for j in (i + 1)..5 {
            edges.push((i, j));
        }
    }
    for i in 0..5 {
        edges.push((i, (i + 1) % 5));
        edges.push((i, (i + 1) % 5));
    }
    let r = SystemsSpecialist::new().rigidity_report(&graph(5, &edges), 2, "40.0% of vertices".to_string());
    assert_eq!(r.findings[0].claim, "Graph is over-constrained: E=20 > 2V-3=7");
    assert_eq!(r.findings[0].confidence_permille, 850);
    assert_eq!(r.findings[0].evidence, vec!["E=20 ≠ 2V-3=7".to_string()]);
    assert_eq!(r.findings[2].claim, "2 nodes are over-constrained (high degree relative to average)");
    assert_eq!(r.findings[2].evidence, vec!["40.0% of vertices".to_string()]);
    assert_eq!(r.findings[2].confidence_permille, 750);
    assert!(r.findings.iter().any(|f| f.claim.contains("over-constrained")));
    assert!(!r.figures.unwrap().is_rigid);
}

#[test]
fn rigidity_report_per_component() {
    let r = SystemsSpecialist::new().rigidity_report(&disconnected(), 0, String::new());
    assert_eq!(r.findings[0].claim, "Graph is under-constrained: E=9 < 2V-3=13");
    assert_eq!(r.findings[0].evidence, vec!["E=9 ≠ 2V-3=13".to_string()]);
    assert_eq!(r.findings[2].claim, "Component analysis: 1 rigid, 1 under, 0 over");
    assert_eq!(r.findings[2].evidence, vec!["2 total components".to_string()]);
    assert_eq!(r.findings[2].confidence_permille, 800);
    let f = r.figures.unwrap();
    assert_eq!(f.components.len(), 2);
    assert_eq!(f.components[0].status, RigidityStatus::Rigid);
    assert_eq!(f.components[1].status, RigidityStatus::UnderConstrained);
}

#[test]
fn rigidity_report_on_too_small_graph() {
    let r = SystemsSpecialist::new().rigidity_report(&graph(2, &[(0, 1)]), 0, String::new());
    assert_eq!(claims(&r.findings), vec!["Graph has insufficient vertices for Laman rigidity (V < 3)".to_string()]);
    assert_eq!(r.findings[0].evidence, vec!["V = 2".to_string()]);
    assert_eq!(r.unanswered, vec!["Graph too small for rigidity analysis (V < 3)".to_string()]);
    assert!(r.figures.is_none());
}

// The report's confidence is computed outside the library from the figures:
// 0.8, less 0.1 when disconnected, less 0.1 when no cycle is found among
// more than three vertices. The tests below check those figures.

#[test]
fn test_small_rigid_topology() {
    let specialist = TopologicalSpecialist::new();
    let report = specialist.topology_report(&small_rigid());
    assert_eq!(specialist.id(), "topological");
    let f = report.figures.as_ref().unwrap();
    assert!(f.components == 1 && f.cycles > 0);
    assert!(report.findings.iter().any(|f| f.claim.contains("β₁ = 3")));
}

#[test]
fn test_disconnected_topology() {
    let report = TopologicalSpecialist::new().topology_report(&disconnected());
    assert!(report.findings.iter().any(|f| f.claim.contains("disconnected")));
    assert!(!report.unanswered.is_empty());
}

#[test]
fn test_topological_small_rigid() {
    let specialist = TopologicalSpecialist::new();
    let report = specialist.topology_report(&small_rigid());
    assert_eq!(specialist.id(), "topological");
    let f = report.figures.as_ref().unwrap();
    assert!(f.components == 1 || f.cycles > 0);
    assert!(report.findings.iter().any(|f| f.claim.contains("3") || f.claim.contains("β₁")));
}

#[test]
fn test_topological_disconnected() {
    let report = TopologicalSpecialist::new().topology_report(&disconnected());
    assert!(report.findings.iter().any(|f| f.claim.contains("disconnected")));
    assert!(!report.unanswered.is_empty());
}

#[test]
fn test_small_rigid_systems() {
    let specialist = SystemsSpecialist::new();
    let report = specialist.rigidity_report(&small_rigid(), 0, String::new());
    assert_eq!(specialist.id(), "systems");
    assert!(report.findings.iter().any(|f| f.claim.contains("Laman-rigid")));
}

#[test]
fn test_over_connected_systems() {
    let report = SystemsSpecialist::new().rigidity_report(&over_connected(), 0, String::new());
    assert!(report.findings.iter().any(|f| f.claim.contains("over-constrained")));
}

#[test]
fn test_systems_laman_rigid() {
    let specialist = SystemsSpecialist::new();
    let report = specialist.rigidity_report(&small_rigid(), 0, String::new());
    assert_eq!(specialist.id(), "systems");
    assert!(report.findings.iter().any(|f| f.claim.contains("Laman-rigid") || f.claim.contains("rigid")));
}

#[test]
fn test_systems_over_constrained() {
    let report = SystemsSpecialist::new().rigidity_report(&over_connected(), 0, String::new());
    assert!(report.findings.iter().any(|f| f.claim.contains("over-constrained")));
}

#[test]
fn laman_counts_two_vertex_subsets() {
    // a doubled link A–B with B–C: E = 3 = 2V − 3, but {A, B} spans 2 > 1 edges
    let g = graph(3, &[(0, 1), (0, 1), (1, 2)]);
    let (rigid, reasons) = SystemsSpecialist::new().is_laman_rigid(&g);
    assert!(!rigid);
    assert_eq!(reasons, vec!["Subgraph with 2 vertices has 2 edges (expected ≤ 1)".to_string()]);
}

#[test]
fn laman_predicates_for_any_size() {
    // E = 0 > 2·0 − 3 = −3
    let empty = graph(0, &[]);
    assert!(empty.is_over_constrained());
    assert!(!empty.is_laman_candidate());
    assert!(!empty.is_under_constrained());
    // E = 0 > 2·1 − 3 = −1
    let one = graph(1, &[]);
    assert!(one.is_over_constrained());
    // E = 1 = 2·2 − 3
    let two = graph(2, &[(0, 1)]);
    assert!(two.is_laman_candidate());
    assert!(!two.is_over_constrained());
    assert!(graph(2, &[]).is_under_constrained());
}

#[test]
fn topology_claims_one_component_finding_each() {
    let r = TopologicalSpecialist::new().topology_report(&disconnected());
    assert_eq!(r.findings.iter().filter(|f| f.claim.starts_with("Component ")).count(), 2);
    assert!(!r.findings.iter().any(|f| f.claim == "Graph is connected"));
    let r = TopologicalSpecialist::new().topology_report(&small_rigid());
    assert_eq!(r.findings.iter().filter(|f| f.claim.starts_with("Component ")).count(), 1);
    assert!(r.findings.iter().any(|f| f.claim == "Graph is connected"));
    assert!(r.unanswered.is_empty());
}

use fleet_coordinate::graph::FleetGraph;
use fleet_spread::bridge::{checked_quick_check, convert_from_coordinate, quick_check, reads_connected, rigidity_check};

fn triangle() -> FleetGraph {
    let mut cg = FleetGraph::new();
    cg.add_agent(1, [0.0, 0.0], vec![]);
    cg.add_agent(2, [1.0, 0.0], vec![]);
    cg.add_agent(3, [0.5, 0.87], vec![]);
    cg.add_edge(1, 2);
    cg.add_edge(2, 3);
    cg.add_edge(3, 1);
    cg
}

#[test]
fn test_quick_check() {
    let cg = triangle();
    let result = quick_check(&cg);
    assert!(result.is_rigid);
    assert!(!result.emergence_detected);
    assert_eq!(result.beta_1, 1);
}

#[test]
fn bridge_complete_graph_shows_emergence() {
    let mut cg = FleetGraph::new();
    for i in 0..4u64 {
        cg.add_agent(i, [i as f64, 0.0], vec![]);
    }
    for i in 0..4u64 {
        for j in (i + 1)..4 {
            cg.add_edge(i, j);
        }
    }
    // V = 4, E = 6 > 2·4 − 3 = 5
    let result = quick_check(&cg);
    assert!(result.emergence_detected);
    assert_eq!(result.beta_1, 3);
    assert!(!result.is_rigid);
    assert_eq!(result.max_neighbors, 3);
}

#[test]
fn bridge_checked_refuses_tiny_graph() {
    let mut cg = FleetGraph::new();
    cg.add_agent(1, [0.0, 0.0], vec![]);
    assert!(checked_quick_check(&cg).is_none());
    assert!(checked_quick_check(&triangle()).is_some());
}

#[test]
fn test_convert_from_coordinate() {
    let mut cg = FleetGraph::new();
    cg.add_agent(1, [0.0, 0.0], vec![]);
    cg.add_agent(2, [1.0, 0.0], vec![]);
    cg.add_edge(1, 2);

    let spread = convert_from_coordinate(&cg).unwrap();
    assert_eq!(spread.v(), 2);
    assert_eq!(spread.e(), 1);
}

#[test]
fn bridge_convert_names_agents_by_position() {
    let mut cg = FleetGraph::new();
    for i in 0..3u64 {
        cg.add_agent(i, [i as f64, 0.0], vec![]);
    }
    cg.add_edge(0, 1);
    cg.add_edge(1, 2);
    cg.add_edge(2, 0);
    let g = convert_from_coordinate(&cg).unwrap();
    assert_eq!(g.v(), 3);
    assert_eq!(g.e(), 3);
    assert_eq!(g.id().as_str(), "coordinated-fleet");
    assert_eq!(g.components(), 1);
    assert_eq!(g.degree("agent-0"), 2);
    assert_eq!(g.degree("agent-2"), 2);
}

#[test]
fn bridge_rigidity_check_of_triangle() {
    let r = rigidity_check(&triangle()).unwrap();
    assert!(r.is_rigid);
    assert_eq!((r.v, r.e, r.expected_e, r.h1_dimension, r.max_neighbors), (3, 3, 3, 1, 2));
    let mut one = FleetGraph::new();
    one.add_agent(7, [0.0, 0.0], vec![]);
    assert!(rigidity_check(&one).is_none());
}

#[test]
fn bridge_reads_connected() {
    assert!(reads_connected(0, 2));
    assert!(reads_connected(4, 3));
    assert!(!reads_connected(1, 2));
}

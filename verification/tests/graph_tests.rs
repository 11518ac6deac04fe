use fleet_spread::graph::{Edge, SpreadGraph, Vertex};
use fleet_spread::identify_graph_type;

fn vertex(i: usize) -> Vertex {
    Vertex { id: format!("agent-{}", i) }
}

fn edge(a: usize, b: usize) -> Edge {
    Edge { from: format!("agent-{}", a), to: format!("agent-{}", b) }
}

fn make_small_rigid() -> SpreadGraph {
    let vertices = (0..5).map(vertex).collect();
    let edges = vec![edge(0, 1), edge(1, 2), edge(2, 0), edge(0, 3), edge(3, 4), edge(4, 2), edge(1, 4)];
    SpreadGraph::new("small-rigid".to_string(), vertices, edges)
}

fn make_over_connected() -> SpreadGraph {
    let vertices = (0..5).map(vertex).collect();
    let mut edges = Vec::new();
    for i in 0..5 {
        for j in (i + 1)..5 {
            edges.push(edge(i, j));
        }
    }
    edges.push(edge(0, 1));
    edges.push(edge(2, 3));
    SpreadGraph::new("over-connected".to_string(), vertices, edges)
}

fn make_disconnected() -> SpreadGraph {
    let vertices = (0..8).map(vertex).collect();
    let edges = vec![
        edge(0, 1),
        edge(1, 2),
        edge(2, 0),
        edge(0, 3),
        edge(3, 4),
        edge(4, 2),
        edge(1, 4),
        edge(5, 6),
        edge(6, 7),
    ];
    SpreadGraph::new("disconnected".to_string(), vertices, edges)
}

#[test]
fn test_small_rigid_properties() {
    let g = make_small_rigid();
    assert_eq!(g.v(), 5);
    assert_eq!(g.e(), 7);
    assert_eq!(g.components(), 1);
    assert!(g.is_laman_candidate());
    assert_eq!(g.betti_1(), 3);
}

#[test]
fn test_over_connected_properties() {
    let g = make_over_connected();
    assert_eq!(g.v(), 5);
    assert!(g.e() > 7);
    assert!(g.is_over_constrained());
    assert!(g.betti_1() > 3);
}

#[test]
fn test_disconnected_properties() {
    let g = make_disconnected();
    assert_eq!(g.v(), 8);
    assert_eq!(g.e(), 9);
    assert_eq!(g.components(), 2);
    assert!(g.betti_1() <= 3);
}

#[test]
fn graph_betti_number_formula() {
    // β₁ = E − V + C on each sample graph
    assert_eq!(make_over_connected().betti_1(), 12 - 5 + 1);
    assert_eq!(make_disconnected().betti_1(), 9 - 8 + 2);
}

#[test]
fn graph_identify_types() {
    assert_eq!(identify_graph_type(&make_small_rigid()), "rigid");
    assert_eq!(identify_graph_type(&make_over_connected()), "over-connected");
    assert_eq!(identify_graph_type(&make_disconnected()), "disconnected");
    let path = SpreadGraph::new(
        "path".to_string(),
        (0..4).map(vertex).collect(),
        vec![edge(0, 1), edge(1, 2), edge(2, 3)],
    );
    assert_eq!(identify_graph_type(&path), "under-constrained");
}

#[test]
fn graph_degrees() {
    let g = make_small_rigid();
    assert_eq!(g.degree("agent-0"), 3);
    assert_eq!(g.degree("agent-3"), 2);
    assert_eq!(g.degree("nobody"), 0);
    assert_eq!(g.max_degree(), 3);
    let k = make_over_connected();
    // K5 plus a second 0-1 and 2-3 edge
    assert_eq!(k.degree("agent-0"), 5);
    assert_eq!(k.max_degree(), 5);
}

#[test]
fn graph_under_and_over_counts() {
    let g = make_small_rigid();
    assert!(!g.is_over_constrained());
    assert!(!g.is_under_constrained());
    let d = make_disconnected();
    // 9 edges against 2·8 − 3 = 13
    assert!(d.is_under_constrained());
}

#[test]
fn graph_components_of_edgeless_graph() {
    let g = SpreadGraph::new("lonely".to_string(), (0..3).map(vertex).collect(), vec![]);
    assert_eq!(g.components(), 3);
    assert_eq!(g.betti_1(), 0);
}

#[test]
fn graph_cycle_basis_of_triangle() {
    let g = SpreadGraph::new(
        "triangle".to_string(),
        (0..3).map(vertex).collect(),
        vec![edge(0, 1), edge(1, 2), edge(2, 0)],
    );
    let cycles = g.cycle_basis();
    // 0-1 and 1-2 join new nodes; 2-0 closes the one cycle: from 0 along
    // the earlier edges 0-1 and 1-2 to 2, closed by 2-0 itself
    assert_eq!(cycles.len(), 1);
    assert_eq!(cycles[0], vec!["agent-0".to_string(), "agent-1".to_string(), "agent-2".to_string()]);
    let mut red = g.redundant_edges();
    red.sort();
    assert_eq!(
        red,
        vec![
            "agent-0->agent-1".to_string(),
            "agent-1->agent-0".to_string(),
            "agent-1->agent-2".to_string(),
            "agent-2->agent-1".to_string(),
        ]
    );
}

#[test]
fn graph_cycle_basis_of_square() {
    let g = SpreadGraph::new(
        "square".to_string(),
        (0..4).map(vertex).collect(),
        vec![edge(0, 1), edge(1, 2), edge(2, 3), edge(3, 0)],
    );
    let names: Vec<String> = (0..4).map(|i| format!("agent-{}", i)).collect();
    assert_eq!(g.cycle_basis(), vec![names]);
}

#[test]
fn graph_cycle_basis_has_betti_cycles() {
    let g = make_small_rigid();
    let cycles = g.cycle_basis();
    assert_eq!(cycles.len() as i64, g.betti_1());
    for c in &cycles {
        assert!(c.len() >= 3);
    }
    for i in 0..cycles.len() {
        for j in (i + 1)..cycles.len() {
            assert_ne!(cycles[i], cycles[j]);
        }
    }
    let d = make_disconnected();
    assert_eq!(d.cycle_basis().len() as i64, d.betti_1());
    assert_eq!(d.cycle_indices().len(), 3);
}

#[test]
fn graph_cycle_basis_counts_repeated_links() {
    // a repeated link closes a two-node cycle, a loop a one-node cycle
    let g = SpreadGraph::new(
        "multi".to_string(),
        (0..2).map(vertex).collect(),
        vec![edge(0, 1), edge(1, 0), edge(1, 1)],
    );
    assert_eq!(
        g.cycle_indices(),
        vec![vec![0, 1], vec![1]]
    );
}

#[test]
fn graph_tree_has_no_cycles() {
    let g = SpreadGraph::new(
        "star".to_string(),
        (0..4).map(vertex).collect(),
        vec![edge(0, 1), edge(0, 2), edge(0, 3)],
    );
    assert!(g.cycle_basis().is_empty());
    assert!(g.redundant_edges().is_empty());
}

#[test]
fn graph_degrees_add_up_to_twice_the_edges() {
    let g = make_small_rigid();
    let total: usize = (0..5).map(|i| g.degree(&format!("agent-{}", i))).sum();
    assert_eq!(total, 2 * g.e());
    let d = make_disconnected();
    let total: usize = (0..8).map(|i| d.degree(&format!("agent-{}", i))).sum();
    assert_eq!(total, 2 * d.e());
}

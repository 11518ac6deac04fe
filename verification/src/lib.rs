//! Fleet graph analysis: the topology of a trust graph between fleet agents
//! (components, Betti number, Laman counts, cycles), the selection policy of
//! the library gate, and the claim logic that the synthesis layer and the
//! captain apply to specialist findings.
use vstd::prelude::*;

pub mod graph;
pub mod connectivity;
pub mod text;
pub mod systems;
pub mod topological;
pub mod cycles;
pub mod claims;
pub mod synthesis;
pub mod quality;
pub mod gate;
pub mod captain;
pub mod bridge;
pub mod algebraic;
pub mod tiles;
pub mod betti;
pub mod report;

use crate::graph::{GraphView, SpreadGraph};

verus! {

/// The kind of a graph: disconnected (more than one component), else by
/// Laman's count E against 2V − 3: over-connected, under-constrained or
/// rigid.
pub open spec fn graph_type(g: GraphView) -> Seq<char> {
    if g.component_count() > 1 {
        "disconnected"@
    } else if g.edges.len() > 2 * g.vertices.len() - 3 {
        "over-connected"@
    } else if g.edges.len() < 2 * g.vertices.len() - 3 {
        "under-constrained"@
    } else if g.edges.len() == 2 * g.vertices.len() - 3 {
        "rigid"@
    } else {
        "unknown"@
    }
}

/// Identify the kind of a graph from its structure.
pub fn identify_graph_type(graph: &SpreadGraph) -> (r: &'static str)
    requires
        graph.wf(),
    ensures
        r@ == graph_type(graph@),
{
    if graph.components() > 1 {
        "disconnected"
    } else if graph.is_over_constrained() {
        "over-connected"
    } else if graph.is_under_constrained() {
        "under-constrained"
    } else if graph.is_laman_candidate() {
        "rigid"
    } else {
        "unknown"
    }
}

} // verus!

//! The pipeline's directed graph, kept in a `petgraph::Graph`.
//!
//! Verus sees nothing inside a petgraph graph. Two names stand for what it holds: the
//! node weights in order of insertion, and the edges as (source, target) node
//! indices in order of insertion. Each operation the pipeline performs on the
//! graph is a small function here whose contract speaks of those two names.

use petgraph::graph::NodeIndex;
use petgraph::{Directed, Direction, Graph};
use vstd::prelude::*;

use super::PipeNode;

verus! {

/// Declares petgraph's `Graph` so that it can stand in fields and signatures; its
/// contents are reached only through the names and functions below.
#[verifier::external_type_specification]
#[verifier::external_body]
#[verifier::reject_recursive_types(N)]
#[verifier::reject_recursive_types(E)]
#[verifier::reject_recursive_types(Ty)]
#[verifier::reject_recursive_types(Ix)]
pub struct ExGraph<N, E, Ty, Ix>(Graph<N, E, Ty, Ix>);

/// Declares petgraph's `Directed` marker, the edge type of the pipeline's graph.
#[verifier::external_type_specification]
#[verifier::external_body]
pub struct ExDirected(Directed);

/// The graph type of a pipeline: task and artifact nodes, unweighted directed edges.
pub type PipeGraph = Graph<PipeNode, (), Directed, usize>;

/// The node weights of a graph, indexed by node index.
pub uninterp spec fn graph_nodes(g: PipeGraph) -> Seq<PipeNode>;

/// The edges of a graph as (source, target) node indices, indexed by edge index.
pub uninterp spec fn graph_edges(g: PipeGraph) -> Seq<(usize, usize)>;

/// The neighbours of node `a` over the edges `edges`, most recently added edge first.
///
/// With `incoming` these are the sources of the edges into `a`; otherwise the
/// targets of the edges out of `a`.
pub open spec fn adjacent(edges: Seq<(usize, usize)>, a: usize, incoming: bool) -> Seq<usize>
    decreases edges.len(),
{
    if edges.len() == 0 {
        Seq::empty()
    } else {
        let e = edges.last();
        let rest = adjacent(edges.drop_last(), a, incoming);
        if incoming && e.1 == a {
            seq![e.0] + rest
        } else if !incoming && e.0 == a {
            seq![e.1] + rest
        } else {
            rest
        }
    }
}

/// Relies on `Graph::with_capacity`: a new graph has no nodes and no edges.
#[verifier::external_body]
pub(crate) fn graph_new() -> (r: PipeGraph)
    ensures
        graph_nodes(r) == Seq::<PipeNode>::empty(),
        graph_edges(r) == Seq::<(usize, usize)>::empty(),
{
    Graph::with_capacity(0, 0)
}

/// Relies on `Graph::add_node`: the weight is appended, and its index is the old
/// node count. With `usize` indices it has no capacity limit of its own.
#[verifier::external_body]
pub(crate) fn graph_add_node(g: &mut PipeGraph, weight: PipeNode) -> (r: usize)
    ensures
        graph_nodes(*final(g)) == graph_nodes(*old(g)).push(weight),
        graph_edges(*final(g)) == graph_edges(*old(g)),
        r == graph_nodes(*old(g)).len(),
{
    g.add_node(weight).index()
}

/// Relies on `Graph::add_edge`: the edge is appended. It panics when a node index
/// is out of bounds; with `usize` indices it has no capacity limit of its own.
#[verifier::external_body]
pub(crate) fn graph_add_edge(g: &mut PipeGraph, a: usize, b: usize)
    requires
        a < graph_nodes(*old(g)).len(),
        b < graph_nodes(*old(g)).len(),
    ensures
        graph_nodes(*final(g)) == graph_nodes(*old(g)),
        graph_edges(*final(g)) == graph_edges(*old(g)).push((a, b)),
{
    g.add_edge(NodeIndex::new(a), NodeIndex::new(b), ());
}

/// Relies on `Graph::node_weight`: the weight of node `a`, if the node exists.
#[verifier::external_body]
pub(crate) fn graph_node_weight(g: &PipeGraph, a: usize) -> (r: Option<&PipeNode>)
    ensures
        a < graph_nodes(*g).len() ==> r == Some(&graph_nodes(*g)[a as int]),
        a >= graph_nodes(*g).len() ==> r is None,
{
    g.node_weight(NodeIndex::new(a))
}

/// Relies on `Graph::neighbors_directed`: on a directed graph it lists the
/// neighbours of `a` in the given direction in reverse order of edge insertion.
#[verifier::external_body]
pub(crate) fn graph_neighbors(g: &PipeGraph, a: usize, incoming: bool) -> (r: Vec<usize>)
    requires
        a < graph_nodes(*g).len(),
    ensures
        r@ == adjacent(graph_edges(*g), a, incoming),
{
    let dir = if incoming { Direction::Incoming } else { Direction::Outgoing };
    g.neighbors_directed(NodeIndex::new(a), dir).map(|n| n.index()).collect()
}

} // verus!

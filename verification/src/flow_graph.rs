//! The control-flow graph: nodes carry MicroC actions, directed edges are
//! possible control transfers.
//!
//! The graph itself is a `petgraph` directed graph.  Verified code sees it
//! through two spec-level names — the sequence of actions its nodes hold and
//! its edge relation over node indices — and a handful of trusted read-only
//! accessors whose contracts are stated over those names.

use vstd::prelude::*;

use crate::NodeId;
use crate::microc::{Declaration, Statement};

verus! {

/// The program action a control-flow-graph node stands for.
#[derive(Debug)]
pub enum Action {
    Declaration(Declaration),
    Statement(Statement),
}

/// A control-flow graph together with its designated entry node.
pub type FlowGraph = (petgraph::graph::DiGraph<Action, u32>, NodeId);

#[verifier::external_type_specification]
#[verifier::external_body]
#[verifier::reject_recursive_types(N)]
#[verifier::reject_recursive_types(E)]
#[verifier::reject_recursive_types(Ty)]
#[verifier::reject_recursive_types(Ix)]
pub struct ExGraph<N, E, Ty, Ix>(petgraph::graph::Graph<N, E, Ty, Ix>);

#[verifier::external_type_specification]
#[verifier::external_body]
pub struct ExDirected(petgraph::Directed);

/// The actions held by the graph's nodes, in node-index order.
pub uninterp spec fn graph_actions(g: petgraph::graph::DiGraph<Action, u32>) -> Seq<Action>;

/// The edge relation of the graph, over node indices.
pub uninterp spec fn graph_edges(g: petgraph::graph::DiGraph<Action, u32>) -> Set<(int, int)>;

/// Relies on petgraph's `Graph::node_count`: the number of nodes in the graph.
#[verifier::external_body]
pub(crate) fn node_count(g: &petgraph::graph::DiGraph<Action, u32>) -> (n: usize)
    ensures
        n == graph_actions(*g).len(),
{
    g.node_count()
}

/// Relies on petgraph's node-weight indexing: node `i` holds the `i`-th action
/// that was added to the graph (indices are contiguous and stable, as nodes
/// are never removed here).
#[verifier::external_body]
pub(crate) fn action_of<'a>(g: &'a petgraph::graph::DiGraph<Action, u32>, i: NodeId) -> (a: &'a Action)
    requires
        i < graph_actions(*g).len(),
    ensures
        *a == graph_actions(*g)[i as int],
{
    &g[petgraph::graph::NodeIndex::new(i)]
}

/// Relies on petgraph's `Graph::contains_edge`: whether the graph has an edge
/// from `a` to `b`.
#[verifier::external_body]
pub(crate) fn has_edge(g: &petgraph::graph::DiGraph<Action, u32>, a: NodeId, b: NodeId) -> (r: bool)
    requires
        a < graph_actions(*g).len(),
        b < graph_actions(*g).len(),
    ensures
        r == graph_edges(*g).contains((a as int, b as int)),
{
    g.contains_edge(petgraph::graph::NodeIndex::new(a), petgraph::graph::NodeIndex::new(b))
}

/// Relies on petgraph's `Graph::neighbors_directed` with the outgoing
/// direction: the targets of the edges leaving `a`, each a valid node index.
#[verifier::external_body]
pub(crate) fn successors(g: &petgraph::graph::DiGraph<Action, u32>, a: NodeId) -> (r: Vec<NodeId>)
    requires
        a < graph_actions(*g).len(),
    ensures
        forall|k: int|
            0 <= k < r@.len() ==> (r@[k] as int) < graph_actions(*g).len() && graph_edges(
                *g,
            ).contains((a as int, r@[k] as int)),
        forall|m: int|
            0 <= m < graph_actions(*g).len() && graph_edges(*g).contains((a as int, m))
                ==> r@.contains(m as usize),
{
    g.neighbors_directed(petgraph::graph::NodeIndex::new(a), petgraph::Direction::Outgoing)
        .map(|x| x.index())
        .collect()
}

/// Relies on petgraph's `Graph::neighbors_directed` with the incoming
/// direction: the sources of the edges arriving at `a`, each a valid node
/// index.
#[verifier::external_body]
pub(crate) fn predecessors(g: &petgraph::graph::DiGraph<Action, u32>, a: NodeId) -> (r: Vec<NodeId>)
    requires
        a < graph_actions(*g).len(),
    ensures
        forall|k: int|
            0 <= k < r@.len() ==> (r@[k] as int) < graph_actions(*g).len() && graph_edges(
                *g,
            ).contains(((r@[k] as int), a as int)),
        forall|m: int|
            0 <= m < graph_actions(*g).len() && graph_edges(*g).contains((m, a as int))
                ==> r@.contains(m as usize),
{
    g.neighbors_directed(petgraph::graph::NodeIndex::new(a), petgraph::Direction::Incoming)
        .map(|x| x.index())
        .collect()
}

} // verus!

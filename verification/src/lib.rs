use vstd::prelude::*;

pub mod analysis;
pub mod flow_graph;
pub mod lexer;
pub mod microc;
pub mod parser;
pub mod worklist;

verus! {

/// A node identifier: a stable, copyable handle into the control-flow graph.
pub type NodeId = usize;

} // verus!

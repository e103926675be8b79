use microc_dataflow::analysis::{
    analyze, solve, AnalysisError, Sign, SignDetecter, WriteDetecter,
};
use microc_dataflow::flow_graph::Action;
use microc_dataflow::microc::{ArithmeticExpr, ArithmeticLiteral, LvalueExpr, Statement};
use microc_dataflow::worklist::{FifoWorklist, FiloWorklist};
use petgraph::graph::DiGraph;

fn assign(name: &str, value: isize) -> Action {
    Action::Statement(Statement::LvalueAssign(
        LvalueExpr::Variable(name.to_string()),
        ArithmeticExpr::Literal(ArithmeticLiteral::Int(value)),
    ))
}

fn pass_through(name: &str) -> Action {
    Action::Statement(Statement::Write(ArithmeticExpr::LvalueExpr(
        LvalueExpr::Variable(name.to_string()),
    )))
}

#[test]
fn empty_graph_is_rejected() {
    let graph: DiGraph<Action, u32> = DiGraph::new();
    let result = analyze(&(graph, 0), "sa".to_string());
    match result {
        Err(AnalysisError::EmptyGraph) => {}
        _ => panic!("an empty graph must yield the empty-graph error"),
    }
}

#[test]
fn empty_graph_is_rejected_before_the_selector() {
    let graph: DiGraph<Action, u32> = DiGraph::new();
    let result = analyze(&(graph, 0), "xx".to_string());
    match result {
        Err(AnalysisError::EmptyGraph) => {}
        _ => panic!("a zero-node graph always yields the empty-graph error"),
    }
}

#[test]
fn unknown_selector_is_rejected() {
    let mut graph: DiGraph<Action, u32> = DiGraph::new();
    let a = graph.add_node(assign("x", 1));
    let result = analyze(&(graph, a.index()), "xx".to_string());
    match result {
        Err(AnalysisError::UnknownAnalysis(name)) => assert_eq!(name, "xx"),
        _ => panic!("an unknown selector must be rejected with its name"),
    }
}

#[test]
fn single_node_constant_transfer() {
    let mut graph: DiGraph<Action, u32> = DiGraph::new();
    let a = graph.add_node(assign("x", 1));
    let result = analyze(&(graph, a.index()), "sa".to_string()).unwrap();
    assert_eq!(result.len(), 1);
    assert_eq!(result.get(a.index()), Some(&Sign::Plus));
}

#[test]
fn two_node_chain_propagates() {
    let mut graph: DiGraph<Action, u32> = DiGraph::new();
    let a = graph.add_node(assign("x", -1));
    let b = graph.add_node(pass_through("x"));
    graph.add_edge(a, b, 0);
    let result = analyze(&(graph, a.index()), "sa".to_string()).unwrap();
    assert_eq!(result.get(a.index()), Some(&Sign::Minus));
    assert_eq!(result.get(b.index()), Some(&Sign::Minus));
}

#[test]
fn diamond_joins_the_more_imprecise_value() {
    let mut graph: DiGraph<Action, u32> = DiGraph::new();
    let a = graph.add_node(pass_through("x"));
    let b = graph.add_node(assign("x", 1));
    let c = graph.add_node(assign("x", -1));
    let d = graph.add_node(pass_through("x"));
    graph.add_edge(a, b, 0);
    graph.add_edge(a, c, 0);
    graph.add_edge(b, d, 0);
    graph.add_edge(c, d, 0);
    let result = analyze(&(graph, a.index()), "sa".to_string()).unwrap();
    assert_eq!(result.get(b.index()), Some(&Sign::Plus));
    assert_eq!(result.get(c.index()), Some(&Sign::Minus));
    // join(Plus, Minus) takes the more imprecise of the two: Minus.
    assert_eq!(result.get(d.index()), Some(&Sign::Minus));
}

#[test]
fn stack_and_queue_disciplines_agree() {
    let mut graph: DiGraph<Action, u32> = DiGraph::new();
    let a = graph.add_node(pass_through("x"));
    let b = graph.add_node(assign("x", 1));
    let c = graph.add_node(assign("x", -1));
    let d = graph.add_node(pass_through("x"));
    let e = graph.add_node(pass_through("x"));
    graph.add_edge(a, b, 0);
    graph.add_edge(a, c, 0);
    graph.add_edge(b, d, 0);
    graph.add_edge(c, d, 0);
    graph.add_edge(d, e, 0);
    graph.add_edge(e, b, 0); // a cycle back into the diamond
    let sd = SignDetecter {};
    let stack = solve::<FiloWorklist, Sign, SignDetecter>(&graph, a.index(), &sd).unwrap();
    let queue = solve::<FifoWorklist, Sign, SignDetecter>(&graph, a.index(), &sd).unwrap();
    assert_eq!(stack.len(), queue.len());
    for id in 0..stack.len() {
        assert_eq!(stack.get(id), queue.get(id));
    }
}

#[test]
fn unreachable_nodes_get_no_entry() {
    let mut graph: DiGraph<Action, u32> = DiGraph::new();
    let a = graph.add_node(assign("x", 1));
    let b = graph.add_node(assign("y", -1));
    let stray = graph.add_node(assign("z", 0));
    graph.add_edge(a, b, 0);
    // the stray node has an edge out, but nothing reaches it
    graph.add_edge(stray, b, 0);
    let result = analyze(&(graph, a.index()), "sa".to_string()).unwrap();
    assert_eq!(result.len(), 3);
    assert_eq!(result.get(a.index()), Some(&Sign::Plus));
    assert_eq!(result.get(b.index()), Some(&Sign::Minus));
    assert_eq!(result.get(stray.index()), None);
    assert_eq!(result.get(17), None);
}

#[test]
fn self_loop_converges() {
    let mut graph: DiGraph<Action, u32> = DiGraph::new();
    let a = graph.add_node(assign("x", 3));
    let b = graph.add_node(pass_through("x"));
    graph.add_edge(a, b, 0);
    graph.add_edge(b, b, 0);
    let result = analyze(&(graph, a.index()), "sa".to_string()).unwrap();
    assert_eq!(result.get(a.index()), Some(&Sign::Plus));
    assert_eq!(result.get(b.index()), Some(&Sign::Plus));
}

#[test]
fn zero_assignment_stays_at_the_bottom() {
    let mut graph: DiGraph<Action, u32> = DiGraph::new();
    let a = graph.add_node(assign("x", 0));
    let result = analyze(&(graph, a.index()), "sa".to_string()).unwrap();
    assert_eq!(result.get(a.index()), Some(&Sign::Zero));
}

#[test]
fn backward_analysis_propagates_against_the_edges() {
    // a -> b -> c(write) -> d: a write lies ahead of a, b and c, not of d
    let mut graph: DiGraph<Action, u32> = DiGraph::new();
    let a = graph.add_node(assign("x", 1));
    let b = graph.add_node(assign("x", 2));
    let c = graph.add_node(pass_through("x"));
    let d = graph.add_node(assign("x", 3));
    graph.add_edge(a, b, 0);
    graph.add_edge(b, c, 0);
    graph.add_edge(c, d, 0);
    let wd = WriteDetecter {};
    let result = solve::<FifoWorklist, bool, WriteDetecter>(&graph, a.index(), &wd).unwrap();
    assert_eq!(result.get(a.index()), Some(&true));
    assert_eq!(result.get(b.index()), Some(&true));
    assert_eq!(result.get(c.index()), Some(&true));
    assert_eq!(result.get(d.index()), Some(&false));
    let stack = solve::<FiloWorklist, bool, WriteDetecter>(&graph, a.index(), &wd).unwrap();
    for id in 0..result.len() {
        assert_eq!(result.get(id), stack.get(id));
    }
}

use redstone_compiler::graph::{GraphNode, GraphNodeId, GraphNodeKind};
use redstone_compiler::logic::{Logic, LogicType};
use redstone_compiler::transform::logic::fold_constants::LogicGraphTransformer;
use redstone_compiler::transform::logic::rewrite::{Graph, LogicGraph};

fn input(name: &str) -> GraphNode {
    GraphNode { kind: GraphNodeKind::Input(name.to_owned()), ..Default::default() }
}

fn constant() -> GraphNode {
    GraphNode { kind: GraphNodeKind::Constant(true), ..Default::default() }
}

fn logic(logic_type: LogicType, inputs: Vec<GraphNodeId>) -> GraphNode {
    GraphNode { kind: GraphNodeKind::Logic(Logic { logic_type }), inputs, ..Default::default() }
}

fn named_output(name: &str, input: GraphNodeId) -> GraphNode {
    GraphNode { kind: GraphNodeKind::Output(name.to_owned()), inputs: vec![input], ..Default::default() }
}

fn output(input: GraphNodeId) -> GraphNode {
    named_output("y", input)
}

fn fold(nodes: Vec<GraphNode>) -> LogicGraph {
    let mut transformer = LogicGraphTransformer::new(LogicGraph { graph: Graph::from_nodes(nodes) });
    transformer.fold_constants(&|_: &LogicGraph| Ok(())).unwrap();
    transformer.finish()
}

fn output_producer(graph: &LogicGraph) -> GraphNodeId {
    let output = graph
        .graph
        .nodes
        .iter()
        .find(|node| matches!(node.kind, GraphNodeKind::Output(_)))
        .expect("output node");
    output.inputs[0]
}

#[test]
fn folds_identity_and_absorbing_operations() {
    // and(x, 1) -> x
    let graph = fold(vec![input("x"), constant(), logic(LogicType::And, vec![0, 1]), output(2)]);
    let producer = graph.graph.find_node_by_id(output_producer(&graph)).unwrap();
    assert!(matches!(producer.kind, GraphNodeKind::Input(_)));

    // or(x, 0) -> x, with zero represented as Not(Constant(true))
    let graph = fold(vec![
        input("x"),
        constant(),
        logic(LogicType::Not, vec![1]),
        logic(LogicType::Or, vec![0, 2]),
        output(3),
    ]);
    let producer = graph.graph.find_node_by_id(output_producer(&graph)).unwrap();
    assert!(matches!(producer.kind, GraphNodeKind::Input(_)));

    // and(x, 0) -> 0
    let graph = fold(vec![
        input("x"),
        constant(),
        logic(LogicType::Not, vec![1]),
        logic(LogicType::And, vec![0, 2]),
        output(3),
    ]);
    let producer = graph.graph.find_node_by_id(output_producer(&graph)).unwrap();
    assert!(matches!(producer.kind, GraphNodeKind::Logic(Logic { logic_type: LogicType::Not })));
}

#[test]
fn folds_xor_with_constants_and_not_of_constant() {
    // xor(x, 1) -> not(x)
    let graph = fold(vec![input("x"), constant(), logic(LogicType::Xor, vec![0, 1]), output(2)]);
    let producer = graph.graph.find_node_by_id(output_producer(&graph)).unwrap();
    assert!(matches!(producer.kind, GraphNodeKind::Logic(Logic { logic_type: LogicType::Not })));

    // not(0) -> 1
    let graph = fold(vec![
        constant(),
        logic(LogicType::Not, vec![0]),
        logic(LogicType::Not, vec![1]),
        output(2),
    ]);
    let producer = graph.graph.find_node_by_id(output_producer(&graph)).unwrap();
    assert!(matches!(producer.kind, GraphNodeKind::Constant(true)));
}

#[test]
fn folding_preserves_fanout() {
    // and(x, 1) feeding two outputs: both must read x.
    let graph = fold(vec![
        input("x"),
        constant(),
        logic(LogicType::And, vec![0, 1]),
        named_output("y0", 2),
        named_output("y1", 2),
    ]);
    for node in graph.graph.nodes.iter() {
        if let GraphNodeKind::Output(_) = node.kind {
            let producer = graph.graph.find_node_by_id(node.inputs[0]).unwrap();
            assert!(matches!(producer.kind, GraphNodeKind::Input(_)));
        }
    }
}

#[test]
fn false_constants_become_inverted_true_ones() {
    let falsehood = || GraphNode { kind: GraphNodeKind::Constant(false), ..Default::default() };
    // and(x, 0) -> 0, which is Not(Constant(true)) though there is a false constant.
    let graph = fold(vec![input("x"), falsehood(), logic(LogicType::And, vec![0, 1]), output(2)]);
    let producer = graph.graph.find_node_by_id(output_producer(&graph)).unwrap();
    assert!(matches!(producer.kind, GraphNodeKind::Logic(Logic { logic_type: LogicType::Not })));
    let source = graph.graph.find_node_by_id(producer.inputs[0]).unwrap();
    assert!(matches!(source.kind, GraphNodeKind::Constant(true)));

    // or(x, 0) -> x, and not(0) -> 1
    let graph = fold(vec![input("x"), falsehood(), logic(LogicType::Or, vec![0, 1]), output(2)]);
    let producer = graph.graph.find_node_by_id(output_producer(&graph)).unwrap();
    assert!(matches!(producer.kind, GraphNodeKind::Input(_)));
    let graph = fold(vec![falsehood(), logic(LogicType::Not, vec![0]), output(1)]);
    let producer = graph.graph.find_node_by_id(output_producer(&graph)).unwrap();
    assert!(matches!(producer.kind, GraphNodeKind::Constant(true)));
}

#[test]
fn long_chains_are_folded_to_the_end() {
    // Three hundred gates, each and(previous, 1): all of them become x.
    let mut nodes = vec![input("x"), constant()];
    for index in 0..300usize {
        let previous = if index == 0 { 0 } else { index + 1 };
        nodes.push(logic(LogicType::And, vec![previous, 1]));
    }
    nodes.push(output(301));
    // Two for each gate and two for its inputs are more than the rewrites that there
    // may be, but one is enough for each.
    let graph = fold(nodes);
    let producer = graph.graph.find_node_by_id(output_producer(&graph)).unwrap();
    assert!(matches!(producer.kind, GraphNodeKind::Input(_)));
    let gates = graph.graph.nodes.iter().filter(|node| matches!(node.kind, GraphNodeKind::Logic(_))).count();
    assert_eq!(gates, 0);
}

#[test]
fn gates_that_read_themselves_are_folded() {
    // or(g, 1) -> 1, where g names that same gate.
    let graph = fold(vec![constant(), logic(LogicType::Or, vec![1, 0]), output(1)]);
    let producer = graph.graph.find_node_by_id(output_producer(&graph)).unwrap();
    assert!(matches!(producer.kind, GraphNodeKind::Constant(true)));

    // and(g, 1) stands for itself and stays.
    let graph = fold(vec![constant(), logic(LogicType::And, vec![1, 0]), output(1)]);
    let producer = graph.graph.find_node_by_id(output_producer(&graph)).unwrap();
    assert!(matches!(producer.kind, GraphNodeKind::Logic(Logic { logic_type: LogicType::And })));
    assert_eq!(producer.inputs[0], producer.id);
}

#[test]
fn folded_graphs_are_verified() {
    let nodes = vec![input("x"), constant(), logic(LogicType::And, vec![0, 1]), output(2)];
    let mut transformer = LogicGraphTransformer::new(LogicGraph { graph: Graph::from_nodes(nodes) });
    let refuse = |graph: &LogicGraph| {
        let gates = graph.graph.nodes.iter().filter(|node| matches!(node.kind, GraphNodeKind::Logic(_))).count();
        Err(format!("{gates} gates"))
    };
    assert_eq!(transformer.fold_constants(&refuse), Err("0 gates".to_owned()));
}

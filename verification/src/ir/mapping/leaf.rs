//! Writing a scalar graph as a routable leaf.

use super::error::{ErrorView, LowerError};
use super::scalar::{output_views, BuilderView, LeafBuilder};
use crate::graph::{node_views, GraphNode, GraphNodeKind, KindView, NodeView};
use crate::ir::routable::{
    BodyView, RoutableKindView, RoutableModule, RoutableModuleBody, RoutableModuleView, RoutableNode, RoutableNodeKind,
    RoutableNodeView, RoutablePort, RoutablePortDirection, RoutablePortView,
};
use crate::logic::LogicType;
use crate::sequential::{SequentialPrimitive, SequentialType};
use crate::text::{copy_texts, texts};
use vstd::prelude::*;

verus! {

/// The leaf node kind of a graph node, where a leaf can hold it.
pub open spec fn leaf_kind(kind: KindView) -> Option<RoutableKindView> {
    match kind {
        KindView::Input(name) => Some(RoutableKindView::Input(name)),
        KindView::Constant(value) => Some(RoutableKindView::Constant(value)),
        KindView::Output(name) => Some(RoutableKindView::Output(name)),
        KindView::Logic(LogicType::Not) => Some(RoutableKindView::Not),
        KindView::Logic(LogicType::And) => Some(RoutableKindView::And),
        KindView::Logic(LogicType::Or) => Some(RoutableKindView::Or),
        KindView::Logic(LogicType::Xor) => Some(RoutableKindView::Xor),
        KindView::Sequential(primitive, inputs, outputs) => Some(
            RoutableKindView::Sequential(primitive, inputs, outputs),
        ),
        KindView::Unset | KindView::Block | KindView::Clustered => None,
    }
}

/// Why a leaf cannot hold a graph node.
pub open spec fn leaf_kind_error(kind: KindView) -> ErrorView {
    match kind {
        KindView::Block => ErrorView::PhysicalNode,
        KindView::Clustered => ErrorView::ClusteredNode,
        _ => ErrorView::UnresolvedNode,
    }
}

/// The leaf node of a graph node.
pub open spec fn leaf_node(node: NodeView) -> RoutableNodeView {
    RoutableNodeView { id: node.id, kind: leaf_kind(node.kind)->0, inputs: node.inputs, tag: node.tag }
}

/// The ports of a leaf: one for each input and output node, in node order.
pub open spec fn leaf_ports(nodes: Seq<NodeView>) -> Seq<RoutablePortView>
    decreases nodes.len(),
{
    if nodes.len() == 0 {
        Seq::empty()
    } else {
        let before = leaf_ports(nodes.drop_last());
        match nodes.last().kind {
            KindView::Input(name) => before.push(
                RoutablePortView { name, direction: RoutablePortDirection::Input },
            ),
            KindView::Output(name) => before.push(
                RoutablePortView { name, direction: RoutablePortDirection::Output },
            ),
            _ => before,
        }
    }
}

/// The leaf of a graph.
pub open spec fn leaf_module(name: Seq<char>, nodes: Seq<NodeView>) -> RoutableModuleView {
    RoutableModuleView {
        name,
        ports: leaf_ports(nodes),
        body: BodyView::Leaf(nodes.map_values(|node: NodeView| leaf_node(node))),
    }
}

/// Builds a leaf module from the nodes of a graph, one leaf node for each.
pub fn routable_leaf_from_graph(name: &str, nodes: &Vec<GraphNode>) -> (result: Result<RoutableModule, LowerError>)
    ensures
        match result {
            Ok(module) => {
                &&& forall|i: int| 0 <= i < nodes.len() ==> leaf_kind(#[trigger] nodes[i].kind@) is Some
                &&& module@ == leaf_module(name@, node_views(nodes@))
            },
            Err(error) => exists|bad: int|
                {
                    &&& 0 <= bad < nodes.len()
                    &&& leaf_kind(#[trigger] nodes[bad].kind@) is None
                    &&& error@ == leaf_kind_error(nodes[bad].kind@)
                    &&& forall|i: int| 0 <= i < bad ==> leaf_kind(#[trigger] nodes[i].kind@) is Some
                },
        },
{
    let ghost views = node_views(nodes@);
    let mut ports: Vec<RoutablePort> = Vec::new();
    let mut leaf_nodes: Vec<RoutableNode> = Vec::new();
    for index in 0..nodes.len()
        invariant
            views == node_views(nodes@),
            forall|i: int| 0 <= i < index ==> leaf_kind(#[trigger] nodes[i].kind@) is Some,
            ports@.map_values(|port: RoutablePort| port@) == leaf_ports(views.take(index as int)),
            leaf_nodes.len() == index,
            forall|i: int| 0 <= i < index ==> (#[trigger] leaf_nodes[i])@ == leaf_node(views[i]),
    {
        let node = &nodes[index];
        proof {
            let longer = views.take(index + 1);
            assert(longer.drop_last() =~= views.take(index as int));
            assert(longer.last() == node@);
        }
        let ghost ports_before = ports@;
        let kind = match &node.kind {
            GraphNodeKind::Input(name) => {
                ports.push(RoutablePort { name: name.clone(), direction: RoutablePortDirection::Input });
                RoutableNodeKind::Input { name: name.clone() }
            },
            GraphNodeKind::Constant(value) => RoutableNodeKind::Constant { value: *value },
            GraphNodeKind::Output(name) => {
                ports.push(RoutablePort { name: name.clone(), direction: RoutablePortDirection::Output });
                RoutableNodeKind::Output { name: name.clone() }
            },
            GraphNodeKind::Logic(logic) => match logic.logic_type {
                LogicType::Not => RoutableNodeKind::Not,
                LogicType::And => RoutableNodeKind::And,
                LogicType::Or => RoutableNodeKind::Or,
                LogicType::Xor => RoutableNodeKind::Xor,
            },
            GraphNodeKind::Sequential(sequential) => RoutableNodeKind::Sequential {
                primitive: sequential.sequential_type,
                input_ports: copy_texts(&sequential.input_ports),
                output_ports: copy_texts(&sequential.output_ports),
            },
            GraphNodeKind::Unset => return Err(LowerError::UnresolvedNode),
            GraphNodeKind::Block => return Err(LowerError::PhysicalNode),
            GraphNodeKind::Clustered => return Err(LowerError::ClusteredNode),
        };
        proof {
            assert(ports@.map_values(|port: RoutablePort| port@) =~= leaf_ports(views.take(index + 1)));
        }
        let inputs = node.inputs.clone();
        assert(inputs@ =~= node.inputs@);
        leaf_nodes.push(RoutableNode { id: node.id, kind, inputs, tag: node.tag.clone() });
    }
    let module = RoutableModule { name: name.to_owned(), ports, body: RoutableModuleBody::Leaf { nodes: leaf_nodes } };
    proof {
        assert(views.take(nodes.len() as int) =~= views);
        assert(leaf_nodes@.map_values(|node: RoutableNode| node@) =~= views.map_values(
            |node: NodeView| leaf_node(node),
        ));
    }
    Ok(module)
}

/// The graph of a finished builder: its nodes numbered in order, then one
/// output node for each requested output.
pub open spec fn finished_nodes(builder: BuilderView) -> Seq<NodeView> {
    Seq::new(
        builder.nodes.len() + builder.outputs.len(),
        |i: int|
            if i < builder.nodes.len() {
                NodeView { id: i as usize, ..builder.nodes[i] }
            } else {
                NodeView {
                    id: i as usize,
                    kind: KindView::Output(builder.outputs[i - builder.nodes.len()].0),
                    inputs: seq![builder.outputs[i - builder.nodes.len()].1],
                    tag: Seq::empty(),
                }
            },
    )
}

impl LeafBuilder {
    /// The finished nodes: those collected so far and the requested outputs.
    pub fn to_graph(&self) -> (nodes: Vec<GraphNode>)
        ensures
            node_views(nodes@) == finished_nodes(self@),
    {
        let ghost view = self@;
        let (own, outputs) = self.parts();
        let mut nodes: Vec<GraphNode> = Vec::new();
        for index in 0..own.len()
            invariant
                node_views(own@) == view.nodes,
                nodes.len() == index,
                forall|i: int| 0 <= i < index ==> (#[trigger] nodes[i])@ == (NodeView { id: i as usize, ..view.nodes[i] }),
        {
            let mut node = own[index].copy();
            assert(view.nodes[index as int] == own[index as int]@);
            node.id = index;
            nodes.push(node);
        }
        for index in 0..outputs.len()
            invariant
                own.len() == view.nodes.len(),
                output_views(outputs@) == view.outputs,
                nodes.len() == own.len() + index,
                forall|i: int| 0 <= i < nodes.len() ==> (#[trigger] nodes[i])@ == finished_nodes(view)[i],
        {
            let output = &outputs[index];
            assert(view.outputs[index as int] == (output.name@, output.node));
            let id: usize = nodes.len();
            let inputs = vec![output.node];
            assert(inputs@ =~= seq![output.node]);
            let mut node = GraphNode::default();
            node.id = id;
            node.kind = GraphNodeKind::Output(output.name.clone());
            node.inputs = inputs;
            nodes.push(node);
        }
        assert(node_views(nodes@) =~= finished_nodes(view));
        nodes
    }

    /// The finished leaf.
    pub fn finish(&self, name: &str) -> (module: RoutableModule)
        requires
            self.wf(),
        ensures
            module@ == leaf_module(name@, finished_nodes(self@)),
    {
        let ghost view = self@;
        proof {
            self.wf_gives();
        }
        let nodes = self.to_graph();
        proof {
            assert forall|i: int| 0 <= i < nodes.len() implies leaf_kind(#[trigger] nodes[i].kind@) is Some by {
                assert(node_views(nodes@)[i] == nodes[i]@);
                assert(finished_nodes(view)[i].kind == nodes[i].kind@);
                if i < view.nodes.len() {
                    assert(super::scalar::is_cone_node(view.nodes[i]));
                }
            }
        }
        match routable_leaf_from_graph(name, &nodes) {
            Ok(module) => module,
            Err(_) => {
                proof {
                    assert(false);
                }
                RoutableModule {
                    name: name.to_owned(),
                    ports: Vec::new(),
                    body: RoutableModuleBody::Leaf { nodes: Vec::new() },
                }
            },
        }
    }
}

/// The nodes of the clock inverter leaf.
pub open spec fn not_clock_nodes() -> Seq<NodeView> {
    seq![
        NodeView { id: 0, kind: KindView::Input("clk"@), inputs: Seq::empty(), tag: Seq::empty() },
        NodeView { id: 1, kind: KindView::Logic(LogicType::Not), inputs: seq![0usize], tag: Seq::empty() },
        NodeView { id: 2, kind: KindView::Output("clk_n"@), inputs: seq![1usize], tag: Seq::empty() },
    ]
}

/// A leaf module with the inverse of `clk` as its only logic.
pub fn not_clock_module(name: &str) -> (module: RoutableModule)
    ensures
        module@ == leaf_module(name@, not_clock_nodes()),
{
    let mut builder = LeafBuilder::new();
    let clock: usize = builder.add_input("clk");
    let inputs = vec![clock];
    let inverse: usize = builder.add_logic(LogicType::Not, inputs, "");
    builder.add_output("clk_n", inverse);
    proof {
        reveal_strlit("");
        assert(inputs@ =~= seq![0usize]);
        assert(""@ =~= Seq::<char>::empty());
        assert(finished_nodes(builder@) =~= not_clock_nodes());
    }
    builder.finish(name)
}

/// The nodes of the latch leaf.
pub open spec fn d_latch_nodes() -> Seq<NodeView> {
    seq![
        NodeView { id: 0, kind: KindView::Input("d"@), inputs: Seq::empty(), tag: Seq::empty() },
        NodeView { id: 1, kind: KindView::Input("en"@), inputs: Seq::empty(), tag: Seq::empty() },
        NodeView {
            id: 2,
            kind: KindView::Sequential(SequentialType::DLatch, seq!["d"@, "en"@], seq!["q"@]),
            inputs: seq![0usize, 1usize],
            tag: Seq::empty(),
        },
        NodeView { id: 3, kind: KindView::Output("q"@), inputs: seq![2usize], tag: Seq::empty() },
    ]
}

/// A leaf module with one D latch that exposes `d`, `en` and `q`.
pub fn d_latch_routable_module(name: &str) -> (module: RoutableModule)
    ensures
        module@ == leaf_module(name@, d_latch_nodes()),
{
    let data = GraphNode { id: 0, kind: GraphNodeKind::Input("d".to_owned()), ..GraphNode::default() };
    let enable = GraphNode { id: 1, kind: GraphNodeKind::Input("en".to_owned()), ..GraphNode::default() };
    let input_ports = vec!["d".to_owned(), "en".to_owned()];
    let output_ports = vec!["q".to_owned()];
    proof {
        assert(texts(input_ports@) =~= seq!["d"@, "en"@]);
        assert(texts(output_ports@) =~= seq!["q"@]);
    }
    let latch_inputs = vec![0usize, 1usize];
    assert(latch_inputs@ =~= seq![0usize, 1usize]);
    let latch = GraphNode {
        id: 2,
        kind: GraphNodeKind::Sequential(
            SequentialPrimitive::new(SequentialType::DLatch, input_ports, output_ports),
        ),
        inputs: latch_inputs,
        ..GraphNode::default()
    };
    let output_inputs = vec![2usize];
    assert(output_inputs@ =~= seq![2usize]);
    let output = GraphNode {
        id: 3,
        kind: GraphNodeKind::Output("q".to_owned()),
        inputs: output_inputs,
        ..GraphNode::default()
    };
    let nodes = vec![data, enable, latch, output];
    proof {
        assert(node_views(nodes@) =~= d_latch_nodes());
        assert forall|i: int| 0 <= i < nodes.len() implies leaf_kind(#[trigger] nodes[i].kind@) is Some by {
            assert(node_views(nodes@)[i] == nodes[i]@);
        }
    }
    match routable_leaf_from_graph(name, &nodes) {
        Ok(module) => module,
        Err(_) => {
            proof {
                assert(false);
            }
            RoutableModule {
                name: name.to_owned(),
                ports: Vec::new(),
                body: RoutableModuleBody::Leaf { nodes: Vec::new() },
            }
        },
    }
}

} // verus!

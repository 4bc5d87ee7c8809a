//! Logic graphs: nodes that refer to their inputs by id.

use crate::logic::{logic_value, Logic, LogicType};
use crate::sequential::{SequentialPrimitive, SequentialType};
use crate::text::{copy_texts, texts};
use vstd::prelude::*;

verus! {

/// Identifies a node within its graph.
pub type GraphNodeId = usize;

/// What a node of a logic graph is.
#[derive(Clone, Debug)]
pub enum GraphNodeKind {
    Unset,
    Input(String),
    Output(String),
    Constant(bool),
    Logic(Logic),
    Sequential(SequentialPrimitive),
    Block,
    Clustered,
}

/// The contents of a [`GraphNodeKind`].
pub enum KindView {
    Unset,
    Input(Seq<char>),
    Output(Seq<char>),
    Constant(bool),
    Logic(LogicType),
    Sequential(SequentialType, Seq<Seq<char>>, Seq<Seq<char>>),
    Block,
    Clustered,
}

impl View for GraphNodeKind {
    type V = KindView;

    open spec fn view(&self) -> KindView {
        match self {
            GraphNodeKind::Unset => KindView::Unset,
            GraphNodeKind::Input(name) => KindView::Input(name@),
            GraphNodeKind::Output(name) => KindView::Output(name@),
            GraphNodeKind::Constant(value) => KindView::Constant(*value),
            GraphNodeKind::Logic(logic) => KindView::Logic(logic.logic_type),
            GraphNodeKind::Sequential(primitive) => KindView::Sequential(
                primitive.sequential_type,
                texts(primitive.input_ports@),
                texts(primitive.output_ports@),
            ),
            GraphNodeKind::Block => KindView::Block,
            GraphNodeKind::Clustered => KindView::Clustered,
        }
    }
}

impl GraphNodeKind {
    /// An equal kind.
    pub fn copy(&self) -> (copy: Self)
        ensures
            copy@ == self@,
    {
        match self {
            GraphNodeKind::Unset => GraphNodeKind::Unset,
            GraphNodeKind::Input(name) => GraphNodeKind::Input(name.clone()),
            GraphNodeKind::Output(name) => GraphNodeKind::Output(name.clone()),
            GraphNodeKind::Constant(value) => GraphNodeKind::Constant(*value),
            GraphNodeKind::Logic(logic) => GraphNodeKind::Logic(*logic),
            GraphNodeKind::Sequential(primitive) => GraphNodeKind::Sequential(
                SequentialPrimitive::new(
                    primitive.sequential_type,
                    copy_texts(&primitive.input_ports),
                    copy_texts(&primitive.output_ports),
                ),
            ),
            GraphNodeKind::Block => GraphNodeKind::Block,
            GraphNodeKind::Clustered => GraphNodeKind::Clustered,
        }
    }

    /// Whether this is a boundary input.
    pub fn is_input(&self) -> (is_input: bool)
        ensures
            is_input == (self@ is Input),
    {
        matches!(self, GraphNodeKind::Input(_))
    }
}

/// A node of a logic graph.
#[derive(Clone, Debug)]
pub struct GraphNode {
    pub id: GraphNodeId,
    pub kind: GraphNodeKind,
    pub inputs: Vec<GraphNodeId>,
    pub tag: String,
}

/// The contents of a [`GraphNode`].
pub struct NodeView {
    pub id: usize,
    pub kind: KindView,
    pub inputs: Seq<usize>,
    pub tag: Seq<char>,
}

impl View for GraphNode {
    type V = NodeView;

    open spec fn view(&self) -> NodeView {
        NodeView { id: self.id, kind: self.kind@, inputs: self.inputs@, tag: self.tag@ }
    }
}

impl Default for GraphNode {
    fn default() -> (node: Self)
        ensures
            node@ == (NodeView {
                id: 0,
                kind: KindView::Unset,
                inputs: Seq::empty(),
                tag: Seq::empty(),
            }),
    {
        GraphNode { id: 0, kind: GraphNodeKind::Unset, inputs: Vec::new(), tag: String::new() }
    }
}

impl GraphNode {
    /// A node with the given fields and id 0.
    pub fn new(kind: GraphNodeKind, inputs: Vec<GraphNodeId>, tag: &str) -> (node: Self)
        ensures
            node@ == (NodeView { id: 0, kind: kind@, inputs: inputs@, tag: tag@ }),
    {
        GraphNode { id: 0, kind, inputs, tag: tag.to_owned() }
    }

    /// An equal node.
    pub fn copy(&self) -> (copy: Self)
        ensures
            copy@ == self@,
    {
        let inputs = self.inputs.clone();
        assert(inputs@ =~= self.inputs@);
        GraphNode { id: self.id, kind: self.kind.copy(), inputs, tag: self.tag.clone() }
    }
}

/// The contents of a list of nodes.
pub open spec fn node_views(nodes: Seq<GraphNode>) -> Seq<NodeView> {
    nodes.map_values(|node: GraphNode| node@)
}

/// The values of a list of nodes.
pub open spec fn values_at(valuation: spec_fn(int) -> bool, ids: Seq<usize>) -> Seq<bool> {
    ids.map_values(|id: usize| valuation(id as int))
}

/// Whether the value of node `id` follows from the values of its inputs.
/// Storage and physical nodes may hold any value.
pub open spec fn node_holds(
    node: NodeView,
    id: int,
    env: spec_fn(Seq<char>) -> bool,
    valuation: spec_fn(int) -> bool,
) -> bool {
    match node.kind {
        KindView::Input(name) => valuation(id) == env(name),
        KindView::Constant(value) => valuation(id) == value,
        KindView::Logic(op) => valuation(id) == logic_value(op, values_at(valuation, node.inputs)),
        KindView::Output(_) => node.inputs.len() > 0 ==> valuation(id) == valuation(
            node.inputs[0] as int,
        ),
        _ => true,
    }
}

/// Whether a valuation of all nodes agrees with the boundary values `env` and
/// with every gate. Nodes are numbered by their place in the list.
pub open spec fn consistent(
    nodes: Seq<NodeView>,
    env: spec_fn(Seq<char>) -> bool,
    valuation: spec_fn(int) -> bool,
) -> bool {
    forall|id: int| 0 <= id < nodes.len() ==> node_holds(#[trigger] nodes[id], id, env, valuation)
}

/// Whether every node only reads nodes that stand before it in the list.
pub open spec fn reads_backward(nodes: Seq<NodeView>) -> bool {
    forall|id: int, pin: int|
        0 <= id < nodes.len() && 0 <= pin < nodes[id].inputs.len() ==> (#[trigger] nodes[id].inputs[pin]) < id
}

/// A graph whose nodes only read earlier nodes has one value per gate: any two
/// consistent valuations agree on every input, constant, gate and output.
pub proof fn valuation_is_unique(
    nodes: Seq<NodeView>,
    env: spec_fn(Seq<char>) -> bool,
    left: spec_fn(int) -> bool,
    right: spec_fn(int) -> bool,
    id: int,
)
    requires
        reads_backward(nodes),
        consistent(nodes, env, left),
        consistent(nodes, env, right),
        forall|i: int| 0 <= i < nodes.len() ==> is_combinational(#[trigger] nodes[i].kind),
        forall|i: int| 0 <= i < nodes.len() && nodes[i].kind is Output ==> #[trigger] nodes[i].inputs.len() > 0,
        0 <= id < nodes.len(),
    ensures
        left(id) == right(id),
    decreases id,
{
    let node = nodes[id];
    assert forall|pin: int| 0 <= pin < node.inputs.len() implies left(
        (#[trigger] node.inputs[pin]) as int,
    ) == right(node.inputs[pin] as int) by {
        assert(nodes[id].inputs[pin] < id);
        valuation_is_unique(nodes, env, left, right, node.inputs[pin] as int);
    }
    assert(values_at(left, node.inputs) =~= values_at(right, node.inputs));
    assert(node_holds(node, id, env, left));
    assert(node_holds(node, id, env, right));
}

/// Whether a node's value is a function of the boundary inputs.
pub open spec fn is_combinational(kind: KindView) -> bool {
    kind is Input || kind is Output || kind is Constant || kind is Logic
}

} // verus!

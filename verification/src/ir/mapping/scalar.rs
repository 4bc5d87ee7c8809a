//! Bit names and leaf construction.
//!
//! Logical circuits are bus-aware; routable ones are scalar. [`ScalarNets`]
//! maps a logical net plus a bit index to the name of a scalar net.
//! [`LeafBuilder`] collects the scalar nodes of one leaf.

use super::error::{ErrorView, LowerError};
use crate::graph::{node_views, reads_backward, GraphNode, GraphNodeKind, KindView, NodeView};
use crate::ir::logical::{LogicalModule, NetView};
use crate::logic::{Logic, LogicType};
use crate::text::{decimal, decimal_injective, decimal_text, join3, texts};
use vstd::hash_map::StringHashMap;
use vstd::prelude::*;

verus! {

/// The name of one bit of a net: the net's own name where it is scalar, else
/// the name with the bit number behind it.
pub open spec fn scalar_text(net: Seq<char>, width: usize, bit: nat) -> Seq<char> {
    if width == 1 {
        net
    } else {
        net + "_"@ + decimal(bit)
    }
}

/// Different bits of one net have different names.
pub proof fn scalar_text_injective(net: Seq<char>, width: usize, left: nat, right: nat)
    requires
        left < width,
        right < width,
        scalar_text(net, width, left) == scalar_text(net, width, right),
    ensures
        left == right,
{
    if width != 1 {
        let head = net + "_"@;
        assert((head + decimal(left)).skip(head.len() as int) =~= decimal(left));
        assert((head + decimal(right)).skip(head.len() as int) =~= decimal(right));
        decimal_injective(left, right);
    }
}

/// The name of one bit of a net.
pub fn scalar_name(net: &str, width: usize, bit: usize) -> (name: String)
    ensures
        name@ == scalar_text(net@, width, bit as nat),
{
    if width == 1 {
        net.to_owned()
    } else {
        let digits = decimal_text(bit);
        join3(net, "_", digits.as_str())
    }
}

/// The declared width of each net; of nets that share a name, the last counts.
pub open spec fn net_widths(nets: Seq<NetView>) -> Map<Seq<char>, usize>
    decreases nets.len(),
{
    if nets.len() == 0 {
        Map::empty()
    } else {
        net_widths(nets.drop_last()).insert(nets.last().name, nets.last().width)
    }
}

/// The names of the bits of a net.
pub open spec fn bit_texts(net: Seq<char>, width: usize) -> Seq<Seq<char>> {
    Seq::new(width as nat, |bit: int| scalar_text(net, width, bit as nat))
}

/// Net widths of one logical module.
pub struct ScalarNets {
    widths: StringHashMap<usize>,
}

impl View for ScalarNets {
    type V = Map<Seq<char>, usize>;

    closed spec fn view(&self) -> Map<Seq<char>, usize> {
        self.widths@
    }
}

impl ScalarNets {
    pub fn from_module(module: &LogicalModule) -> (nets: Self)
        ensures
            nets@ == net_widths(module@.nets),
    {
        let mut widths: StringHashMap<usize> = StringHashMap::new();
        for index in 0..module.nets.len()
            invariant
                widths@ == net_widths(module@.nets.take(index as int)),
        {
            let net = &module.nets[index];
            widths.insert(net.name.clone(), net.width);
            proof {
                let longer = module@.nets.take(index + 1);
                assert(longer.drop_last() =~= module@.nets.take(index as int));
                assert(longer.last() == net@);
            }
        }
        assert(module@.nets.take(module.nets.len() as int) =~= module@.nets);
        ScalarNets { widths }
    }

    pub fn width(&self, net: &str) -> (width: Result<usize, LowerError>)
        ensures
            match width {
                Ok(width) => self@.contains_key(net@) && width == self@[net@],
                Err(error) => !self@.contains_key(net@) && error@ == ErrorView::UnknownNet(net@),
            },
    {
        match self.widths.get(net) {
            Some(width) => Ok(*width),
            None => Err(LowerError::UnknownNet(net.to_owned())),
        }
    }

    /// Scalar name of one bit of a logical net.
    pub fn scalar(&self, net: &str, bit: usize) -> (name: Result<String, LowerError>)
        ensures
            match name {
                Ok(name) => self@.contains_key(net@) && bit < self@[net@] && name@ == scalar_text(
                    net@,
                    self@[net@],
                    bit as nat,
                ),
                Err(error) => if self@.contains_key(net@) {
                    bit >= self@[net@] && error@ == ErrorView::BitOutOfRange(net@, bit, self@[net@])
                } else {
                    error@ == ErrorView::UnknownNet(net@)
                },
            },
    {
        match self.width(net) {
            Ok(width) => {
                if bit >= width {
                    return Err(LowerError::BitOutOfRange { net: net.to_owned(), bit, width });
                }
                Ok(scalar_name(net, width, bit))
            },
            Err(error) => Err(error),
        }
    }

    /// Scalar names of all bits of a logical net, lowest first.
    pub fn bits(&self, net: &str) -> (names: Result<Vec<String>, LowerError>)
        ensures
            match names {
                Ok(names) => self@.contains_key(net@) && texts(names@) == bit_texts(net@, self@[net@]),
                Err(error) => !self@.contains_key(net@) && error@ == ErrorView::UnknownNet(net@),
            },
    {
        match self.width(net) {
            Ok(width) => {
                let mut names: Vec<String> = Vec::new();
                for bit in 0..width
                    invariant
                        names.len() == bit,
                        forall|i: int| 0 <= i < bit ==> names[i]@ == scalar_text(net@, width, i as nat),
                {
                    names.push(scalar_name(net, width, bit));
                }
                assert(texts(names@) =~= bit_texts(net@, width));
                Ok(names)
            },
            Err(error) => Err(error),
        }
    }
}

/// The names of the boundary inputs among `nodes`, in order.
pub open spec fn input_names_of(nodes: Seq<NodeView>) -> Seq<Seq<char>>
    decreases nodes.len(),
{
    if nodes.len() == 0 {
        Seq::empty()
    } else {
        match nodes.last().kind {
            KindView::Input(name) => input_names_of(nodes.drop_last()).push(name),
            _ => input_names_of(nodes.drop_last()),
        }
    }
}

/// A requested output: its port name and the node that drives it.
pub struct LeafOutput {
    pub name: String,
    pub node: usize,
}

/// The contents of a list of requested outputs.
pub open spec fn output_views(outputs: Seq<LeafOutput>) -> Seq<(Seq<char>, usize)> {
    outputs.map_values(|output: LeafOutput| (output.name@, output.node))
}

/// The contents of a [`LeafBuilder`].
pub struct BuilderView {
    /// The nodes so far, each reading only earlier ones.
    pub nodes: Seq<NodeView>,
    /// The node that produces each scalar net.
    pub producers: Map<Seq<char>, usize>,
    /// The requested outputs.
    pub outputs: Seq<(Seq<char>, usize)>,
    /// The node that stands for constant one.
    pub one: Option<usize>,
    /// The node that stands for constant zero.
    pub zero: Option<usize>,
}

/// Whether a node can stand in a builder.
pub open spec fn is_cone_node(node: NodeView) -> bool {
    &&& node.id == 0
    &&& node.kind is Input || node.kind is Constant || node.kind is Logic
    &&& node.kind is Logic || node.inputs.len() == 0
}

/// Whether node `id` is constant one.
pub open spec fn is_one(nodes: Seq<NodeView>, id: int) -> bool {
    0 <= id < nodes.len() && nodes[id].kind == KindView::Constant(true)
}

/// Whether node `id` is the inverse of constant one.
pub open spec fn is_zero(nodes: Seq<NodeView>, id: int) -> bool {
    &&& 0 <= id < nodes.len()
    &&& nodes[id].kind == KindView::Logic(LogicType::Not)
    &&& nodes[id].inputs.len() == 1
    &&& is_one(nodes, nodes[id].inputs[0] as int)
}

/// What holds of every builder.
pub open spec fn builder_wf(builder: BuilderView) -> bool {
    &&& builder.nodes.len() <= usize::MAX
    &&& reads_backward(builder.nodes)
    &&& forall|i: int| 0 <= i < builder.nodes.len() ==> is_cone_node(#[trigger] builder.nodes[i])
    &&& forall|net: Seq<char>|
        builder.producers.contains_key(net) ==> #[trigger] builder.producers[net] < builder.nodes.len()
    &&& forall|i: int| 0 <= i < builder.outputs.len() ==> (#[trigger] builder.outputs[i]).1 < builder.nodes.len()
    &&& builder.one is Some ==> is_one(builder.nodes, builder.one->0 as int)
    &&& builder.zero is Some ==> is_zero(builder.nodes, builder.zero->0 as int)
}

/// `later` is `earlier` with more nodes behind it.
pub open spec fn extends_nodes(earlier: Seq<NodeView>, later: Seq<NodeView>) -> bool {
    &&& earlier.len() <= later.len()
    &&& forall|i: int| 0 <= i < earlier.len() ==> #[trigger] later[i] == earlier[i]
}

/// Collects the scalar nodes of one leaf.
pub struct LeafBuilder {
    nodes: Vec<GraphNode>,
    producers: StringHashMap<usize>,
    input_order: Vec<String>,
    outputs: Vec<LeafOutput>,
    one: Option<usize>,
    zero: Option<usize>,
}

impl View for LeafBuilder {
    type V = BuilderView;

    closed spec fn view(&self) -> BuilderView {
        BuilderView {
            nodes: node_views(self.nodes@),
            producers: self.producers@,
            outputs: output_views(self.outputs@),
            one: self.one,
            zero: self.zero,
        }
    }
}

impl LeafBuilder {
    /// The builder's invariant.
    pub closed spec fn wf(&self) -> bool {
        &&& builder_wf(self@)
        &&& texts(self.input_order@) == input_names_of(self@.nodes)
    }

    /// The invariant gives what holds of every builder.
    pub proof fn wf_gives(&self)
        requires
            self.wf(),
        ensures
            builder_wf(self@),
    {
    }

    pub fn new() -> (builder: Self)
        ensures
            builder.wf(),
            builder@.nodes == Seq::<NodeView>::empty(),
            builder@.producers == Map::<Seq<char>, usize>::empty(),
            builder@.outputs == Seq::<(Seq<char>, usize)>::empty(),
            builder@.one is None,
            builder@.zero is None,
    {
        let builder = LeafBuilder {
            nodes: Vec::new(),
            producers: StringHashMap::new(),
            input_order: Vec::new(),
            outputs: Vec::new(),
            one: None,
            zero: None,
        };
        proof {
            assert(builder@.nodes =~= Seq::empty());
            assert(builder@.outputs =~= Seq::empty());
            assert(texts(builder.input_order@) =~= Seq::empty());
        }
        builder
    }

    /// The nodes and requested outputs collected so far.
    pub fn parts(&self) -> (parts: (&Vec<GraphNode>, &Vec<LeafOutput>))
        ensures
            node_views(parts.0@) == self@.nodes,
            output_views(parts.1@) == self@.outputs,
    {
        (&self.nodes, &self.outputs)
    }

    /// Adds a constant node beside those that stand for the shared constants.
    pub fn add_constant(&mut self, value: bool, tag: &str) -> (node: usize)
        requires
            old(self).wf(),
        ensures
            final(self).wf(),
            node == old(self)@.nodes.len(),
            final(self)@ == (BuilderView {
                nodes: old(self)@.nodes.push(
                    NodeView { id: 0, kind: KindView::Constant(value), inputs: Seq::empty(), tag: tag@ },
                ),
                ..old(self)@
            }),
    {
        let inputs: Vec<usize> = Vec::new();
        assert(inputs@ =~= Seq::<usize>::empty());
        self.push_node(GraphNode::new(GraphNodeKind::Constant(value), inputs, tag))
    }

    fn push_node(&mut self, node: GraphNode) -> (id: usize)
        requires
            old(self).wf(),
            is_cone_node(node@),
            !(node@.kind is Input),
            forall|pin: int| 0 <= pin < node@.inputs.len() ==> #[trigger] node@.inputs[pin] < old(self)@.nodes.len(),
        ensures
            final(self).wf(),
            id == old(self)@.nodes.len(),
            final(self)@ == (BuilderView { nodes: old(self)@.nodes.push(node@), ..old(self)@ }),
    {
        let id: usize = self.nodes.len();
        self.nodes.push(node);
        proof {
            let before = old(self)@.nodes;
            assert(self@.nodes =~= before.push(node@));
            assert(self@.nodes.drop_last() =~= before);
            assert(before.len() == old(self).nodes.len());
            assert(self@.nodes.len() == self.nodes.len());
            assert(reads_backward(self@.nodes));
        }
        id
    }

    /// Declares a boundary input; repeated declarations reuse the same node.
    pub fn add_input(&mut self, name: &str) -> (node: usize)
        requires
            old(self).wf(),
        ensures
            final(self).wf(),
            old(self)@.producers.contains_key(name@) ==> {
                &&& node == old(self)@.producers[name@]
                &&& final(self)@ == old(self)@
            },
            !old(self)@.producers.contains_key(name@) ==> {
                &&& node == old(self)@.nodes.len()
                &&& final(self)@ == (BuilderView {
                    nodes: old(self)@.nodes.push(
                        NodeView { id: 0, kind: KindView::Input(name@), inputs: Seq::empty(), tag: Seq::empty() },
                    ),
                    producers: old(self)@.producers.insert(name@, node),
                    ..old(self)@
                })
            },
    {
        if let Some(node) = self.producers.get(name) {
            return *node;
        }
        let node: usize = self.nodes.len();
        let input = GraphNode { kind: GraphNodeKind::Input(name.to_owned()), ..GraphNode::default() };
        let ghost input_view = input@;
        self.nodes.push(input);
        self.producers.insert(name.to_owned(), node);
        self.input_order.push(name.to_owned());
        proof {
            let before = old(self)@.nodes;
            assert(self@.nodes =~= before.push(input_view));
            assert(self@.nodes.drop_last() =~= before);
            assert(before.len() == old(self).nodes.len());
            assert(self@.nodes.len() == self.nodes.len());
            assert(reads_backward(self@.nodes));
            assert(texts(self.input_order@) =~= texts(old(self).input_order@).push(name@));
        }
        node
    }

    /// A gate over existing nodes.
    pub fn add_logic(&mut self, logic_type: LogicType, inputs: Vec<usize>, tag: &str) -> (node: usize)
        requires
            old(self).wf(),
            forall|pin: int| 0 <= pin < inputs.len() ==> #[trigger] inputs@[pin] < old(self)@.nodes.len(),
        ensures
            final(self).wf(),
            node == old(self)@.nodes.len(),
            final(self)@ == (BuilderView {
                nodes: old(self)@.nodes.push(
                    NodeView { id: 0, kind: KindView::Logic(logic_type), inputs: inputs@, tag: tag@ },
                ),
                ..old(self)@
            }),
    {
        self.push_node(GraphNode::new(GraphNodeKind::Logic(Logic { logic_type }), inputs, tag))
    }

    /// The node for a constant bit. One is a powered source; zero is the
    /// inverse of one. Each is made once.
    pub fn constant(&mut self, value: bool) -> (node: usize)
        requires
            old(self).wf(),
        ensures
            final(self).wf(),
            extends_nodes(old(self)@.nodes, final(self)@.nodes),
            final(self)@.nodes.len() <= old(self)@.nodes.len() + 2,
            forall|i: int|
                old(self)@.nodes.len() <= i < final(self)@.nodes.len() ==> is_one(final(self)@.nodes, i) || is_zero(
                    final(self)@.nodes,
                    i,
                ),
            final(self)@.producers == old(self)@.producers,
            final(self)@.outputs == old(self)@.outputs,
            value ==> is_one(final(self)@.nodes, node as int) && final(self)@.one == Some(node),
            !value ==> is_zero(final(self)@.nodes, node as int) && final(self)@.zero == Some(node),
            value && old(self)@.one is Some ==> final(self)@ == old(self)@,
            !value && old(self)@.zero is Some ==> final(self)@ == old(self)@,
            old(self)@.one is Some ==> final(self)@.one == old(self)@.one,
            old(self)@.zero is Some ==> final(self)@.zero == old(self)@.zero,
    {
        if value {
            if let Some(node) = self.one {
                return node;
            }
        } else {
            if let Some(node) = self.zero {
                return node;
            }
        }
        let one: usize = match self.one {
            Some(node) => node,
            None => {
                let node: usize = self.push_node(
                    GraphNode { kind: GraphNodeKind::Constant(true), ..GraphNode::default() },
                );
                self.one = Some(node);
                node
            },
        };
        if value {
            return one;
        }
        let node: usize = self.add_logic(LogicType::Not, vec![one], "__const0");
        self.zero = Some(node);
        node
    }

    /// Requests an output port driven by a node.
    pub fn add_output(&mut self, name: &str, input: usize)
        requires
            old(self).wf(),
            input < old(self)@.nodes.len(),
        ensures
            final(self).wf(),
            final(self)@ == (BuilderView { outputs: old(self)@.outputs.push((name@, input)), ..old(self)@ }),
    {
        self.outputs.push(LeafOutput { name: name.to_owned(), node: input });
        assert(self@.outputs =~= old(self)@.outputs.push((name@, input)));
    }

    /// Declares which node produces a scalar net.
    pub fn set_producer(&mut self, net: &str, node: usize)
        requires
            old(self).wf(),
            node < old(self)@.nodes.len(),
        ensures
            final(self).wf(),
            final(self)@ == (BuilderView { producers: old(self)@.producers.insert(net@, node), ..old(self)@ }),
    {
        self.producers.insert(net.to_owned(), node);
    }

    pub fn producer(&self, net: &str) -> (node: Option<usize>)
        ensures
            match node {
                Some(node) => self@.producers.contains_key(net@) && node == self@.producers[net@],
                None => !self@.producers.contains_key(net@),
            },
    {
        match self.producers.get(net) {
            Some(node) => Some(*node),
            None => None,
        }
    }

    pub fn has_producer(&self, net: &str) -> (has: bool)
        ensures
            has == self@.producers.contains_key(net@),
    {
        self.producers.contains_key(net)
    }

    /// The name of a boundary input node.
    pub fn input_name(&self, node: usize) -> (name: Option<&str>)
        ensures
            match name {
                Some(name) => node < self@.nodes.len() && self@.nodes[node as int].kind == KindView::Input(name@),
                None => node >= self@.nodes.len() || !(self@.nodes[node as int].kind is Input),
            },
    {
        if node >= self.nodes.len() {
            return None;
        }
        match &self.nodes[node].kind {
            GraphNodeKind::Input(name) => Some(name.as_str()),
            _ => None,
        }
    }

    /// The boundary inputs in the order of their declaration.
    pub fn input_names(&self) -> (names: &Vec<String>)
        requires
            self.wf(),
        ensures
            texts(names@) == input_names_of(self@.nodes),
    {
        &self.input_order
    }

    /// The number of nodes of the finished leaf, as far as it can be counted.
    pub fn node_count(&self) -> (count: usize)
        ensures
            count == if self@.nodes.len() + self@.outputs.len() <= usize::MAX {
                (self@.nodes.len() + self@.outputs.len()) as usize
            } else {
                usize::MAX
            },
    {
        if self.nodes.len() <= usize::MAX - self.outputs.len() {
            self.nodes.len() + self.outputs.len()
        } else {
            usize::MAX
        }
    }

    pub fn has_outputs(&self) -> (has: bool)
        ensures
            has == (self@.outputs.len() > 0),
    {
        self.outputs.len() > 0
    }
}

} // verus!

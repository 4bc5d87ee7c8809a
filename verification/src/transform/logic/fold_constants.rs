//! Constant folding.
//!
//! Arithmetic, multiplexers and comparisons with constants leave gates such as
//! `and(x, 1)` or `or(x, 0)`. Folding turns them into what they compute. A true
//! constant is a constant node; a false one is its inverse, so that only
//! powered sources are ever placed.

use super::fold_progress::{fold_weight, folding_lightens};
use super::rewrite::{
    adding_computes_same, computes_same, computes_same_refl, computes_same_trans, gate_push, gate_without_neutral,
    ids_differ, inputs_without, is_valuation, outputs_agree, place_of, place_of_holds, removing_computes_same,
    replacing_computes_same, rewired_nodes, without, without_from, LogicGraph,
};
use crate::graph::{
    node_holds, node_views, values_at, GraphNode, GraphNodeId, GraphNodeKind, KindView, NodeView,
};
use crate::logic::{logic_value, logic_value_of_pair, parity, Logic, LogicType};
use vstd::prelude::*;

verus! {

/// Whether every input is the id of a node.
pub open spec fn reads_known(nodes: Seq<NodeView>) -> bool {
    forall|i: int, pin: int|
        0 <= i < nodes.len() && 0 <= pin < nodes[i].inputs.len() ==> place_of(
            nodes,
            #[trigger] nodes[i].inputs[pin],
        ) is Some
}

/// Whether ids are unique and every input is one of them.
pub open spec fn is_graph(nodes: Seq<NodeView>) -> bool {
    ids_differ(nodes) && reads_known(nodes)
}

/// One more than the highest id.
pub open spec fn top_id(nodes: Seq<NodeView>) -> int
    decreases nodes.len(),
{
    if nodes.len() == 0 {
        0
    } else {
        let before = top_id(nodes.drop_last());
        if nodes.last().id < before {
            before
        } else {
            nodes.last().id + 1
        }
    }
}

/// Every id is below the top.
pub proof fn ids_below_top(nodes: Seq<NodeView>)
    ensures
        0 <= top_id(nodes),
        forall|i: int| 0 <= i < nodes.len() ==> (#[trigger] nodes[i]).id < top_id(nodes),
        top_id(nodes) == 0 || exists|i: int| 0 <= i < nodes.len() && (#[trigger] nodes[i]).id == top_id(nodes) - 1,
    decreases nodes.len(),
{
    if nodes.len() > 0 {
        let shorter = nodes.drop_last();
        ids_below_top(shorter);
        assert forall|i: int| 0 <= i < nodes.len() implies (#[trigger] nodes[i]).id < top_id(nodes) by {
            if i < shorter.len() {
                assert(shorter[i].id < top_id(shorter));
            }
        }
        if nodes.last().id < top_id(shorter) {
            let i = choose|i: int| 0 <= i < shorter.len() && (#[trigger] shorter[i]).id == top_id(shorter) - 1;
            assert(nodes[i].id == top_id(nodes) - 1);
        } else {
            assert(nodes[nodes.len() - 1].id == top_id(nodes) - 1);
        }
    }
}

/// Nodes whose ids are all in another list do not top it.
pub proof fn top_id_subset(nodes: Seq<NodeView>, more: Seq<NodeView>)
    requires
        forall|i: int|
            0 <= i < nodes.len() ==> exists|j: int| 0 <= j < more.len() && (#[trigger] more[j]).id == (#[trigger] nodes[i]).id,
    ensures
        top_id(nodes) <= top_id(more),
{
    ids_below_top(nodes);
    ids_below_top(more);
    if top_id(nodes) > 0 {
        let i = choose|i: int| 0 <= i < nodes.len() && (#[trigger] nodes[i]).id == top_id(nodes) - 1;
        let j = choose|j: int| 0 <= j < more.len() && (#[trigger] more[j]).id == nodes[i].id;
        assert(more[j].id < top_id(more));
    }
}

/// Whether no node is a false constant.
pub open spec fn no_false_constant(nodes: Seq<NodeView>) -> bool {
    forall|i: int| 0 <= i < nodes.len() ==> (#[trigger] nodes[i]).kind != KindView::Constant(false)
}

/// Whether the node at `place` stands for the constant `value`: true is a constant
/// of its own, and false its inverse.
pub open spec fn is_canonical(nodes: Seq<NodeView>, place: int, value: bool) -> bool {
    if value {
        nodes[place].kind == KindView::Constant(true)
    } else {
        &&& nodes[place].kind == KindView::Logic(LogicType::Not)
        &&& nodes[place].inputs.len() == 1
        &&& place_of(nodes, nodes[place].inputs[0]) is Some
        &&& nodes[place_of(nodes, nodes[place].inputs[0])->0].kind == KindView::Constant(true)
    }
}

/// The constant that a node is or stands for, if it is one.
pub open spec fn constant_of(nodes: Seq<NodeView>, id: usize) -> Option<bool> {
    match place_of(nodes, id) {
        None => None,
        Some(place) => match nodes[place].kind {
            KindView::Constant(value) => Some(value),
            _ => if is_canonical(nodes, place, false) {
                Some(false)
            } else {
                None
            },
        },
    }
}

/// A node with an id is found under it.
proof fn place_of_node(nodes: Seq<NodeView>, place: int)
    requires
        ids_differ(nodes),
        0 <= place < nodes.len(),
    ensures
        place_of(nodes, nodes[place].id) == Some(place),
{
    place_of_holds(nodes, nodes[place].id);
    match place_of(nodes, nodes[place].id) {
        Some(other) => {
            if other < place {
                assert(nodes[other].id != nodes[place].id);
            } else if place < other {
                assert(nodes[place].id != nodes[place].id);
            }
        },
        None => {},
    }
}

/// In every valuation a constant has its value.
proof fn constant_has_value(
    nodes: Seq<NodeView>,
    id: usize,
    env: spec_fn(Seq<char>) -> bool,
    v: spec_fn(int) -> bool,
)
    requires
        is_valuation(nodes, env, v),
        constant_of(nodes, id) is Some,
    ensures
        v(id as int) == constant_of(nodes, id)->0,
{
    place_of_holds(nodes, id);
    let place = place_of(nodes, id)->0;
    assert(node_holds(nodes[place], nodes[place].id as int, env, v));
    if !(nodes[place].kind is Constant) {
        let input = nodes[place].inputs[0];
        place_of_holds(nodes, input);
        let source = place_of(nodes, input)->0;
        assert(node_holds(nodes[source], nodes[source].id as int, env, v));
        assert(values_at(v, nodes[place].inputs) =~= seq![true]);
        logic_value_of_pair(true, true);
    }
}

/// The first place that stands for a constant.
pub open spec fn is_first_canonical(nodes: Seq<NodeView>, place: int, value: bool) -> bool {
    &&& 0 <= place < nodes.len()
    &&& is_canonical(nodes, place, value)
    &&& forall|i: int| 0 <= i < place ==> !#[trigger] is_canonical(nodes, i, value)
}

/// How many inputs are the true constant.
pub open spec fn true_inputs(nodes: Seq<NodeView>, inputs: Seq<usize>) -> nat
    decreases inputs.len(),
{
    if inputs.len() == 0 {
        0
    } else {
        true_inputs(nodes, inputs.drop_last()) + (if constant_of(nodes, inputs.last()) == Some(true) {
            1nat
        } else {
            0
        })
    }
}

/// The inputs that are no constant, in order.
pub open spec fn free_inputs(nodes: Seq<NodeView>, inputs: Seq<usize>) -> Seq<usize>
    decreases inputs.len(),
{
    if inputs.len() == 0 {
        Seq::empty()
    } else {
        let before = free_inputs(nodes, inputs.drop_last());
        if constant_of(nodes, inputs.last()) is None {
            before.push(inputs.last())
        } else {
            before
        }
    }
}

/// Whether one of the inputs is a given constant.
pub open spec fn has_constant(nodes: Seq<NodeView>, inputs: Seq<usize>, value: bool) -> bool {
    exists|pin: int| 0 <= pin < inputs.len() && constant_of(nodes, #[trigger] inputs[pin]) == Some(value)
}

/// Whether an operation reads only itself and a neutral constant, so that there is
/// nothing else to put in its place.
pub open spec fn feeds_itself(nodes: Seq<NodeView>, place: int, value: bool) -> bool {
    exists|neutral: usize| #[trigger]
        is_first_constant(nodes, nodes[place].inputs, value, neutral) && without(nodes[place].inputs, neutral) == seq![
            nodes[place].id,
        ]
}

/// Whether constants decide or simplify the operation at `place`. One that would have
/// to stand for itself is left alone.
pub open spec fn is_foldable(nodes: Seq<NodeView>, place: int) -> bool {
    let inputs = nodes[place].inputs;
    match nodes[place].kind {
        KindView::Logic(LogicType::Not) => {
            &&& inputs.len() == 1
            &&& constant_of(nodes, inputs[0]) is Some
            &&& !is_first_canonical(nodes, place, !constant_of(nodes, inputs[0])->0)
        },
        KindView::Logic(LogicType::And) => has_constant(nodes, inputs, false) || has_constant(nodes, inputs, true)
            && !feeds_itself(nodes, place, true),
        KindView::Logic(LogicType::Or) => has_constant(nodes, inputs, true) || has_constant(nodes, inputs, false)
            && !feeds_itself(nodes, place, false),
        KindView::Logic(LogicType::Xor) => if has_constant(nodes, inputs, false) {
            !feeds_itself(nodes, place, false)
        } else {
            &&& true_inputs(nodes, inputs) > 0
            &&& free_inputs(nodes, inputs).len() == 1
            &&& true_inputs(nodes, inputs) % 2 == 1 || free_inputs(nodes, inputs)[0] != nodes[place].id
        },
        _ => false,
    }
}

/// There is one first input that is a given constant.
proof fn first_constant_is_unique(nodes: Seq<NodeView>, inputs: Seq<usize>, value: bool, left: usize, right: usize)
    requires
        is_first_constant(nodes, inputs, value, left),
        is_first_constant(nodes, inputs, value, right),
    ensures
        left == right,
{
    let first = choose|pin: int|
        {
            &&& 0 <= pin < inputs.len()
            &&& #[trigger] inputs[pin] == left
            &&& constant_of(nodes, left) == Some(value)
            &&& forall|other: int| 0 <= other < pin ==> constant_of(nodes, #[trigger] inputs[other]) != Some(value)
        };
    let second = choose|pin: int|
        {
            &&& 0 <= pin < inputs.len()
            &&& #[trigger] inputs[pin] == right
            &&& constant_of(nodes, right) == Some(value)
            &&& forall|other: int| 0 <= other < pin ==> constant_of(nodes, #[trigger] inputs[other]) != Some(value)
        };
    assert(constant_of(nodes, inputs[first]) == Some(value));
    assert(constant_of(nodes, inputs[second]) == Some(value));
}

/// With only true constants, parity is that of the true constants and the rest.
proof fn parity_of_trues(
    nodes: Seq<NodeView>,
    inputs: Seq<usize>,
    env: spec_fn(Seq<char>) -> bool,
    v: spec_fn(int) -> bool,
)
    requires
        is_valuation(nodes, env, v),
        forall|pin: int| 0 <= pin < inputs.len() ==> constant_of(nodes, #[trigger] inputs[pin]) != Some(false),
    ensures
        parity(values_at(v, inputs)) == ((true_inputs(nodes, inputs) % 2 == 1) != parity(
            values_at(v, free_inputs(nodes, inputs)),
        )),
    decreases inputs.len(),
{
    let all = values_at(v, inputs);
    let rest = values_at(v, free_inputs(nodes, inputs));
    if inputs.len() > 0 {
        let shorter = inputs.drop_last();
        assert forall|pin: int| 0 <= pin < shorter.len() implies constant_of(nodes, #[trigger] shorter[pin]) != Some(false) by {
            assert(shorter[pin] == inputs[pin]);
        }
        parity_of_trues(nodes, shorter, env, v);
        let last = inputs.last();
        assert(inputs[inputs.len() - 1] == last);
        assert(all.drop_last() =~= values_at(v, shorter));
        assert(all.last() == v(last as int));
        let rest_shorter = values_at(v, free_inputs(nodes, shorter));
        if constant_of(nodes, last) is None {
            assert(rest =~= rest_shorter.push(v(last as int)));
            assert(rest.drop_last() =~= rest_shorter);
        } else {
            constant_has_value(nodes, last, env, v);
            assert(rest =~= rest_shorter);
        }
    } else {
        assert(all =~= Seq::<bool>::empty());
        assert(rest =~= Seq::<bool>::empty());
    }
}

/// Rewrites logic graphs.
#[derive(Debug)]
pub struct LogicGraphTransformer {
    pub graph: LogicGraph,
}

impl LogicGraphTransformer {
    /// The contents of the nodes.
    pub open spec fn views(&self) -> Seq<NodeView> {
        node_views(self.graph.graph.nodes@)
    }

    pub fn new(graph: LogicGraph) -> (transformer: Self)
        ensures
            transformer.views() == node_views(graph.graph.nodes@),
    {
        LogicGraphTransformer { graph }
    }

    pub fn finish(self) -> (graph: LogicGraph)
        ensures
            node_views(graph.graph.nodes@) == self.views(),
    {
        self.graph
    }

    /// Whether the node at `place` stands for a constant.
    fn is_canonical_at(&self, place: usize, value: bool) -> (canonical: bool)
        requires
            place < self.views().len(),
        ensures
            canonical == is_canonical(self.views(), place as int, value),
    {
        let ghost views = self.views();
        let node = &self.graph.graph.nodes[place];
        assert(views[place as int] == node@);
        match &node.kind {
            GraphNodeKind::Constant(stored) => value && *stored,
            GraphNodeKind::Logic(logic) => {
                if value || logic.logic_type != LogicType::Not || node.inputs.len() != 1 {
                    return false;
                }
                match self.graph.graph.place(node.inputs[0]) {
                    Some(source) => {
                        assert(views[source as int] == self.graph.graph.nodes[source as int]@);
                        matches!(self.graph.graph.nodes[source].kind, GraphNodeKind::Constant(true))
                    },
                    None => false,
                }
            },
            _ => false,
        }
    }

    /// The constant that a node stands for, if it is one.
    fn constant_value(&self, id: GraphNodeId) -> (value: Option<bool>)
        ensures
            value == constant_of(self.views(), id),
    {
        match self.graph.graph.place(id) {
            None => None,
            Some(place) => {
                assert(self.views()[place as int] == self.graph.graph.nodes[place as int]@);
                match &self.graph.graph.nodes[place].kind {
                    GraphNodeKind::Constant(value) => Some(*value),
                    _ => if self.is_canonical_at(place, false) {
                        Some(false)
                    } else {
                        None
                    },
                }
            },
        }
    }

    /// The first place that stands for a constant.
    fn first_canonical(&self, value: bool) -> (place: Option<usize>)
        ensures
            match place {
                Some(place) => is_first_canonical(self.views(), place as int, value),
                None => forall|i: int| 0 <= i < self.views().len() ==> !#[trigger] is_canonical(self.views(), i, value),
            },
    {
        let mut place: usize = 0;
        while place < self.graph.graph.nodes.len()
            invariant
                place <= self.graph.graph.nodes.len(),
                forall|i: int| 0 <= i < place ==> !#[trigger] is_canonical(self.views(), i, value),
            decreases self.graph.graph.nodes.len() - place,
        {
            if self.is_canonical_at(place, value) {
                return Some(place);
            }
            place += 1;
        }
        None
    }
}

/// Adding a node under a new id keeps the graph a graph and all constants.
proof fn adding_keeps_graph(nodes: Seq<NodeView>, node: NodeView)
    requires
        is_graph(nodes),
        top_id(nodes) <= node.id,
        forall|pin: int| 0 <= pin < node.inputs.len() ==> place_of(nodes, #[trigger] node.inputs[pin]) is Some,
        node.kind is Constant || node.kind is Logic,
    ensures
        is_graph(nodes.push(node)),
        computes_same(nodes, nodes.push(node)),
        forall|id: usize| #[trigger] place_of(nodes, id) is Some ==> place_of(nodes.push(node), id) == place_of(nodes, id),
{
    let after = nodes.push(node);
    assert(after.drop_last() =~= nodes);
    ids_below_top(nodes);
    assert forall|i: int, j: int| 0 <= i < j < after.len() implies (#[trigger] after[i]).id != (#[trigger] after[j]).id by {
        assert(after[i] == nodes[i]);
        if j < nodes.len() {
            assert(after[j] == nodes[j]);
        }
    }
    assert forall|i: int, pin: int| 0 <= i < after.len() && 0 <= pin < after[i].inputs.len() implies place_of(
        after,
        #[trigger] after[i].inputs[pin],
    ) is Some by {
        if i < nodes.len() {
            assert(nodes[i].inputs[pin] == after[i].inputs[pin]);
        } else {
            assert(node.inputs[pin] == after[i].inputs[pin]);
        }
    }
    assert forall|i: int, pin: int| 0 <= i < nodes.len() && 0 <= pin < nodes[i].inputs.len() implies (
    #[trigger] nodes[i].inputs[pin]) != node.id by {
        place_of_holds(nodes, nodes[i].inputs[pin]);
    }
    assert forall|pin: int| 0 <= pin < node.inputs.len() implies (#[trigger] node.inputs[pin]) != node.id by {
        place_of_holds(nodes, node.inputs[pin]);
    }
    adding_computes_same(nodes, node);
}

/// Constants stay constants when a node is added.
proof fn constants_stay(nodes: Seq<NodeView>, node: NodeView, place: int, value: bool)
    requires
        is_graph(nodes),
        0 <= place < nodes.len(),
        forall|id: usize| #[trigger] place_of(nodes, id) is Some ==> place_of(nodes.push(node), id) == place_of(nodes, id),
    ensures
        is_canonical(nodes.push(node), place, value) == is_canonical(nodes, place, value),
{
    let after = nodes.push(node);
    assert(after[place] == nodes[place]);
    if nodes[place].inputs.len() == 1 {
        assert(place_of(nodes, nodes[place].inputs[0]) is Some);
        place_of_holds(nodes, nodes[place].inputs[0]);
    }
}

/// What a rewrite of constants may do to the nodes.
pub open spec fn is_growth(before: Seq<NodeView>, after: Seq<NodeView>) -> bool {
    &&& is_graph(after)
    &&& computes_same(before, after)
    &&& before.len() <= after.len() <= before.len() + 2
    &&& forall|i: int| 0 <= i < before.len() ==> #[trigger] after[i] == before[i]
    &&& no_false_constant(before) ==> no_false_constant(after)
    &&& top_id(after) <= top_id(before) + 2
}

impl LogicGraphTransformer {
    /// Adds a node and returns its id.
    fn add(&mut self, node: GraphNode) -> (id: GraphNodeId)
        requires
            is_graph(old(self).views()),
            top_id(old(self).views()) <= usize::MAX,
            node@.kind is Constant || node@.kind is Logic,
            forall|pin: int|
                0 <= pin < node@.inputs.len() ==> place_of(old(self).views(), #[trigger] node@.inputs[pin]) is Some,
        ensures
            final(self).views() == old(self).views().push(NodeView { id, ..node@ }),
            is_graph(final(self).views()),
            computes_same(old(self).views(), final(self).views()),
            id == top_id(old(self).views()),
            top_id(final(self).views()) == id + 1,
            forall|other: usize| #[trigger] place_of(old(self).views(), other) is Some ==> place_of(
                final(self).views(),
                other,
            ) == place_of(old(self).views(), other),
    {
        let ghost before = self.views();
        let ghost added = node@;
        let ghost old_nodes = self.graph.graph.nodes@;
        proof {
            ids_below_top(before);
            assert forall|i: int| 0 <= i < self.graph.graph.nodes.len() implies (#[trigger] self.graph.graph.nodes[i]).id
                < usize::MAX by {
                assert(before[i] == self.graph.graph.nodes[i]@);
            }
        }
        let id: usize = self.graph.graph.add_node(node);
        proof {
            let node = NodeView { id, ..added };
            if id > 0 {
                let i = choose|i: int| 0 <= i < old_nodes.len() && (#[trigger] old_nodes[i]).id == id - 1;
                assert(before[i].id == id - 1);
            }
            if top_id(before) > 0 {
                let i = choose|i: int| 0 <= i < before.len() && (#[trigger] before[i]).id == top_id(before) - 1;
                assert(old_nodes[i].id < id);
            }
            assert(self.views().drop_last() =~= before);
            adding_keeps_graph(before, node);
        }
        id
    }

    /// An existing or fresh node for a constant.
    fn materialize_constant(&mut self, value: bool) -> (id: GraphNodeId)
        requires
            is_graph(old(self).views()),
            top_id(old(self).views()) < usize::MAX,
        ensures
            is_growth(old(self).views(), final(self).views()),
            is_constant_at(old(self).views(), value, final(self).views(), id),
            constant_of(final(self).views(), id) == Some(value),
            place_of(final(self).views(), id) matches Some(place) && is_canonical(final(self).views(), place, value),
            forall|place: int| #[trigger]
                is_first_canonical(old(self).views(), place, value) ==> final(self).views() == old(self).views() && id
                    == old(self).views()[place].id,
            forall|i: int, other: bool|
                0 <= i < old(self).views().len() ==> #[trigger] is_canonical(final(self).views(), i, other)
                    == is_canonical(old(self).views(), i, other),
            forall|other: usize| #[trigger] place_of(old(self).views(), other) is Some ==> place_of(
                final(self).views(),
                other,
            ) == place_of(old(self).views(), other),
    {
        let ghost before = self.views();
        proof {
            computes_same_refl(before);
        }
        if let Some(place) = self.first_canonical(value) {
            proof {
                place_of_node(before, place as int);
                assert(before[place as int] == self.graph.graph.nodes[place as int]@);
            }
            return self.graph.graph.nodes[place].id;
        }
        let one: usize = match self.first_canonical(true) {
            Some(place) => {
                proof {
                    place_of_node(before, place as int);
                    assert(before[place as int] == self.graph.graph.nodes[place as int]@);
                }
                self.graph.graph.nodes[place].id
            },
            None => {
                let inputs: Vec<usize> = Vec::new();
                let node = GraphNode::new(GraphNodeKind::Constant(true), inputs, "folded-constant");
                let ghost added = node@;
                let id: usize = self.add(node);
                proof {
                    let full = NodeView { id, ..added };
                    place_of_node(self.views(), before.len() as int);
                    assert forall|i: int, other: bool| 0 <= i < before.len() implies #[trigger] is_canonical(
                        self.views(),
                        i,
                        other,
                    ) == is_canonical(before, i, other) by {
                        constants_stay(before, full, i, other);
                    }
                }
                id
            },
        };
        let ghost middle = self.views();
        proof {
            assert(is_true_at(before, middle, one));
            assert(is_growth(before, middle));
            assert(constant_of(middle, one) == Some(true));
        }
        if value {
            return one;
        }
        let inputs = vec![one];
        let node = GraphNode::new(GraphNodeKind::Logic(Logic { logic_type: LogicType::Not }), inputs, "folded-constant");
        let ghost added = node@;
        proof {
            assert forall|pin: int| 0 <= pin < added.inputs.len() implies place_of(middle, #[trigger] added.inputs[pin]) is Some by {
                assert(added.inputs[pin] == one);
            }
        }
        let id: usize = self.add(node);
        proof {
            let full = NodeView { id, ..added };
            let after = self.views();
            place_of_node(after, middle.len() as int);
            place_of_holds(middle, one);
            assert(place_of(after, one) == place_of(middle, one));
            assert(is_canonical(after, middle.len() as int, false));
            assert(!is_canonical(after, middle.len() as int, true));
            assert forall|i: int, other: bool| 0 <= i < before.len() implies #[trigger] is_canonical(after, i, other)
                == is_canonical(before, i, other) by {
                constants_stay(middle, full, i, other);
                assert(is_canonical(middle, i, other) == is_canonical(before, i, other));
            }
            computes_same_trans(before, middle, after);
            assert(added.inputs =~= seq![one]);
            assert(added.tag == "folded-constant"@);
            assert(after == with_node(middle, inverter_node(one, "folded-constant"@)));
            assert(!(exists|place: int| is_first_canonical(before, place, false)));
            assert(is_true_at(before, middle, one));
            assert(is_constant_at(before, value, after, id));
        }
        id
    }
}

/// A node is found exactly where its id occurs.
proof fn place_of_some(nodes: Seq<NodeView>, id: usize, place: int)
    requires
        0 <= place < nodes.len(),
        nodes[place].id == id,
    ensures
        place_of(nodes, id) is Some,
{
    place_of_holds(nodes, id);
}

/// Replacing a node by another keeps the graph a graph.
proof fn replacing_keeps_graph(nodes: Seq<NodeView>, place: int, new_id: usize)
    requires
        is_graph(nodes),
        0 <= place < nodes.len(),
        new_id != nodes[place].id,
        place_of(nodes, new_id) is Some,
    ensures
        reads_known(rewired_nodes(nodes, nodes[place].id, new_id).remove(place)),
        top_id(rewired_nodes(nodes, nodes[place].id, new_id).remove(place)) <= top_id(nodes),
        no_false_constant(nodes) ==> no_false_constant(rewired_nodes(nodes, nodes[place].id, new_id).remove(place)),
{
    let old_id = nodes[place].id;
    let turned = rewired_nodes(nodes, old_id, new_id);
    let after = turned.remove(place);
    assert forall|j: int| 0 <= j < after.len() implies #[trigger] after[j] == turned[if j < place { j } else { j + 1 }] by {}
    assert forall|j: int, pin: int| 0 <= j < after.len() && 0 <= pin < after[j].inputs.len() implies place_of(
        after,
        #[trigger] after[j].inputs[pin],
    ) is Some by {
        let i = if j < place { j } else { j + 1 };
        let input = nodes[i].inputs[pin];
        assert(after[j].inputs[pin] == (if input == old_id { new_id } else { input }));
        let read = after[j].inputs[pin];
        assert(place_of(nodes, read) is Some);
        place_of_holds(nodes, read);
        let source = place_of(nodes, read)->0;
        let moved = if source < place { source } else { source - 1 };
        assert(source != place);
        assert(after[moved] == turned[source]);
        place_of_some(after, read, moved);
    }
    assert forall|j: int| 0 <= j < after.len() implies exists|i: int|
        0 <= i < nodes.len() && (#[trigger] nodes[i]).id == (#[trigger] after[j]).id by {
        let i = if j < place { j } else { j + 1 };
        assert(nodes[i].id == after[j].id);
    }
    top_id_subset(after, nodes);
    assert forall|j: int| no_false_constant(nodes) && 0 <= j < after.len() implies (#[trigger] after[j]).kind
        != KindView::Constant(false) by {
        let i = if j < place { j } else { j + 1 };
        assert(nodes[i].kind == after[j].kind);
    }
}

// ---------------------------------------------------------------------------
// What is folded to what
// ---------------------------------------------------------------------------
/// The nodes with one more, under the next id.
pub open spec fn with_node(nodes: Seq<NodeView>, node: NodeView) -> Seq<NodeView> {
    nodes.push(NodeView { id: top_id(nodes) as usize, ..node })
}

/// The node of the true constant.
pub open spec fn true_node() -> NodeView {
    NodeView { id: 0, kind: KindView::Constant(true), inputs: Seq::empty(), tag: "folded-constant"@ }
}

/// A node that inverts another.
pub open spec fn inverter_node(input: usize, tag: Seq<char>) -> NodeView {
    NodeView { id: 0, kind: KindView::Logic(LogicType::Not), inputs: seq![input], tag }
}

/// Whether the true constant has an id among some nodes: the first that stands for
/// it, or one that is added.
pub open spec fn is_true_at(before: Seq<NodeView>, after: Seq<NodeView>, id: usize) -> bool {
    if exists|place: int| is_first_canonical(before, place, true) {
        after == before && exists|place: int| #[trigger] is_first_canonical(before, place, true) && id == before[place].id
    } else {
        after == with_node(before, true_node()) && id == top_id(before)
    }
}

/// Whether a constant has an id among some nodes: the first that stands for it, or
/// one that is added. The false one is added as the inverse of the true one.
pub open spec fn is_constant_at(before: Seq<NodeView>, value: bool, after: Seq<NodeView>, id: usize) -> bool {
    if exists|place: int| is_first_canonical(before, place, value) {
        after == before && exists|place: int| #[trigger] is_first_canonical(before, place, value) && id
            == before[place].id
    } else if value {
        is_true_at(before, after, id)
    } else {
        exists|middle: Seq<NodeView>, one: usize| #[trigger]
            is_true_at(before, middle, one) && after == with_node(middle, inverter_node(one, "folded-constant"@)) && id
                == top_id(middle)
    }
}

/// The nodes without one of them, whose readers read another instead.
pub open spec fn replaced(nodes: Seq<NodeView>, place: int, new_id: usize) -> Seq<NodeView> {
    rewired_nodes(nodes, nodes[place].id, new_id).remove(place)
}

/// Whether a gate was replaced by a constant.
pub open spec fn is_by_constant(before: Seq<NodeView>, place: int, value: bool, after: Seq<NodeView>) -> bool {
    exists|middle: Seq<NodeView>, id: usize| #[trigger]
        is_constant_at(before, value, middle, id) && after == replaced(middle, place, id)
}

/// Whether a node reads an id.
pub open spec fn is_read(nodes: Seq<NodeView>, id: usize) -> bool {
    exists|i: int, pin: int|
        0 <= i < nodes.len() && 0 <= pin < nodes[i].inputs.len() && (#[trigger] nodes[i].inputs[pin]) == id
}

/// Whether an input was taken out of a gate, and the node behind it where nothing
/// else reads it.
pub open spec fn is_dropped(before: Seq<NodeView>, place: int, neutral: usize, after: Seq<NodeView>) -> bool {
    let less = before.update(place, NodeView { inputs: without(before[place].inputs, neutral), ..before[place] });
    if is_read(less, neutral) {
        after == less
    } else {
        place_of(less, neutral) is Some && after == less.remove(place_of(less, neutral)->0)
    }
}

/// Whether a neutral input was folded: its reader becomes the constant where nothing
/// else feeds it, what feeds it where that is all, and else loses the input.
pub open spec fn is_neutral_folded(
    before: Seq<NodeView>,
    place: int,
    neutral: usize,
    value: bool,
    after: Seq<NodeView>,
) -> bool {
    let rest = without(before[place].inputs, neutral);
    if rest.len() == 0 {
        is_by_constant(before, place, value, after)
    } else if rest.len() == 1 {
        after == replaced(before, place, rest[0])
    } else {
        is_dropped(before, place, neutral, after)
    }
}

/// Whether an id is the first of some inputs that is a given constant.
pub open spec fn is_first_constant(nodes: Seq<NodeView>, inputs: Seq<usize>, value: bool, id: usize) -> bool {
    exists|pin: int|
        {
            &&& 0 <= pin < inputs.len()
            &&& #[trigger] inputs[pin] == id
            &&& constant_of(nodes, id) == Some(value)
            &&& forall|other: int| 0 <= other < pin ==> constant_of(nodes, #[trigger] inputs[other]) != Some(value)
        }
}

/// Whether the first input that is a neutral constant was folded.
pub open spec fn is_first_neutral_folded(before: Seq<NodeView>, place: int, value: bool, after: Seq<NodeView>) -> bool {
    exists|neutral: usize| #[trigger]
        is_first_constant(before, before[place].inputs, value, neutral) && is_neutral_folded(
            before,
            place,
            neutral,
            value,
            after,
        )
}

/// Whether a gate was folded: an inverted constant, an absorbing or a neutral
/// input, or an exclusive or of one input and true constants.
pub open spec fn is_folded(before: Seq<NodeView>, place: int, after: Seq<NodeView>) -> bool {
    let inputs = before[place].inputs;
    match before[place].kind {
        KindView::Logic(LogicType::Not) => is_by_constant(
            before,
            place,
            !constant_of(before, inputs[0])->0,
            after,
        ),
        KindView::Logic(LogicType::And) => if has_constant(before, inputs, false) {
            is_by_constant(before, place, false, after)
        } else {
            is_first_neutral_folded(before, place, true, after)
        },
        KindView::Logic(LogicType::Or) => if has_constant(before, inputs, true) {
            is_by_constant(before, place, true, after)
        } else {
            is_first_neutral_folded(before, place, false, after)
        },
        KindView::Logic(LogicType::Xor) => if has_constant(before, inputs, false) {
            is_first_neutral_folded(before, place, false, after)
        } else {
            let value = free_inputs(before, inputs)[0];
            after == (if true_inputs(before, inputs) % 2 == 1 {
                replaced(with_node(before, inverter_node(value, "folded-xor"@)), place, top_id(before) as usize)
            } else {
                replaced(before, place, value)
            })
        },
        _ => false,
    }
}

/// What one rewrite does.
pub open spec fn is_rewrite(before: Seq<NodeView>, after: Seq<NodeView>) -> bool {
    &&& is_graph(after)
    &&& computes_same(before, after)
    &&& no_false_constant(before) ==> no_false_constant(after)
    &&& top_id(after) <= top_id(before) + 2
}

impl LogicGraphTransformer {
    /// Turns the readers of a node to another one and removes it.
    fn replace_node(&mut self, place: usize, new_id: GraphNodeId)
        requires
            is_graph(old(self).views()),
            place < old(self).views().len(),
            !(old(self).views()[place as int].kind is Output),
            new_id != old(self).views()[place as int].id,
            place_of(old(self).views(), new_id) is Some,
            forall|env: spec_fn(Seq<char>) -> bool, v: spec_fn(int) -> bool| #[trigger]
                is_valuation(old(self).views(), env, v) ==> v(old(self).views()[place as int].id as int) == v(
                    new_id as int,
                ),
        ensures
            final(self).views() == replaced(old(self).views(), place as int, new_id),
            is_graph(final(self).views()),
            computes_same(old(self).views(), final(self).views()),
            no_false_constant(old(self).views()) ==> no_false_constant(final(self).views()),
            top_id(final(self).views()) <= top_id(old(self).views()),
    {
        let ghost before = self.views();
        assert(before[place as int] == self.graph.graph.nodes[place as int]@);
        let old_id: usize = self.graph.graph.nodes[place].id;
        self.graph.graph.replace_input_node_id(old_id, new_id);
        assert(self.views().len() == before.len());
        self.graph.graph.remove_node(place);
        proof {
            replacing_computes_same(before, place as int, new_id);
            replacing_keeps_graph(before, place as int, new_id);
        }
    }

    /// Takes a neutral constant out of the inputs of a gate, and removes it
    /// where nothing else reads it.
    fn drop_neutral(&mut self, place: usize, neutral: GraphNodeId)
        requires
            is_graph(old(self).views()),
            place < old(self).views().len(),
            constant_of(old(self).views(), neutral) is Some,
            match old(self).views()[place as int].kind {
                KindView::Logic(LogicType::And) => constant_of(old(self).views(), neutral) == Some(true),
                KindView::Logic(LogicType::Or) => constant_of(old(self).views(), neutral) == Some(false),
                KindView::Logic(LogicType::Xor) => constant_of(old(self).views(), neutral) == Some(false),
                _ => false,
            },
        ensures
            is_dropped(old(self).views(), place as int, neutral, final(self).views()),
            is_graph(final(self).views()),
            computes_same(old(self).views(), final(self).views()),
            no_false_constant(old(self).views()) ==> no_false_constant(final(self).views()),
            top_id(final(self).views()) <= top_id(old(self).views()),
    {
        let ghost before = self.views();
        assert(before[place as int] == self.graph.graph.nodes[place as int]@);
        self.graph.graph.remove_input(place, neutral);
        let ghost middle = self.views();
        proof {
            without_from(before[place as int].inputs, neutral);
            dropping_computes_same(before, place as int, neutral);
            dropping_keeps_graph(before, place as int, neutral);
            place_of_holds(before, neutral);
        }
        let mut used = false;
        let mut index: usize = 0;
        while index < self.graph.graph.nodes.len()
            invariant
                middle == self.views(),
                index <= self.graph.graph.nodes.len(),
                used ==> is_read(middle, neutral),
                !used ==> forall|i: int, pin: int|
                    0 <= i < index && 0 <= pin < middle[i].inputs.len() ==> (#[trigger] middle[i].inputs[pin]) != neutral,
            decreases self.graph.graph.nodes.len() - index,
        {
            assert(middle[index as int] == self.graph.graph.nodes[index as int]@);
            let mut pin: usize = 0;
            while pin < self.graph.graph.nodes[index].inputs.len()
                invariant
                    middle == self.views(),
                    index < self.graph.graph.nodes.len(),
                    middle[index as int] == self.graph.graph.nodes[index as int]@,
                    pin <= self.graph.graph.nodes[index as int].inputs.len(),
                    used ==> is_read(middle, neutral),
                    !used ==> forall|i: int, p: int|
                        0 <= i < index && 0 <= p < middle[i].inputs.len() ==> (#[trigger] middle[i].inputs[p]) != neutral,
                    !used ==> forall|p: int|
                        0 <= p < pin ==> (#[trigger] middle[index as int].inputs[p]) != neutral,
                decreases self.graph.graph.nodes[index as int].inputs.len() - pin,
            {
                if self.graph.graph.nodes[index].inputs[pin] == neutral {
                    assert(middle[index as int].inputs[pin as int] == neutral);
                    used = true;
                }
                pin += 1;
            }
            index += 1;
        }
        if !used {
            proof {
                assert(!is_read(middle, neutral));
                let source = place_of(before, neutral)->0;
                assert(middle[source].id == neutral);
                place_of_some(middle, neutral, source);
            }
            if let Some(found) = self.graph.graph.place(neutral) {
                proof {
                    place_of_holds(middle, neutral);
                    assert(!(middle[found as int].kind is Output)) by {
                        assert(middle[found as int].id == neutral);
                        let source = place_of(before, neutral)->0;
                        assert(middle[source].id == neutral);
                        assert(source == found) by {
                            if source < found {
                                assert(middle[source].id != middle[found as int].id);
                            } else if found < source {
                                assert(middle[found as int].id != middle[source].id);
                            }
                        }
                        assert(middle[found as int].kind == before[source].kind);
                    }
                    removing_computes_same(middle, found as int);
                    removing_keeps_graph(middle, found as int);
                    computes_same_trans(before, middle, middle.remove(found as int));
                }
                self.graph.graph.remove_node(found);
            }
        }
    }
}

/// Taking a neutral constant out of the inputs of a gate keeps what it computes.
proof fn dropping_computes_same(nodes: Seq<NodeView>, place: int, neutral: usize)
    requires
        is_graph(nodes),
        0 <= place < nodes.len(),
        constant_of(nodes, neutral) is Some,
        match nodes[place].kind {
            KindView::Logic(LogicType::And) => constant_of(nodes, neutral) == Some(true),
            KindView::Logic(LogicType::Or) => constant_of(nodes, neutral) == Some(false),
            KindView::Logic(LogicType::Xor) => constant_of(nodes, neutral) == Some(false),
            _ => false,
        },
    ensures
        computes_same(
            nodes,
            nodes.update(
                place,
                NodeView { inputs: without(nodes[place].inputs, neutral), ..nodes[place] },
            ),
        ),
{
    let after = nodes.update(
        place,
        NodeView { inputs: without(nodes[place].inputs, neutral), ..nodes[place] },
    );
    assert forall|i: int| 0 <= i < nodes.len() && (#[trigger] nodes[i]).kind is Output implies exists|j: int|
        0 <= j < after.len() && (#[trigger] after[j]).id == nodes[i].id && after[j].kind == nodes[i].kind by {
        assert(after[i].id == nodes[i].id);
    }
    assert forall|env: spec_fn(Seq<char>) -> bool, v: spec_fn(int) -> bool| #[trigger]
        is_valuation(nodes, env, v) implies exists|w: spec_fn(int) -> bool|
        #[trigger] is_valuation(after, env, w) && outputs_agree(nodes, v, w) by {
        assert forall|j: int| 0 <= j < after.len() implies node_holds(#[trigger] after[j], after[j].id as int, env, v) by {
            assert(node_holds(nodes[j], nodes[j].id as int, env, v));
            if j == place {
                constant_has_value(nodes, neutral, env, v);
                let op = nodes[place].kind->Logic_0;
                gate_without_neutral(op, nodes[place].inputs, neutral, v);
            }
        }
        assert(is_valuation(after, env, v) && outputs_agree(nodes, v, v));
    }
}

proof fn dropping_keeps_graph(nodes: Seq<NodeView>, place: int, neutral: usize)
    requires
        is_graph(nodes),
        0 <= place < nodes.len(),
    ensures
        ({
            let after = nodes.update(
                place,
                NodeView { inputs: without(nodes[place].inputs, neutral), ..nodes[place] },
            );
            &&& is_graph(after)
            &&& top_id(after) <= top_id(nodes)
            &&& no_false_constant(nodes) ==> no_false_constant(after)
        }),
{
    let after = nodes.update(
        place,
        NodeView { inputs: without(nodes[place].inputs, neutral), ..nodes[place] },
    );
    without_from(nodes[place].inputs, neutral);
    assert forall|i: int, j: int| 0 <= i < j < after.len() implies (#[trigger] after[i]).id != (#[trigger] after[j]).id by {
        assert(nodes[i].id != nodes[j].id);
    }
    assert forall|i: int, pin: int| 0 <= i < after.len() && 0 <= pin < after[i].inputs.len() implies place_of(
        after,
        #[trigger] after[i].inputs[pin],
    ) is Some by {
        let read = after[i].inputs[pin];
        if i == place {
            assert(nodes[place].inputs.contains(read));
            let p = choose|p: int| 0 <= p < nodes[place].inputs.len() && nodes[place].inputs[p] == read;
            assert(nodes[place].inputs[p] == read);
        } else {
            assert(nodes[i].inputs[pin] == read);
        }
        assert(place_of(nodes, read) is Some);
        place_of_holds(nodes, read);
        let source = place_of(nodes, read)->0;
        assert(after[source].id == read);
        place_of_some(after, read, source);
    }
    assert forall|j: int| 0 <= j < after.len() implies exists|i: int|
        0 <= i < nodes.len() && (#[trigger] nodes[i]).id == (#[trigger] after[j]).id by {
        assert(nodes[j].id == after[j].id);
    }
    top_id_subset(after, nodes);
    assert forall|j: int| no_false_constant(nodes) && 0 <= j < after.len() implies (#[trigger] after[j]).kind
        != KindView::Constant(false) by {
        assert(nodes[j].kind == after[j].kind);
    }
}

proof fn removing_keeps_graph(nodes: Seq<NodeView>, place: int)
    requires
        is_graph(nodes),
        0 <= place < nodes.len(),
        forall|i: int, pin: int|
            0 <= i < nodes.len() && 0 <= pin < nodes[i].inputs.len() ==> (#[trigger] nodes[i].inputs[pin])
                != nodes[place].id,
    ensures
        reads_known(nodes.remove(place)),
        top_id(nodes.remove(place)) <= top_id(nodes),
        no_false_constant(nodes) ==> no_false_constant(nodes.remove(place)),
{
    let after = nodes.remove(place);
    assert forall|j: int| 0 <= j < after.len() implies #[trigger] after[j] == nodes[if j < place { j } else { j + 1 }] by {}
    assert forall|j: int, pin: int| 0 <= j < after.len() && 0 <= pin < after[j].inputs.len() implies place_of(
        after,
        #[trigger] after[j].inputs[pin],
    ) is Some by {
        let i = if j < place { j } else { j + 1 };
        let read = nodes[i].inputs[pin];
        assert(read != nodes[place].id);
        place_of_holds(nodes, read);
        let source = place_of(nodes, read)->0;
        let moved = if source < place { source } else { source - 1 };
        assert(after[moved] == nodes[source]);
        place_of_some(after, read, moved);
    }
    assert forall|j: int| 0 <= j < after.len() implies exists|i: int|
        0 <= i < nodes.len() && (#[trigger] nodes[i]).id == (#[trigger] after[j]).id by {
        let i = if j < place { j } else { j + 1 };
        assert(nodes[i].id == after[j].id);
    }
    top_id_subset(after, nodes);
    assert forall|j: int| no_false_constant(nodes) && 0 <= j < after.len() implies (#[trigger] after[j]).kind
        != KindView::Constant(false) by {
        let i = if j < place { j } else { j + 1 };
        assert(nodes[i].kind == after[j].kind);
    }
}

/// What a gate of one input computes.
proof fn gate_of_one(op: LogicType, value: bool)
    requires
        op != LogicType::Not,
    ensures
        logic_value(op, seq![value]) == value,
        logic_value(LogicType::And, Seq::<bool>::empty()),
        !logic_value(LogicType::Or, Seq::<bool>::empty()),
        !logic_value(LogicType::Xor, Seq::<bool>::empty()),
{
    gate_push(op, Seq::<bool>::empty(), value);
    assert(Seq::<bool>::empty().push(value) =~= seq![value]);
}

/// Constants among the inputs of a node are the same after a growth.
proof fn growth_keeps_constants(before: Seq<NodeView>, after: Seq<NodeView>, id: usize)
    requires
        is_graph(before),
        place_of(before, id) is Some,
        place_of(after, id) == place_of(before, id),
        forall|i: int, value: bool|
            0 <= i < before.len() ==> #[trigger] is_canonical(after, i, value) == is_canonical(before, i, value),
        forall|i: int| 0 <= i < before.len() ==> (#[trigger] after[i]).kind == before[i].kind,
    ensures
        constant_of(after, id) == constant_of(before, id),
{
    place_of_holds(before, id);
}

/// In a valuation a gate has the value of its operation.
proof fn gate_has_value(
    nodes: Seq<NodeView>,
    place: int,
    env: spec_fn(Seq<char>) -> bool,
    v: spec_fn(int) -> bool,
)
    requires
        is_valuation(nodes, env, v),
        0 <= place < nodes.len(),
        nodes[place].kind is Logic,
    ensures
        v(nodes[place].id as int) == logic_value(
            nodes[place].kind->Logic_0,
            values_at(v, nodes[place].inputs),
        ),
{
    assert(node_holds(nodes[place], nodes[place].id as int, env, v));
}

impl LogicGraphTransformer {
    /// The first input that is a given constant.
    fn find_constant(&self, inputs: &Vec<usize>, value: bool) -> (found: Option<usize>)
        ensures
            match found {
                Some(found) => inputs@.contains(found) && constant_of(self.views(), found) == Some(value)
                    && has_constant(self.views(), inputs@, value) && is_first_constant(
                    self.views(),
                    inputs@,
                    value,
                    found,
                ),
                None => !has_constant(self.views(), inputs@, value),
            },
    {
        let mut pin: usize = 0;
        while pin < inputs.len()
            invariant
                pin <= inputs.len(),
                forall|i: int| 0 <= i < pin ==> constant_of(self.views(), #[trigger] inputs[i]) != Some(value),
            decreases inputs.len() - pin,
        {
            let input: usize = inputs[pin];
            if let Some(stored) = self.constant_value(input) {
                if stored == value {
                    assert(inputs@[pin as int] == input);
                    return Some(input);
                }
            }
            pin += 1;
        }
        None
    }

    /// Replaces a gate by a constant that it always computes.
    fn replace_by_constant(&mut self, place: usize, value: bool)
        requires
            is_graph(old(self).views()),
            place < old(self).views().len(),
            old(self).views()[place as int].kind is Logic,
            old(self).views()[place as int].kind != KindView::Logic(LogicType::Not),
            top_id(old(self).views()) < usize::MAX,
            forall|env: spec_fn(Seq<char>) -> bool, v: spec_fn(int) -> bool| #[trigger]
                is_valuation(old(self).views(), env, v) ==> v(old(self).views()[place as int].id as int) == value,
        ensures
            is_by_constant(old(self).views(), place as int, value, final(self).views()),
            is_rewrite(old(self).views(), final(self).views()),
    {
        let ghost before = self.views();
        let target: usize = self.materialize_constant(value);
        let ghost middle = self.views();
        proof {
            assert(middle[place as int] == before[place as int]);
            place_of_holds(middle, target);
            let source = place_of(middle, target)->0;
            assert(target != before[place as int].id) by {
                if target == before[place as int].id {
                    place_of_node(middle, place as int);
                    assert(is_canonical(middle, place as int, value));
                }
            }
            assert forall|env: spec_fn(Seq<char>) -> bool, v: spec_fn(int) -> bool| #[trigger]
                is_valuation(middle, env, v) implies v(middle[place as int].id as int) == v(target as int) by {
                constant_has_value(middle, target, env, v);
                assert(is_valuation(before, env, v)) by {
                    assert forall|i: int| 0 <= i < before.len() implies node_holds(
                        #[trigger] before[i],
                        before[i].id as int,
                        env,
                        v,
                    ) by {
                        assert(middle[i] == before[i]);
                    }
                }
            }
        }
        self.replace_node(place, target);
        proof {
            assert(is_constant_at(before, value, middle, target));
            computes_same_trans(before, middle, self.views());
        }
    }

    /// Takes a neutral constant out of an and, or or xor gate.
    fn fold_neutral(&mut self, place: usize, inputs: &Vec<usize>, neutral: GraphNodeId, value: bool)
        requires
            is_graph(old(self).views()),
            place < old(self).views().len(),
            inputs@ == old(self).views()[place as int].inputs,
            inputs@.contains(neutral),
            constant_of(old(self).views(), neutral) == Some(value),
            match old(self).views()[place as int].kind {
                KindView::Logic(LogicType::And) => value,
                KindView::Logic(LogicType::Or) => !value,
                KindView::Logic(LogicType::Xor) => !value,
                _ => false,
            },
            top_id(old(self).views()) < usize::MAX,
            without(inputs@, neutral) != seq![old(self).views()[place as int].id],
        ensures
            is_neutral_folded(old(self).views(), place as int, neutral, value, final(self).views()),
            is_rewrite(old(self).views(), final(self).views()),
    {
        let ghost before = self.views();
        let ghost op = before[place as int].kind->Logic_0;
        let remaining = inputs_without(inputs, neutral);
        proof {
            without_from(inputs@, neutral);
            assert forall|env: spec_fn(Seq<char>) -> bool, v: spec_fn(int) -> bool| #[trigger]
                is_valuation(before, env, v) implies v(before[place as int].id as int) == logic_value(
                op,
                values_at(v, remaining@),
            ) by {
                gate_has_value(before, place as int, env, v);
                constant_has_value(before, neutral, env, v);
                gate_without_neutral(op, inputs@, neutral, v);
            }
        }
        if remaining.len() == 0 {
            proof {
                assert forall|env: spec_fn(Seq<char>) -> bool, v: spec_fn(int) -> bool| #[trigger]
                    is_valuation(before, env, v) implies v(before[place as int].id as int) == value by {
                    assert(values_at(v, remaining@) =~= Seq::<bool>::empty());
                    gate_of_one(op, true);
                }
            }
            self.replace_by_constant(place, value);
        } else if remaining.len() == 1 {
            let target: usize = remaining[0];
            proof {
                assert forall|env: spec_fn(Seq<char>) -> bool, v: spec_fn(int) -> bool| #[trigger]
                    is_valuation(before, env, v) implies v(before[place as int].id as int) == v(target as int) by {
                    assert(values_at(v, remaining@) =~= seq![v(target as int)]);
                    gate_of_one(op, v(target as int));
                }
                assert(remaining@[0] == target);
                assert(remaining@ =~= seq![target]);
                assert(inputs@.contains(target));
                let pin = choose|pin: int| 0 <= pin < inputs@.len() && inputs@[pin] == target;
                assert(before[place as int].inputs[pin] == target);
                assert(place_of(before, target) is Some);
            }
            self.replace_node(place, target);
        } else {
            self.drop_neutral(place, neutral);
        }
    }

    /// Whether an operation reads only itself once a neutral constant is taken out.
    fn only_itself(&self, inputs: &Vec<usize>, neutral: GraphNodeId, id: GraphNodeId) -> (only: bool)
        ensures
            only == (without(inputs@, neutral) == seq![id]),
    {
        let remaining = inputs_without(inputs, neutral);
        if remaining.len() == 1 && remaining[0] == id {
            assert(remaining@ =~= seq![id]);
            true
        } else {
            assert(remaining@ != seq![id]) by {
                if remaining@ == seq![id] {
                    assert(remaining@.len() == 1 && remaining@[0] == id);
                }
            }
            false
        }
    }
}

impl LogicGraphTransformer {
    /// Folds the node with an id, if constants decide or simplify it.
    fn fold_node(&mut self, id: GraphNodeId) -> (folded: bool)
        requires
            is_graph(old(self).views()),
            top_id(old(self).views()) < usize::MAX,
        ensures
            match place_of(old(self).views(), id) {
                Some(place) => folded == is_foldable(old(self).views(), place),
                None => !folded,
            },
            folded ==> is_folded(old(self).views(), place_of(old(self).views(), id)->0, final(self).views()),
            folded ==> is_rewrite(old(self).views(), final(self).views()),
            !folded ==> final(self).views() == old(self).views(),
    {
        let ghost before = self.views();
        let place: usize = match self.graph.graph.place(id) {
            Some(place) => place,
            None => return false,
        };
        proof {
            place_of_holds(before, id);
            assert(before[place as int] == self.graph.graph.nodes[place as int]@);
        }
        let logic_type = match &self.graph.graph.nodes[place].kind {
            GraphNodeKind::Logic(logic) => logic.logic_type,
            _ => return false,
        };
        let inputs = self.graph.graph.nodes[place].inputs.clone();
        assert(inputs@ =~= before[place as int].inputs);
        match logic_type {
            LogicType::Not => {
                if inputs.len() != 1 {
                    return false;
                }
                let value = match self.constant_value(inputs[0]) {
                    Some(value) => value,
                    None => return false,
                };
                let own = match self.first_canonical(!value) {
                    Some(first) => first == place,
                    None => false,
                };
                if own {
                    return false;
                }
                assert(!is_first_canonical(before, place as int, !value)) by {
                    if is_first_canonical(before, place as int, !value) {
                        assert(is_canonical(before, place as int, !value));
                    }
                }
                let target: usize = self.materialize_constant(!value);
                let ghost middle = self.views();
                proof {
                    assert(middle[place as int] == before[place as int]);
                    assert(target != id) by {
                        if target == id {
                            place_of_node(middle, place as int);
                            if is_canonical(before, place as int, !value) {
                                let inverse = !value;
                                first_canonical_exists(before, place as int, inverse);
                                let first = choose|first: int| is_first_canonical(before, first, inverse);
                                assert(middle == before);
                                assert(before[first].id == id);
                                place_of_node(before, first);
                                place_of_node(before, place as int);
                            } else {
                                assert(is_canonical(middle, place as int, !value) == is_canonical(
                                    before,
                                    place as int,
                                    !value,
                                ));
                            }
                        }
                    }
                    assert(before[place as int].inputs[0] == inputs@[0]);
                    assert(place_of(before, inputs@[0]) is Some);
                    growth_keeps_constants(before, middle, inputs@[0]);
                    assert forall|env: spec_fn(Seq<char>) -> bool, v: spec_fn(int) -> bool| #[trigger]
                        is_valuation(middle, env, v) implies v(middle[place as int].id as int) == v(target as int) by {
                        gate_has_value(middle, place as int, env, v);
                        constant_has_value(middle, inputs@[0], env, v);
                        constant_has_value(middle, target, env, v);
                        assert(values_at(v, inputs@) =~= seq![value]);
                        logic_value_of_pair(value, value);
                    }
                }
                self.replace_node(place, target);
                proof {
                    assert(is_constant_at(before, !value, middle, target));
                    computes_same_trans(before, middle, self.views());
                }
                true
            },
            LogicType::And | LogicType::Or => {
                let absorbing = matches!(logic_type, LogicType::Or);
                if let Some(found) = self.find_constant(&inputs, absorbing) {
                    proof {
                        assert forall|env: spec_fn(Seq<char>) -> bool, v: spec_fn(int) -> bool| #[trigger]
                            is_valuation(before, env, v) implies v(before[place as int].id as int) == absorbing by {
                            gate_has_value(before, place as int, env, v);
                            constant_has_value(before, found, env, v);
                            let pin = choose|pin: int| 0 <= pin < inputs@.len() && inputs@[pin] == found;
                            assert(values_at(v, inputs@)[pin] == absorbing);
                        }
                    }
                    self.replace_by_constant(place, absorbing);
                    return true;
                }
                if let Some(neutral) = self.find_constant(&inputs, !absorbing) {
                    if self.only_itself(&inputs, neutral, id) {
                        assert(is_first_constant(before, inputs@, !absorbing, neutral));
                        assert(feeds_itself(before, place as int, !absorbing));
                        return false;
                    }
                    assert(!feeds_itself(before, place as int, !absorbing)) by {
                        let kept = !absorbing;
                        if feeds_itself(before, place as int, kept) {
                            let other = choose|other: usize| #[trigger]
                                is_first_constant(before, inputs@, kept, other) && without(inputs@, other) == seq![id];
                            first_constant_is_unique(before, inputs@, kept, neutral, other);
                        }
                    }
                    self.fold_neutral(place, &inputs, neutral, !absorbing);
                    assert(is_first_neutral_folded(before, place as int, !absorbing, self.views()));
                    return true;
                }
                false
            },
            LogicType::Xor => {
                if let Some(neutral) = self.find_constant(&inputs, false) {
                    if self.only_itself(&inputs, neutral, id) {
                        assert(is_first_constant(before, inputs@, false, neutral));
                        assert(feeds_itself(before, place as int, false));
                        return false;
                    }
                    assert(!feeds_itself(before, place as int, false)) by {
                        if feeds_itself(before, place as int, false) {
                            let other = choose|other: usize| #[trigger]
                                is_first_constant(before, inputs@, false, other) && without(inputs@, other) == seq![id];
                            first_constant_is_unique(before, inputs@, false, neutral, other);
                        }
                    }
                    self.fold_neutral(place, &inputs, neutral, false);
                    assert(is_first_neutral_folded(before, place as int, false, self.views()));
                    return true;
                }
                let mut true_count: usize = 0;
                let mut free: Vec<usize> = Vec::new();
                let mut pin: usize = 0;
                assert(inputs@.take(0) =~= Seq::<usize>::empty());
                while pin < inputs.len()
                    invariant
                        self.views() == before,
                        pin <= inputs.len(),
                        true_count <= pin,
                        true_count == true_inputs(before, inputs@.take(pin as int)),
                        free@ == free_inputs(before, inputs@.take(pin as int)),
                    decreases inputs.len() - pin,
                {
                    proof {
                        let longer = inputs@.take(pin + 1);
                        assert(longer.drop_last() =~= inputs@.take(pin as int));
                        assert(longer.last() == inputs@[pin as int]);
                    }
                    match self.constant_value(inputs[pin]) {
                        Some(value) => {
                            if value {
                                true_count += 1;
                            }
                        },
                        None => free.push(inputs[pin]),
                    }
                    pin += 1;
                }
                assert(inputs@.take(inputs.len() as int) =~= inputs@);
                if true_count == 0 || free.len() != 1 {
                    return false;
                }
                let value: usize = free[0];
                if true_count % 2 == 0 && value == id {
                    return false;
                }
                proof {
                    free_inputs_from(before, inputs@);
                    assert(free@[0] == value);
                    assert(inputs@.contains(value));
                    let pin = choose|pin: int| 0 <= pin < inputs@.len() && inputs@[pin] == value;
                    assert(before[place as int].inputs[pin] == value);
                    assert(place_of(before, value) is Some);
                    assert forall|env: spec_fn(Seq<char>) -> bool, v: spec_fn(int) -> bool| #[trigger]
                        is_valuation(before, env, v) implies v(before[place as int].id as int) == ((true_count % 2 == 1)
                        != v(value as int)) by {
                        gate_has_value(before, place as int, env, v);
                        parity_of_trues(before, inputs@, env, v);
                        assert(values_at(v, free@) =~= seq![v(value as int)]);
                        gate_of_one(LogicType::Xor, v(value as int));
                    }
                }
                if true_count % 2 == 1 {
                    let inverted_inputs = vec![value];
                    let node = GraphNode::new(
                        GraphNodeKind::Logic(Logic { logic_type: LogicType::Not }),
                        inverted_inputs,
                        "folded-xor",
                    );
                    let ghost added = node@;
                    proof {
                        assert forall|pin: int| 0 <= pin < added.inputs.len() implies place_of(
                            before,
                            #[trigger] added.inputs[pin],
                        ) is Some by {
                            assert(added.inputs[pin] == value);
                        }
                    }
                    let inverted: usize = self.add(node);
                    let ghost middle = self.views();
                    proof {
                        let last = before.len() as int;
                        assert(middle[place as int] == before[place as int]);
                        ids_below_top(before);
                        place_of_node(middle, last);
                        assert forall|env: spec_fn(Seq<char>) -> bool, v: spec_fn(int) -> bool| #[trigger]
                            is_valuation(middle, env, v) implies v(middle[place as int].id as int) == v(inverted as int) by {
                            assert(is_valuation(before, env, v)) by {
                                assert forall|i: int| 0 <= i < before.len() implies node_holds(
                                    #[trigger] before[i],
                                    before[i].id as int,
                                    env,
                                    v,
                                ) by {
                                    assert(middle[i] == before[i]);
                                }
                            }
                            gate_has_value(middle, last, env, v);
                            assert(values_at(v, middle[last].inputs) =~= seq![v(value as int)]);
                            logic_value_of_pair(v(value as int), true);
                        }
                        assert forall|i: int| no_false_constant(before) && 0 <= i < middle.len() implies (
                        #[trigger] middle[i]).kind != KindView::Constant(false) by {
                            if i < before.len() {
                                assert(middle[i] == before[i]);
                            }
                        }
                    }
                    self.replace_node(place, inverted);
                    proof {
                        assert(added.inputs =~= seq![value]);
                        assert(middle == with_node(before, inverter_node(value, "folded-xor"@)));
                        computes_same_trans(before, middle, self.views());
                    }
                } else {
                    self.replace_node(place, value);
                }
                true
            },
        }
    }

    /// Folds the first node that can be folded.
    fn fold_one_rewrite(&mut self) -> (folded: bool)
        requires
            is_graph(old(self).views()),
            top_id(old(self).views()) < usize::MAX,
        ensures
            folded == has_foldable(old(self).views()),
            folded ==> is_fold_step(old(self).views(), final(self).views()),
            !folded ==> final(self).views() == old(self).views(),
    {
        let ghost before = self.views();
        let mut place: usize = 0;
        while place < self.graph.graph.nodes.len()
            invariant
                before == old(self).views(),
                self.views() == before,
                is_graph(before),
                top_id(before) < usize::MAX,
                place <= self.graph.graph.nodes.len(),
                forall|i: int| 0 <= i < place ==> !#[trigger] is_foldable(before, i),
            decreases self.graph.graph.nodes.len() - place,
        {
            let id: usize = self.graph.graph.nodes[place].id;
            proof {
                assert(before[place as int] == self.graph.graph.nodes[place as int]@);
                place_of_node(before, place as int);
            }
            let ghost length = self.graph.graph.nodes.len();
            if self.fold_node(id) {
                assert(is_foldable(before, place as int));
                assert(is_first_foldable(before, place as int));
                return true;
            }
            assert(self.graph.graph.nodes.len() == self.views().len());
            place += 1;
        }
        false
    }

    /// Folds constants until nothing is left to fold, with at most 1024
    /// rewrites, which are enough for a graph of less weight.
    /// What is folded is verified in the end.
    pub fn fold_constants<V: Fn(&LogicGraph) -> Result<(), String>>(&mut self, verify: &V) -> (result: Result<(), String>)
        requires
            forall|graph: LogicGraph| #[trigger] call_requires(*verify, (&graph,)),
            is_graph(old(self).views()),
            top_id(old(self).views()) < usize::MAX - 2048,
        ensures
            is_graph(final(self).views()),
            computes_same(old(self).views(), final(self).views()),
            no_false_constant(old(self).views()) ==> no_false_constant(final(self).views()),
            exists|trace: Seq<Seq<NodeView>>|
                {
                    &&& #[trigger] is_fold_trace(trace, old(self).views(), final(self).views())
                    &&& trace.len() <= 1025
                    &&& trace.len() < 1025 ==> !has_foldable(final(self).views())
                },
            fold_weight(old(self).views()) < 1024 ==> !has_foldable(final(self).views()),
            call_ensures(*verify, (&final(self).graph,), result),
    {
        self.fold_all();
        verify(&self.graph)
    }

    fn fold_all(&mut self)
        requires
            is_graph(old(self).views()),
            top_id(old(self).views()) < usize::MAX - 2048,
        ensures
            is_graph(final(self).views()),
            computes_same(old(self).views(), final(self).views()),
            no_false_constant(old(self).views()) ==> no_false_constant(final(self).views()),
            exists|trace: Seq<Seq<NodeView>>|
                {
                    &&& #[trigger] is_fold_trace(trace, old(self).views(), final(self).views())
                    &&& trace.len() <= 1025
                    &&& trace.len() < 1025 ==> !has_foldable(final(self).views())
                },
            fold_weight(old(self).views()) < 1024 ==> !has_foldable(final(self).views()),
    {
        let ghost start = self.views();
        let mut count: usize = 0;
        let ghost mut trace = seq![start];
        proof {
            computes_same_refl(start);
        }
        while count < 1024
            invariant
                start == old(self).views(),
                count <= 1024,
                is_graph(self.views()),
                computes_same(start, self.views()),
                no_false_constant(start) ==> no_false_constant(self.views()),
                top_id(start) < usize::MAX - 2048,
                top_id(self.views()) <= top_id(start) + 2 * count,
                trace.len() == count + 1,
                is_fold_trace(trace, start, self.views()),
                fold_weight(self.views()) + count <= fold_weight(start),
            decreases 1024 - count,
        {
            let ghost before = self.views();
            if !self.fold_one_rewrite() {
                return;
            }
            proof {
                computes_same_trans(start, before, self.views());
                folding_lightens(before, self.views());
                let longer = trace.push(self.views());
                assert forall|i: int| 0 <= i < longer.len() - 1 implies #[trigger] is_fold_step(longer[i], longer[i + 1]) by {
                    if i < trace.len() - 1 {
                        assert(is_fold_step(trace[i], trace[i + 1]));
                    }
                }
                trace = longer;
            }
            count += 1;
        }
    }
}

/// Whether some gate can be folded.
pub open spec fn has_foldable(nodes: Seq<NodeView>) -> bool {
    exists|place: int| 0 <= place < nodes.len() && #[trigger] is_foldable(nodes, place)
}

/// Whether a list of graphs leads from one to another by rewrites.
pub open spec fn is_fold_trace(trace: Seq<Seq<NodeView>>, before: Seq<NodeView>, after: Seq<NodeView>) -> bool {
    &&& trace.len() > 0
    &&& trace[0] == before
    &&& trace.last() == after
    &&& forall|i: int| 0 <= i < trace.len() - 1 ==> #[trigger] is_fold_step(trace[i], trace[i + 1])
}

/// Whether a place is the first at which a gate can be folded.
pub open spec fn is_first_foldable(nodes: Seq<NodeView>, place: int) -> bool {
    &&& 0 <= place < nodes.len()
    &&& is_foldable(nodes, place)
    &&& forall|i: int| 0 <= i < place ==> !#[trigger] is_foldable(nodes, i)
}

/// One rewrite of a graph: the first gate that can be folded is.
pub open spec fn is_fold_step(before: Seq<NodeView>, after: Seq<NodeView>) -> bool {
    &&& is_rewrite(before, after)
    &&& exists|place: int| #[trigger] is_first_foldable(before, place) && is_folded(before, place, after)
}

/// Inputs that are no constant are inputs.
proof fn free_inputs_from(nodes: Seq<NodeView>, inputs: Seq<usize>)
    ensures
        forall|i: int|
            0 <= i < free_inputs(nodes, inputs).len() ==> inputs.contains(#[trigger] free_inputs(nodes, inputs)[i]),
    decreases inputs.len(),
{
    if inputs.len() > 0 {
        let shorter = inputs.drop_last();
        let before = free_inputs(nodes, shorter);
        free_inputs_from(nodes, shorter);
        assert forall|i: int| 0 <= i < free_inputs(nodes, inputs).len() implies inputs.contains(
            #[trigger] free_inputs(nodes, inputs)[i],
        ) by {
            if i < before.len() {
                let item = before[i];
                assert(free_inputs(nodes, inputs)[i] == item);
                let place = choose|p: int| 0 <= p < shorter.len() && shorter[p] == item;
                assert(inputs[place] == item);
            } else {
                assert(inputs[inputs.len() - 1] == free_inputs(nodes, inputs)[i]);
            }
        }
    }
}

/// Where a place stands for a constant there is a first one.
pub proof fn first_canonical_exists(nodes: Seq<NodeView>, place: int, value: bool)
    requires
        0 <= place < nodes.len(),
        is_canonical(nodes, place, value),
    ensures
        exists|first: int| is_first_canonical(nodes, first, value),
    decreases place,
{
    if forall|i: int| 0 <= i < place ==> !#[trigger] is_canonical(nodes, i, value) {
        assert(is_first_canonical(nodes, place, value));
    } else {
        let earlier = choose|i: int| 0 <= i < place && #[trigger] is_canonical(nodes, i, value);
        first_canonical_exists(nodes, earlier, value);
    }
}

} // verus!

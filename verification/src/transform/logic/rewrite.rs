//! Graphs whose nodes are known by id, and rewrites that keep what they compute.

use crate::graph::{node_holds, node_views, values_at, GraphNode, GraphNodeId, KindView, NodeView};
use crate::logic::{logic_value, LogicType};
use vstd::prelude::*;

verus! {

/// A logic graph.
#[derive(Debug)]
pub struct Graph {
    pub nodes: Vec<GraphNode>,
}

/// A graph of gates.
#[derive(Debug)]
pub struct LogicGraph {
    pub graph: Graph,
}

/// Whether no two nodes share an id.
pub open spec fn ids_differ(nodes: Seq<NodeView>) -> bool {
    forall|i: int, j: int| 0 <= i < j < nodes.len() ==> (#[trigger] nodes[i]).id != (#[trigger] nodes[j]).id
}

/// Whether a valuation by id agrees with the boundary values and every gate.
pub open spec fn is_valuation(
    nodes: Seq<NodeView>,
    env: spec_fn(Seq<char>) -> bool,
    v: spec_fn(int) -> bool,
) -> bool {
    forall|i: int| 0 <= i < nodes.len() ==> node_holds(#[trigger] nodes[i], nodes[i].id as int, env, v)
}

/// Whether the output nodes of `before` are all in `after`.
pub open spec fn keeps_outputs(before: Seq<NodeView>, after: Seq<NodeView>) -> bool {
    forall|i: int|
        0 <= i < before.len() && (#[trigger] before[i]).kind is Output ==> exists|j: int|
            0 <= j < after.len() && (#[trigger] after[j]).id == before[i].id && after[j].kind == before[i].kind
}

/// Whether two valuations agree on the output nodes.
pub open spec fn outputs_agree(nodes: Seq<NodeView>, v: spec_fn(int) -> bool, w: spec_fn(int) -> bool) -> bool {
    forall|i: int|
        0 <= i < nodes.len() && (#[trigger] nodes[i]).kind is Output ==> v(nodes[i].id as int) == w(nodes[i].id as int)
}

/// Whether `after` computes what `before` computes: it has the same output
/// nodes, and whatever values the nodes of `before` can take, those of `after`
/// can take values with the same outputs.
pub open spec fn computes_same(before: Seq<NodeView>, after: Seq<NodeView>) -> bool {
    &&& keeps_outputs(before, after)
    &&& forall|env: spec_fn(Seq<char>) -> bool, v: spec_fn(int) -> bool| #[trigger]
        is_valuation(before, env, v) ==> exists|w: spec_fn(int) -> bool|
            #[trigger] is_valuation(after, env, w) && outputs_agree(before, v, w)
}

/// Computing the same is transitive.
pub proof fn computes_same_trans(first: Seq<NodeView>, second: Seq<NodeView>, third: Seq<NodeView>)
    requires
        computes_same(first, second),
        computes_same(second, third),
    ensures
        computes_same(first, third),
{
    assert forall|i: int| 0 <= i < first.len() && (#[trigger] first[i]).kind is Output implies exists|k: int|
        0 <= k < third.len() && (#[trigger] third[k]).id == first[i].id && third[k].kind == first[i].kind by {
        let j = choose|j: int|
            0 <= j < second.len() && (#[trigger] second[j]).id == first[i].id && second[j].kind == first[i].kind;
        let k = choose|k: int|
            0 <= k < third.len() && (#[trigger] third[k]).id == second[j].id && third[k].kind == second[j].kind;
        assert(third[k].id == first[i].id);
    }
    assert forall|env: spec_fn(Seq<char>) -> bool, v: spec_fn(int) -> bool| #[trigger]
        is_valuation(first, env, v) implies exists|x: spec_fn(int) -> bool|
        #[trigger] is_valuation(third, env, x) && outputs_agree(first, v, x) by {
        let w = choose|w: spec_fn(int) -> bool| #[trigger] is_valuation(second, env, w) && outputs_agree(first, v, w);
        let x = choose|x: spec_fn(int) -> bool| #[trigger] is_valuation(third, env, x) && outputs_agree(second, w, x);
        assert forall|i: int| 0 <= i < first.len() && (#[trigger] first[i]).kind is Output implies v(
            first[i].id as int,
        ) == x(first[i].id as int) by {
            let j = choose|j: int|
                0 <= j < second.len() && (#[trigger] second[j]).id == first[i].id && second[j].kind == first[i].kind;
            assert(second[j].kind is Output);
        }
        assert(is_valuation(third, env, x) && outputs_agree(first, v, x));
    }
}

/// Every graph computes what it computes.
pub proof fn computes_same_refl(nodes: Seq<NodeView>)
    ensures
        computes_same(nodes, nodes),
{
    assert forall|i: int| 0 <= i < nodes.len() && (#[trigger] nodes[i]).kind is Output implies exists|j: int|
        0 <= j < nodes.len() && (#[trigger] nodes[j]).id == nodes[i].id && nodes[j].kind == nodes[i].kind by {
        assert(nodes[i].id == nodes[i].id);
    }
    assert forall|env: spec_fn(Seq<char>) -> bool, v: spec_fn(int) -> bool| #[trigger]
        is_valuation(nodes, env, v) implies exists|w: spec_fn(int) -> bool|
        #[trigger] is_valuation(nodes, env, w) && outputs_agree(nodes, v, w) by {
        assert(is_valuation(nodes, env, v) && outputs_agree(nodes, v, v));
    }
}

/// The place of the first node with an id.
pub open spec fn place_of(nodes: Seq<NodeView>, id: usize) -> Option<int>
    decreases nodes.len(),
{
    if nodes.len() == 0 {
        None
    } else {
        match place_of(nodes.drop_last(), id) {
            Some(place) => Some(place),
            None => if nodes.last().id == id {
                Some(nodes.len() - 1)
            } else {
                None
            },
        }
    }
}

/// A place holds a node with the id, and no earlier place does.
pub proof fn place_of_holds(nodes: Seq<NodeView>, id: usize)
    ensures
        match place_of(nodes, id) {
            Some(place) => 0 <= place < nodes.len() && nodes[place].id == id && forall|i: int|
                0 <= i < place ==> (#[trigger] nodes[i]).id != id,
            None => forall|i: int| 0 <= i < nodes.len() ==> (#[trigger] nodes[i]).id != id,
        },
    decreases nodes.len(),
{
    if nodes.len() > 0 {
        let shorter = nodes.drop_last();
        place_of_holds(shorter, id);
        assert forall|i: int| 0 <= i < shorter.len() implies #[trigger] nodes[i] == shorter[i] by {}
        if place_of(shorter, id) is None {
            assert forall|i: int| 0 <= i < nodes.len() - 1 implies (#[trigger] nodes[i]).id != id by {
                assert(shorter[i].id != id);
            }
        } else {
            assert forall|i: int| 0 <= i < place_of(shorter, id)->0 implies (#[trigger] nodes[i]).id != id by {
                assert(shorter[i].id != id);
            }
        }
    }
}

/// The inputs with every `old` turned to `new`.
pub open spec fn rewired(inputs: Seq<usize>, old_id: usize, new_id: usize) -> Seq<usize> {
    inputs.map_values(|input: usize| if input == old_id { new_id } else { input })
}

/// The inputs that are not `id`, in order.
pub open spec fn without(inputs: Seq<usize>, id: usize) -> Seq<usize>
    decreases inputs.len(),
{
    if inputs.len() == 0 {
        Seq::empty()
    } else {
        let before = without(inputs.drop_last(), id);
        if inputs.last() == id {
            before
        } else {
            before.push(inputs.last())
        }
    }
}

/// All nodes with every reader of `old` turned to `new`.
pub open spec fn rewired_nodes(nodes: Seq<NodeView>, old_id: usize, new_id: usize) -> Seq<NodeView> {
    nodes.map_values(|node: NodeView| NodeView { inputs: rewired(node.inputs, old_id, new_id), ..node })
}

impl Graph {
    /// A graph of nodes that are numbered by their place.
    pub fn from_nodes(nodes: Vec<GraphNode>) -> (graph: Self)
        ensures
            node_views(graph.nodes@) == Seq::new(
                nodes@.len(),
                |i: int| NodeView { id: i as usize, ..nodes@[i]@ },
            ),
            ids_differ(node_views(graph.nodes@)),
    {
        let ghost given = nodes@;
        let mut nodes = nodes;
        let mut index: usize = 0;
        while index < nodes.len()
            invariant
                index <= nodes.len(),
                nodes.len() == given.len(),
                forall|i: int| 0 <= i < index ==> (#[trigger] nodes[i])@ == (NodeView { id: i as usize, ..given[i]@ }),
                forall|i: int| index <= i < nodes.len() ==> #[trigger] nodes[i] == given[i],
            decreases nodes.len() - index,
        {
            nodes[index].id = index;
            index += 1;
        }
        assert(node_views(nodes@) =~= Seq::new(given.len(), |i: int| NodeView { id: i as usize, ..given[i]@ }));
        Graph { nodes }
    }

    /// The place of the first node with an id.
    pub fn place(&self, id: GraphNodeId) -> (place: Option<usize>)
        ensures
            match place {
                Some(place) => place_of(node_views(self.nodes@), id) == Some(place as int) && place < self.nodes.len()
                    && self.nodes[place as int].id == id,
                None => place_of(node_views(self.nodes@), id) is None,
            },
    {
        let ghost views = node_views(self.nodes@);
        let mut index: usize = 0;
        proof {
            place_of_holds(views, id);
        }
        while index < self.nodes.len()
            invariant
                views == node_views(self.nodes@),
                index <= self.nodes.len(),
                forall|i: int| 0 <= i < index ==> (#[trigger] views[i]).id != id,
                match place_of(views, id) {
                    Some(place) => 0 <= place < views.len() && views[place].id == id && forall|i: int|
                        0 <= i < place ==> (#[trigger] views[i]).id != id,
                    None => forall|i: int| 0 <= i < views.len() ==> (#[trigger] views[i]).id != id,
                },
            decreases self.nodes.len() - index,
        {
            assert(views[index as int] == self.nodes[index as int]@);
            if self.nodes[index].id == id {
                return Some(index);
            }
            index += 1;
        }
        None
    }

    /// The first node with an id.
    pub fn find_node_by_id(&self, id: GraphNodeId) -> (node: Option<&GraphNode>)
        ensures
            match node {
                Some(node) => exists|place: int|
                    {
                        &&& 0 <= place < self.nodes.len()
                        &&& *node == #[trigger] self.nodes[place]
                        &&& place_of(node_views(self.nodes@), id) == Some(place)
                    },
                None => place_of(node_views(self.nodes@), id) is None,
            },
    {
        match self.place(id) {
            Some(place) => Some(&self.nodes[place]),
            None => None,
        }
    }

    /// One more than the highest id.
    fn next_id(&self) -> (id: usize)
        requires
            forall|i: int| 0 <= i < self.nodes.len() ==> (#[trigger] self.nodes[i]).id < usize::MAX,
        ensures
            forall|i: int| 0 <= i < self.nodes.len() ==> (#[trigger] self.nodes[i]).id < id,
            id == 0 || exists|i: int| 0 <= i < self.nodes.len() && (#[trigger] self.nodes[i]).id == id - 1,
    {
        let mut next: usize = 0;
        let mut index: usize = 0;
        while index < self.nodes.len()
            invariant
                index <= self.nodes.len(),
                forall|i: int| 0 <= i < self.nodes.len() ==> (#[trigger] self.nodes[i]).id < usize::MAX,
                forall|i: int| 0 <= i < index ==> (#[trigger] self.nodes[i]).id < next,
                next == 0 || exists|i: int| 0 <= i < index && (#[trigger] self.nodes[i]).id == next - 1,
            decreases self.nodes.len() - index,
        {
            if self.nodes[index].id >= next {
                assert(self.nodes[index as int].id < usize::MAX);
                next = self.nodes[index].id + 1;
            }
            index += 1;
        }
        next
    }

    /// Adds a node under a new id.
    pub fn add_node(&mut self, node: GraphNode) -> (id: GraphNodeId)
        requires
            ids_differ(node_views(old(self).nodes@)),
            forall|i: int| 0 <= i < old(self).nodes.len() ==> (#[trigger] old(self).nodes[i]).id < usize::MAX,
        ensures
            ids_differ(node_views(final(self).nodes@)),
            forall|i: int| 0 <= i < old(self).nodes.len() ==> (#[trigger] old(self).nodes[i]).id < id,
            id == 0 || exists|i: int| 0 <= i < old(self).nodes.len() && (#[trigger] old(self).nodes[i]).id == id - 1,
            node_views(final(self).nodes@) == node_views(old(self).nodes@).push(NodeView { id, ..node@ }),
    {
        let ghost before = node_views(self.nodes@);
        let id: usize = self.next_id();
        let mut node = node;
        node.id = id;
        let ghost added = node@;
        self.nodes.push(node);
        proof {
            let after = node_views(self.nodes@);
            assert(after =~= before.push(added));
            assert forall|i: int, j: int| 0 <= i < j < after.len() implies (#[trigger] after[i]).id != (
            #[trigger] after[j]).id by {
                assert(after[i] == before[i]);
                assert(before[i].id == old(self).nodes[i].id);
                if j < before.len() {
                    assert(after[j] == before[j]);
                }
            }
        }
        id
    }

    /// Turns every reader of `old_id` to `new_id`.
    pub fn replace_input_node_id(&mut self, old_id: GraphNodeId, new_id: GraphNodeId)
        ensures
            node_views(final(self).nodes@) == rewired_nodes(node_views(old(self).nodes@), old_id, new_id),
    {
        let ghost before = self.nodes@;
        let mut index: usize = 0;
        while index < self.nodes.len()
            invariant
                index <= self.nodes.len(),
                self.nodes.len() == before.len(),
                forall|i: int|
                    0 <= i < index ==> (#[trigger] self.nodes[i])@ == (NodeView {
                        inputs: rewired(before[i]@.inputs, old_id, new_id),
                        ..before[i]@
                    }),
                forall|i: int| index <= i < self.nodes.len() ==> #[trigger] self.nodes[i] == before[i],
            decreases self.nodes.len() - index,
        {
            let mut inputs: Vec<usize> = Vec::new();
            let mut pin: usize = 0;
            while pin < self.nodes[index].inputs.len()
                invariant
                    index < self.nodes.len(),
                    pin <= self.nodes[index as int].inputs.len(),
                    inputs.len() == pin,
                    forall|i: int|
                        0 <= i < pin ==> (#[trigger] inputs[i]) == (if self.nodes[index as int].inputs[i] == old_id {
                            new_id
                        } else {
                            self.nodes[index as int].inputs[i]
                        }),
                decreases self.nodes[index as int].inputs.len() - pin,
            {
                let input: usize = self.nodes[index].inputs[pin];
                inputs.push(if input == old_id { new_id } else { input });
                pin += 1;
            }
            assert(self.nodes[index as int] == before[index as int]);
            assert(inputs@ =~= rewired(before[index as int]@.inputs, old_id, new_id));
            self.nodes[index].inputs = inputs;
            index += 1;
        }
        assert(node_views(self.nodes@) =~= rewired_nodes(node_views(before), old_id, new_id));
    }

    /// Takes `id` out of the inputs of the node at `place`.
    pub fn remove_input(&mut self, place: usize, id: GraphNodeId)
        requires
            place < old(self).nodes.len(),
        ensures
            node_views(final(self).nodes@) == node_views(old(self).nodes@).update(
                place as int,
                NodeView {
                    inputs: without(old(self).nodes[place as int]@.inputs, id),
                    ..old(self).nodes[place as int]@
                },
            ),
    {
        let ghost before = self.nodes@;
        let inputs = inputs_without(&self.nodes[place].inputs, id);
        self.nodes[place].inputs = inputs;
        assert(node_views(self.nodes@) =~= node_views(before).update(
            place as int,
            NodeView { inputs: without(before[place as int]@.inputs, id), ..before[place as int]@ },
        ));
    }

    /// Removes the node at `place`.
    pub fn remove_node(&mut self, place: usize)
        requires
            place < old(self).nodes.len(),
        ensures
            node_views(final(self).nodes@) == node_views(old(self).nodes@).remove(place as int),
    {
        let ghost before = self.nodes@;
        self.nodes.remove(place);
        assert(node_views(self.nodes@) =~= node_views(before).remove(place as int));
    }
}

/// The inputs that are not `id`, in order.
pub fn inputs_without(inputs: &Vec<usize>, id: usize) -> (rest: Vec<usize>)
    ensures
        rest@ == without(inputs@, id),
{
    let mut rest: Vec<usize> = Vec::new();
    let mut pin: usize = 0;
    assert(inputs@.take(0) =~= Seq::<usize>::empty());
    while pin < inputs.len()
        invariant
            pin <= inputs.len(),
            rest@ == without(inputs@.take(pin as int), id),
        decreases inputs.len() - pin,
    {
        proof {
            let longer = inputs@.take(pin + 1);
            assert(longer.drop_last() =~= inputs@.take(pin as int));
            assert(longer.last() == inputs@[pin as int]);
        }
        if inputs[pin] != id {
            rest.push(inputs[pin]);
        }
        pin += 1;
    }
    assert(inputs@.take(inputs.len() as int) =~= inputs@);
    rest
}

/// What the inputs that are left have is also among all inputs, and is not `id`.
pub proof fn without_from(inputs: Seq<usize>, id: usize)
    ensures
        forall|i: int|
            0 <= i < without(inputs, id).len() ==> inputs.contains(#[trigger] without(inputs, id)[i]) && without(
                inputs,
                id,
            )[i] != id,
        without(inputs, id).len() <= inputs.len(),
    decreases inputs.len(),
{
    if inputs.len() > 0 {
        let shorter = inputs.drop_last();
        let before = without(shorter, id);
        without_from(shorter, id);
        assert forall|i: int| 0 <= i < without(inputs, id).len() implies inputs.contains(
            #[trigger] without(inputs, id)[i],
        ) && without(inputs, id)[i] != id by {
            if i < before.len() {
                let item = before[i];
                assert(without(inputs, id)[i] == item);
                let place = choose|p: int| 0 <= p < shorter.len() && shorter[p] == item;
                assert(inputs[place] == item);
            } else {
                assert(inputs[inputs.len() - 1] == without(inputs, id)[i]);
            }
        }
    }
}

/// Taking out an input that does not matter keeps what a gate computes.
pub proof fn gate_without_neutral(op: LogicType, inputs: Seq<usize>, id: usize, v: spec_fn(int) -> bool)
    requires
        op == LogicType::And ==> v(id as int),
        op == LogicType::Or || op == LogicType::Xor ==> !v(id as int),
        op != LogicType::Not,
    ensures
        logic_value(op, values_at(v, without(inputs, id))) == logic_value(op, values_at(v, inputs)),
    decreases inputs.len(),
{
    if inputs.len() > 0 {
        let shorter = inputs.drop_last();
        gate_without_neutral(op, shorter, id, v);
        let all = values_at(v, inputs);
        let fewer = values_at(v, shorter);
        let rest = values_at(v, without(inputs, id));
        let rest_fewer = values_at(v, without(shorter, id));
        assert(all.drop_last() =~= fewer);
        assert(all =~= fewer.push(v(inputs.last() as int)));
        gate_push(op, fewer, v(inputs.last() as int));
        if inputs.last() != id {
            assert(rest =~= rest_fewer.push(v(inputs.last() as int)));
            gate_push(op, rest_fewer, v(inputs.last() as int));
        } else {
            assert(rest =~= rest_fewer);
        }
    }
}

/// What a gate computes with one more input.
pub proof fn gate_push(op: LogicType, values: Seq<bool>, last: bool)
    requires
        op != LogicType::Not,
    ensures
        logic_value(op, values.push(last)) == (match op {
            LogicType::And => logic_value(op, values) && last,
            LogicType::Or => logic_value(op, values) || last,
            _ => logic_value(op, values) != last,
        }),
{
    let more = values.push(last);
    assert(more.drop_last() =~= values);
    assert(more[values.len() as int] == last);
    match op {
        LogicType::And => {
            if logic_value(op, more) {
                assert forall|i: int| 0 <= i < values.len() implies #[trigger] values[i] by {
                    assert(more[i]);
                }
            }
        },
        LogicType::Or => {
            if logic_value(op, values) {
                let i = choose|i: int| 0 <= i < values.len() && #[trigger] values[i];
                assert(more[i]);
            }
            if logic_value(op, more) && !last {
                let i = choose|i: int| 0 <= i < more.len() && #[trigger] more[i];
                assert(values[i]);
            }
        },
        _ => {},
    }
}

/// Turning the readers of a node to another with the same value, and removing
/// it, keeps what the graph computes.
pub proof fn replacing_computes_same(nodes: Seq<NodeView>, place: int, new_id: usize)
    requires
        ids_differ(nodes),
        0 <= place < nodes.len(),
        !(nodes[place].kind is Output),
        forall|env: spec_fn(Seq<char>) -> bool, v: spec_fn(int) -> bool| #[trigger]
            is_valuation(nodes, env, v) ==> v(nodes[place].id as int) == v(new_id as int),
    ensures
        computes_same(nodes, rewired_nodes(nodes, nodes[place].id, new_id).remove(place)),
        ids_differ(rewired_nodes(nodes, nodes[place].id, new_id).remove(place)),
{
    let old_id = nodes[place].id;
    let turned = rewired_nodes(nodes, old_id, new_id);
    let after = turned.remove(place);
    assert forall|j: int| 0 <= j < after.len() implies #[trigger] after[j] == turned[if j < place { j } else { j + 1 }] by {}
    assert forall|i: int, j: int| 0 <= i < j < after.len() implies (#[trigger] after[i]).id != (#[trigger] after[j]).id by {
        let a = if i < place { i } else { i + 1 };
        let b = if j < place { j } else { j + 1 };
        assert(turned[a].id == nodes[a].id && turned[b].id == nodes[b].id);
        assert(nodes[a].id != nodes[b].id);
    }
    assert forall|i: int| 0 <= i < nodes.len() && (#[trigger] nodes[i]).kind is Output implies exists|j: int|
        0 <= j < after.len() && (#[trigger] after[j]).id == nodes[i].id && after[j].kind == nodes[i].kind by {
        let j = if i < place { i } else { i - 1 };
        assert(after[j] == turned[i]);
        assert(turned[i].id == nodes[i].id);
    }
    assert forall|env: spec_fn(Seq<char>) -> bool, v: spec_fn(int) -> bool| #[trigger]
        is_valuation(nodes, env, v) implies exists|w: spec_fn(int) -> bool|
        #[trigger] is_valuation(after, env, w) && outputs_agree(nodes, v, w) by {
        assert forall|j: int| 0 <= j < after.len() implies node_holds(#[trigger] after[j], after[j].id as int, env, v) by {
            let i = if j < place { j } else { j + 1 };
            assert(after[j] == turned[i]);
            assert(node_holds(nodes[i], nodes[i].id as int, env, v));
            assert(values_at(v, turned[i].inputs) =~= values_at(v, nodes[i].inputs));
            if nodes[i].inputs.len() > 0 {
                assert(v(turned[i].inputs[0] as int) == v(nodes[i].inputs[0] as int));
            }
        }
        assert(is_valuation(after, env, v) && outputs_agree(nodes, v, v));
    }
}

/// Removing a node that is no output keeps what the graph computes.
pub proof fn removing_computes_same(nodes: Seq<NodeView>, place: int)
    requires
        ids_differ(nodes),
        0 <= place < nodes.len(),
        !(nodes[place].kind is Output),
    ensures
        computes_same(nodes, nodes.remove(place)),
        ids_differ(nodes.remove(place)),
{
    let after = nodes.remove(place);
    assert forall|j: int| 0 <= j < after.len() implies #[trigger] after[j] == nodes[if j < place { j } else { j + 1 }] by {}
    assert forall|i: int, j: int| 0 <= i < j < after.len() implies (#[trigger] after[i]).id != (#[trigger] after[j]).id by {
        let a = if i < place { i } else { i + 1 };
        let b = if j < place { j } else { j + 1 };
        assert(nodes[a].id != nodes[b].id);
    }
    assert forall|i: int| 0 <= i < nodes.len() && (#[trigger] nodes[i]).kind is Output implies exists|j: int|
        0 <= j < after.len() && (#[trigger] after[j]).id == nodes[i].id && after[j].kind == nodes[i].kind by {
        let j = if i < place { i } else { i - 1 };
        assert(after[j] == nodes[i]);
    }
    assert forall|env: spec_fn(Seq<char>) -> bool, v: spec_fn(int) -> bool| #[trigger]
        is_valuation(nodes, env, v) implies exists|w: spec_fn(int) -> bool|
        #[trigger] is_valuation(after, env, w) && outputs_agree(nodes, v, w) by {
        assert forall|j: int| 0 <= j < after.len() implies node_holds(#[trigger] after[j], after[j].id as int, env, v) by {
            let i = if j < place { j } else { j + 1 };
            assert(node_holds(nodes[i], nodes[i].id as int, env, v));
        }
        assert(is_valuation(after, env, v) && outputs_agree(nodes, v, v));
    }
}

/// Adding a gate or a constant under a new id keeps what the graph computes,
/// where nothing reads that id yet.
pub proof fn adding_computes_same(nodes: Seq<NodeView>, node: NodeView)
    requires
        node.kind is Constant || node.kind is Logic,
        forall|i: int| 0 <= i < nodes.len() ==> (#[trigger] nodes[i]).id != node.id,
        forall|i: int, pin: int|
            0 <= i < nodes.len() && 0 <= pin < nodes[i].inputs.len() ==> (#[trigger] nodes[i].inputs[pin]) != node.id,
        forall|pin: int| 0 <= pin < node.inputs.len() ==> (#[trigger] node.inputs[pin]) != node.id,
    ensures
        computes_same(nodes, nodes.push(node)),
{
    let after = nodes.push(node);
    assert forall|i: int| 0 <= i < nodes.len() && (#[trigger] nodes[i]).kind is Output implies exists|j: int|
        0 <= j < after.len() && (#[trigger] after[j]).id == nodes[i].id && after[j].kind == nodes[i].kind by {
        assert(after[i] == nodes[i]);
    }
    assert forall|env: spec_fn(Seq<char>) -> bool, v: spec_fn(int) -> bool| #[trigger]
        is_valuation(nodes, env, v) implies exists|w: spec_fn(int) -> bool|
        #[trigger] is_valuation(after, env, w) && outputs_agree(nodes, v, w) by {
        let value = match node.kind {
            KindView::Constant(value) => value,
            KindView::Logic(op) => logic_value(op, values_at(v, node.inputs)),
            _ => false,
        };
        let w = |id: int| if id == node.id as int { value } else { v(id) };
        assert forall|j: int| 0 <= j < after.len() implies node_holds(#[trigger] after[j], after[j].id as int, env, w) by {
            assert(values_at(w, after[j].inputs) =~= values_at(v, after[j].inputs)) by {
                assert forall|pin: int| 0 <= pin < after[j].inputs.len() implies w(
                    (#[trigger] after[j].inputs[pin]) as int,
                ) == v(after[j].inputs[pin] as int) by {
                    if j < nodes.len() {
                        assert(nodes[j].inputs[pin] != node.id);
                    } else {
                        assert(node.inputs[pin] != node.id);
                    }
                }
            }
            if j < nodes.len() {
                assert(after[j] == nodes[j]);
                assert(node_holds(nodes[j], nodes[j].id as int, env, v));
                assert(nodes[j].id != node.id);
                if nodes[j].inputs.len() > 0 {
                    assert(nodes[j].inputs[0] != node.id);
                }
            }
        }
        assert(is_valuation(after, env, w) && outputs_agree(nodes, v, w));
    }
}

} // verus!

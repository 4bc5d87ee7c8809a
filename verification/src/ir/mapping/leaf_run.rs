//! What leaves that are wired to each other do: together they compute their cone.

use super::leaf::{finished_nodes, leaf_module, leaf_node};
use super::partition::{
    copies_piece, exposed, exposes, input_text, instance_text, is_outer, is_partition, is_piece, names_node, plan_wf,
    requested, within, PartitionedLeaf, Plan,
};
use super::partition_laws::ports_are_free;
use super::scalar::{builder_wf, input_names_of, is_cone_node, BuilderView};
use super::state_laws::{leaf_runs, node_runs, nodes_run, NodeValues, Run};
use super::state_plan::scalar_driver;
use super::wiring::leaf_source;
use crate::graph::{consistent, node_holds, reads_backward, values_at, KindView, NodeView};
use crate::ir::routable::{BodyView, EndpointView, RoutableKindView, RoutableNodeView};
use crate::logic::{logic_value, LogicType};
use crate::text::{decimal, decimal_injective, texts};
use vstd::prelude::*;

verus! {

/// What boundary nets carry at a moment: each what drives it does.
pub open spec fn boundary_at(elements: Map<Seq<char>, Seq<char>>, run: Run, now: nat) -> spec_fn(Seq<char>) -> bool {
    |name: Seq<char>| run(now, scalar_driver(elements, name))
}

/// Whether the leaves of a partition run, each input fed by what it is wired to.
pub open spec fn is_fed(leaf: PartitionedLeaf, elements: Map<Seq<char>, Seq<char>>, run: Run) -> bool {
    &&& forall|k: int| 0 <= k < leaf.modules@.len() ==> leaf_runs((#[trigger] leaf.modules@[k])@, run)
    &&& forall|k: int, i: int, now: nat|
        #![trigger leaf.instances@[k].inputs@[i], run(now, EndpointView::InstancePort(leaf.instances@[k].instance@, leaf.instances@[k].inputs@[i]@))]
        0 <= k < leaf.instances@.len() && 0 <= i < leaf.instances@[k].inputs@.len() ==> run(
            now,
            EndpointView::InstancePort(leaf.instances@[k].instance@, leaf.instances@[k].inputs@[i]@),
        ) == run(now, leaf_source(leaf, elements, leaf.instances@[k].inputs@[i]@))
}

/// Whether no output has a name that is kept for ports between leaves, and outputs of
/// one name are the same.
pub open spec fn outputs_are_plain(nodes: Seq<NodeView>, outputs: Seq<(Seq<char>, usize)>) -> bool {
    &&& forall|j: int, id: int|
        #![trigger outputs[j], nodes[id]]
        0 <= j < outputs.len() && 0 <= id < nodes.len() && !(nodes[id].kind is Input) ==> outputs[j].0 != "__t"@
            + decimal(id as nat)
    &&& forall|i: int, j: int|
        0 <= i < outputs.len() && 0 <= j < outputs.len() && (#[trigger] outputs[i]).0 == (#[trigger] outputs[j]).0
            ==> outputs[i].1 == outputs[j].1
}

/// The value of a node of a cone, from what its boundary nets carry.
pub open spec fn node_value(nodes: Seq<NodeView>, env: spec_fn(Seq<char>) -> bool, id: int) -> bool
    decreases id, 1nat,
{
    if id < 0 || id >= nodes.len() {
        false
    } else {
        match nodes[id].kind {
            KindView::Input(name) => env(name),
            KindView::Constant(value) => value,
            KindView::Logic(op) => logic_value(op, values_read(nodes, env, id)),
            KindView::Output(_) => nodes[id].inputs.len() > 0 && values_read(nodes, env, id)[0],
            _ => false,
        }
    }
}

/// The values that a node reads.
pub open spec fn values_read(nodes: Seq<NodeView>, env: spec_fn(Seq<char>) -> bool, id: int) -> Seq<bool>
    decreases id, 0nat,
{
    Seq::new(
        nodes[id].inputs.len(),
        |pin: int|
            if 0 <= nodes[id].inputs[pin] < id {
                node_value(nodes, env, nodes[id].inputs[pin] as int)
            } else {
                false
            },
    )
}

/// The values of all nodes of a cone.
pub open spec fn cone_values(nodes: Seq<NodeView>, env: spec_fn(Seq<char>) -> bool) -> spec_fn(int) -> bool {
    |id: int| node_value(nodes, env, id)
}

/// A cone has values whatever its boundary nets carry.
pub proof fn cone_has_values(nodes: Seq<NodeView>, env: spec_fn(Seq<char>) -> bool)
    requires
        reads_backward(nodes),
    ensures
        consistent(nodes, env, cone_values(nodes, env)),
{
    let v = cone_values(nodes, env);
    assert forall|id: int| 0 <= id < nodes.len() implies node_holds(#[trigger] nodes[id], id, env, v) by {
        let read = values_read(nodes, env, id);
        assert forall|pin: int| 0 <= pin < read.len() implies read[pin] == #[trigger] values_at(v, nodes[id].inputs)[pin] by {
            assert(nodes[id].inputs[pin] < id);
        }
        assert(read =~= values_at(v, nodes[id].inputs));
        if nodes[id].inputs.len() > 0 {
            assert(read[0] == v(nodes[id].inputs[0] as int));
        }
    }
}

// ---------------------------------------------------------------------------
// Pieces
// ---------------------------------------------------------------------------
spec fn origin_of(
    cone: BuilderView,
    plan: Plan,
    leaves: Seq<BuilderView>,
    k: int,
) -> Seq<int> {
    choose|origin: Seq<int>|
        {
            &&& #[trigger] copies_piece(
                cone.nodes,
                plan,
                plan.bounds[k],
                plan.bounds[k + 1],
                leaves[k].nodes,
                origin,
            )
            &&& exposes(
                leaves[k],
                origin,
                exposed(cone.nodes, cone.outputs, plan, plan.bounds[k], plan.bounds[k + 1]),
            )
        }
}

spec fn graph_of(leaves: Seq<BuilderView>, k: int) -> Seq<RoutableNodeView> {
    finished_nodes(leaves[k]).map_values(|node: NodeView| leaf_node(node))
}

spec fn values_of(base: Seq<char>, plan: Plan, leaves: Seq<BuilderView>, run: Run, k: int) -> NodeValues {
    let name = piece_name(base, plan, k);
    choose|values: NodeValues| #[trigger] nodes_run(name, graph_of(leaves, k), run, values)
}

/// The name of the leaf of a piece.
spec fn piece_name(base: Seq<char>, plan: Plan, k: int) -> Seq<char> {
    instance_text(base, k as nat, plan.count() > 1)
}

spec fn is_wired(
    cone: BuilderView,
    base: Seq<char>,
    plan: Plan,
    leaves: Seq<BuilderView>,
    leaf: PartitionedLeaf,
    elements: Map<Seq<char>, Seq<char>>,
    run: Run,
) -> bool {
    &&& builder_wf(cone)
    &&& ports_are_free(cone.nodes)
    &&& is_partition(cone.nodes, cone.outputs, base, plan, leaves, leaf)
    &&& is_fed(leaf, elements, run)
}

proof fn piece_runs(
    cone: BuilderView,
    base: Seq<char>,
    plan: Plan,
    leaves: Seq<BuilderView>,
    leaf: PartitionedLeaf,
    elements: Map<Seq<char>, Seq<char>>,
    run: Run,
    k: int,
)
    requires
        is_wired(cone, base, plan, leaves, leaf, elements, run),
        0 <= k < plan.count(),
    ensures
        copies_piece(
            cone.nodes,
            plan,
            plan.bounds[k],
            plan.bounds[k + 1],
            leaves[k].nodes,
            origin_of(cone, plan, leaves, k),
        ),
        exposes(
            leaves[k],
            origin_of(cone, plan, leaves, k),
            exposed(cone.nodes, cone.outputs, plan, plan.bounds[k], plan.bounds[k + 1]),
        ),
        nodes_run(
            instance_text(base, k as nat, plan.count() > 1),
            graph_of(leaves, k),
            run,
            values_of(base, plan, leaves, run, k),
        ),
        builder_wf(leaves[k]),
{
    assert(is_piece(cone.nodes, cone.outputs, plan, k, leaves[k]));
    assert(leaf_runs(leaf.modules@[k]@, run));
    let name = piece_name(base, plan, k);
    assert(leaf.modules@[k]@ == leaf_module(name, finished_nodes(leaves[k])));
    match leaf.modules@[k]@.body {
        BodyView::Leaf(nodes) => {
            assert(nodes =~= graph_of(leaves, k));
            let values = choose|values: NodeValues| #[trigger] nodes_run(name, nodes, run, values);
            assert(nodes_run(name, graph_of(leaves, k), run, values));
        },
        BodyView::Composite(_, _) => {},
    }
}

/// What a node of a leaf that computes shows.
proof fn leaf_node_runs(
    cone: BuilderView,
    base: Seq<char>,
    plan: Plan,
    leaves: Seq<BuilderView>,
    leaf: PartitionedLeaf,
    elements: Map<Seq<char>, Seq<char>>,
    run: Run,
    k: int,
    l: int,
    now: nat,
)
    requires
        is_wired(cone, base, plan, leaves, leaf, elements, run),
        0 <= k < plan.count(),
        0 <= l < leaves[k].nodes.len(),
    ensures
        ({
            let values = values_of(base, plan, leaves, run, k);
            let node = leaves[k].nodes[l];
            match node.kind {
                KindView::Input(name) => values(now, l) == run(
                    now,
                    EndpointView::InstancePort(instance_text(base, k as nat, plan.count() > 1), name),
                ),
                KindView::Constant(value) => values(now, l) == value,
                KindView::Logic(op) => values(now, l) == logic_value(
                    op,
                    values_at(|id: int| values(now, id), node.inputs),
                ),
                _ => true,
            }
        }),
{
    piece_runs(cone, base, plan, leaves, leaf, elements, run, k);
    let name = instance_text(base, k as nat, plan.count() > 1);
    let values = values_of(base, plan, leaves, run, k);
    let graph = graph_of(leaves, k);
    let node = leaves[k].nodes[l];
    assert(finished_nodes(leaves[k])[l].kind == node.kind);
    assert(graph[l].inputs == node.inputs);
    assert(node_runs(name, graph, l, run, values, now));
    let read = Seq::new(graph[l].inputs.len(), |pin: int| values(now, graph[l].inputs[pin] as int));
    assert(read =~= values_at(|id: int| values(now, id), node.inputs));
    assert(is_cone_node(node));
    match node.kind {
        KindView::Input(own) => {
            assert(graph[l].kind == RoutableKindView::Input(own));
        },
        KindView::Constant(value) => {
            assert(graph[l].kind == RoutableKindView::Constant(value));
        },
        KindView::Logic(op) => match op {
            LogicType::Not => {
                assert(graph[l].kind == RoutableKindView::Not);
            },
            LogicType::And => {
                assert(graph[l].kind == RoutableKindView::And);
            },
            LogicType::Or => {
                assert(graph[l].kind == RoutableKindView::Or);
            },
            LogicType::Xor => {
                assert(graph[l].kind == RoutableKindView::Xor);
            },
        },
        _ => {},
    }
}

/// What goes out at output `j` of a leaf.
proof fn leaf_output_runs(
    cone: BuilderView,
    base: Seq<char>,
    plan: Plan,
    leaves: Seq<BuilderView>,
    leaf: PartitionedLeaf,
    elements: Map<Seq<char>, Seq<char>>,
    run: Run,
    k: int,
    j: int,
    now: nat,
)
    requires
        is_wired(cone, base, plan, leaves, leaf, elements, run),
        0 <= k < plan.count(),
        0 <= j < leaves[k].outputs.len(),
    ensures
        run(
            now,
            EndpointView::InstancePort(
                instance_text(base, k as nat, plan.count() > 1),
                leaves[k].outputs[j].0,
            ),
        ) == values_of(base, plan, leaves, run, k)(now, leaves[k].outputs[j].1 as int),
{
    piece_runs(cone, base, plan, leaves, leaf, elements, run, k);
    let name = instance_text(base, k as nat, plan.count() > 1);
    let values = values_of(base, plan, leaves, run, k);
    let graph = graph_of(leaves, k);
    let at = leaves[k].nodes.len() + j;
    let output = leaves[k].outputs[j];
    assert(finished_nodes(leaves[k])[at].kind == KindView::Output(output.0));
    assert(graph[at].kind == RoutableKindView::Output(output.0));
    assert(graph[at].inputs == seq![output.1]);
    assert(node_runs(name, graph, at, run, values, now));
    let read = Seq::new(graph[at].inputs.len(), |pin: int| values(now, graph[at].inputs[pin] as int));
    assert(read[0] == values(now, output.1 as int));
}

proof fn input_is_listed(nodes: Seq<NodeView>, l: int, name: Seq<char>)
    requires
        0 <= l < nodes.len(),
        nodes[l].kind == KindView::Input(name),
    ensures
        input_names_of(nodes).contains(name),
    decreases nodes.len(),
{
    let names = input_names_of(nodes);
    let before = input_names_of(nodes.drop_last());
    if l == nodes.len() - 1 {
        assert(names[before.len() as int] == name);
    } else {
        input_is_listed(nodes.drop_last(), l, name);
        let i = choose|i: int| 0 <= i < before.len() && before[i] == name;
        assert(names[i] == name);
    }
}

proof fn requested_is_there(outputs: Seq<(Seq<char>, usize)>, j: int)
    requires
        0 <= j < outputs.len(),
    ensures
        requested(outputs, outputs[j].1).contains((outputs[j].1, outputs[j].0)),
    decreases outputs.len(),
{
    let id = outputs[j].1;
    let all = requested(outputs, id);
    let before = requested(outputs.drop_last(), id);
    if j == outputs.len() - 1 {
        assert(all[before.len() as int] == (id, outputs[j].0));
    } else {
        requested_is_there(outputs.drop_last(), j);
        assert(outputs.drop_last()[j] == outputs[j]);
        let i = choose|i: int| 0 <= i < before.len() && before[i] == (id, outputs[j].0);
        assert(all[i] == (id, outputs[j].0));
    }
}

proof fn exposed_is_there(
    nodes: Seq<NodeView>,
    outputs: Seq<(Seq<char>, usize)>,
    plan: Plan,
    first: int,
    last: int,
    id: int,
    name: Seq<char>,
)
    requires
        plan_wf(nodes, plan),
        0 <= first,
        last <= plan.order.len(),
        0 <= id < nodes.len(),
        !(nodes[id].kind is Input),
        first <= plan.place[id] < last,
        plan.crosses(nodes, id) && name == input_text(nodes, id) || requested(outputs, id as usize).contains(
            (id as usize, name),
        ),
    ensures
        exposed(nodes, outputs, plan, first, last).contains((id as usize, name)),
    decreases last - first,
{
    let all = exposed(nodes, outputs, plan, first, last);
    let before = exposed(nodes, outputs, plan, first, last - 1);
    let own = plan.order[last - 1];
    let asked = requested(outputs, own);
    assert(plan.order[plan.place[id] as int] == id);
    if plan.place[id] == last - 1 {
        assert(own == id);
        if requested(outputs, id as usize).contains((id as usize, name)) {
            let i = choose|i: int| 0 <= i < asked.len() && asked[i] == (id as usize, name);
            assert(all[before.len() + i] == (id as usize, name));
        } else {
            assert(all[(before.len() + asked.len()) as int] == (id as usize, name));
        }
    } else {
        exposed_is_there(nodes, outputs, plan, first, last - 1, id, name);
        let i = choose|i: int| 0 <= i < before.len() && before[i] == (id as usize, name);
        assert(all[i] == (id as usize, name));
    }
}

/// What a gate that is exposed under a name shows at the port of its leaf.
proof fn exposed_gate_shows(
    cone: BuilderView,
    base: Seq<char>,
    plan: Plan,
    leaves: Seq<BuilderView>,
    leaf: PartitionedLeaf,
    elements: Map<Seq<char>, Seq<char>>,
    run: Run,
    id: int,
    name: Seq<char>,
    now: nat,
) -> (l: int)
    requires
        is_wired(cone, base, plan, leaves, leaf, elements, run),
        0 <= id < cone.nodes.len(),
        !(cone.nodes[id].kind is Input),
        plan.crosses(cone.nodes, id) && name == input_text(cone.nodes, id) || requested(
            cone.outputs,
            id as usize,
        ).contains((id as usize, name)),
    ensures
        ({
            let k = plan.chunk_of[id] as int;
            &&& 0 <= k < plan.count()
            &&& 0 <= l < leaves[k].nodes.len()
            &&& !(leaves[k].nodes[l].kind is Input)
            &&& origin_of(cone, plan, leaves, k)[l] == id
            &&& run(
                now,
                EndpointView::InstancePort(instance_text(base, k as nat, plan.count() > 1), name),
            ) == values_of(base, plan, leaves, run, k)(now, l)
        }),
{
    let k = plan.chunk_of[id] as int;
    assert(plan.holds(cone.nodes, k, id));
    piece_runs(cone, base, plan, leaves, leaf, elements, run, k);
    let first = plan.bounds[k];
    let last = plan.bounds[k + 1];
    assert(0 <= first) by {
        if k > 0 {
            assert(plan.bounds[0] < plan.bounds[k]);
        }
    }
    assert(last <= plan.order.len()) by {
        if k + 1 < plan.bounds.len() - 1 {
            assert(plan.bounds[k + 1] < plan.bounds[plan.bounds.len() - 1]);
        }
    }
    exposed_is_there(cone.nodes, cone.outputs, plan, first, last, id, name);
    let ports = exposed(cone.nodes, cone.outputs, plan, first, last);
    let j = choose|j: int| 0 <= j < ports.len() && ports[j] == (id as usize, name);
    assert(leaves[k].outputs[j].0 == name);
    leaf_output_runs(cone, base, plan, leaves, leaf, elements, run, k, j, now);
    leaves[k].outputs[j].1 as int
}

/// A gate has the value in its leaf that it has in the cone.
proof fn gate_runs(
    cone: BuilderView,
    base: Seq<char>,
    plan: Plan,
    leaves: Seq<BuilderView>,
    leaf: PartitionedLeaf,
    elements: Map<Seq<char>, Seq<char>>,
    run: Run,
    v: spec_fn(int) -> bool,
    id: int,
    l: int,
    now: nat,
)
    requires
        is_wired(cone, base, plan, leaves, leaf, elements, run),
        consistent(cone.nodes, boundary_at(elements, run, now), v),
        0 <= id < cone.nodes.len(),
        !(cone.nodes[id].kind is Input),
        ({
            let k = plan.chunk_of[id] as int;
            &&& 0 <= l < leaves[k].nodes.len()
            &&& !(leaves[k].nodes[l].kind is Input)
            &&& origin_of(cone, plan, leaves, k)[l] == id
        }),
    ensures
        values_of(base, plan, leaves, run, plan.chunk_of[id] as int)(now, l) == v(id),
    decreases id,
{
    let nodes = cone.nodes;
    let k = plan.chunk_of[id] as int;
    assert(plan.holds(nodes, k, id));
    piece_runs(cone, base, plan, leaves, leaf, elements, run, k);
    let origin = origin_of(cone, plan, leaves, k);
    let values = values_of(base, plan, leaves, run, k);
    let node = leaves[k].nodes[l];
    assert(origin[l] == id);
    assert(node.kind == nodes[id].kind);
    leaf_node_runs(cone, base, plan, leaves, leaf, elements, run, k, l, now);
    assert(node_holds(nodes[id], id, boundary_at(elements, run, now), v));
    assert(is_cone_node(nodes[id]));
    if node.kind is Logic {
        assert forall|pin: int| 0 <= pin < node.inputs.len() implies values(
            now,
            (#[trigger] node.inputs[pin]) as int,
        ) == v(nodes[id].inputs[pin] as int) by {
            let source = nodes[id].inputs[pin] as int;
            let local = leaves[k].nodes[l].inputs[pin] as int;
            assert(nodes[id].inputs[pin] < id);
            assert(0 <= local < l);
            assert(0 <= origin[local] < nodes.len());
            if within(nodes, plan, plan.bounds[k], plan.bounds[k + 1], source) {
                same_piece(nodes, plan, source, k);
                assert(origin[local] == source);
                gate_runs(cone, base, plan, leaves, leaf, elements, run, v, source, local, now);
            } else {
                input_runs(cone, base, plan, leaves, leaf, elements, run, k, local, source, now);
                let name = input_text(nodes, source);
                if nodes[source].kind is Input {
                    assert(node_holds(nodes[source], source, boundary_at(elements, run, now), v));
                } else {
                    let at = exposed_gate_shows(cone, base, plan, leaves, leaf, elements, run, source, name, now);
                    gate_runs(cone, base, plan, leaves, leaf, elements, run, v, source, at, now);
                }
            }
        }
        assert(values_at(|other: int| values(now, other), node.inputs) =~= values_at(v, nodes[id].inputs));
    }
}

/// A gate within a piece belongs to it.
proof fn same_piece(nodes: Seq<NodeView>, plan: Plan, id: int, k: int)
    requires
        plan_wf(nodes, plan),
        0 <= id < nodes.len(),
        0 <= k < plan.count(),
        within(nodes, plan, plan.bounds[k], plan.bounds[k + 1], id),
    ensures
        plan.chunk_of[id] == k,
{
    let own = plan.chunk_of[id] as int;
    assert(plan.holds(nodes, own, id));
    if own < k {
        if own + 1 < k {
            assert(plan.bounds[own + 1] < plan.bounds[k]);
        }
    } else if own > k {
        if k + 1 < own {
            assert(plan.bounds[k + 1] < plan.bounds[own]);
        }
    }
}

/// What an input of a leaf shows: a boundary net, or the port of a gate that it
/// stands for.
proof fn input_runs(
    cone: BuilderView,
    base: Seq<char>,
    plan: Plan,
    leaves: Seq<BuilderView>,
    leaf: PartitionedLeaf,
    elements: Map<Seq<char>, Seq<char>>,
    run: Run,
    k: int,
    local: int,
    source: int,
    now: nat,
)
    requires
        is_wired(cone, base, plan, leaves, leaf, elements, run),
        0 <= k < plan.count(),
        0 <= local < leaves[k].nodes.len(),
        0 <= source < cone.nodes.len(),
        leaves[k].nodes[local].kind == KindView::Input(input_text(cone.nodes, source)),
    ensures
        !(cone.nodes[source].kind is Input) ==> plan.crosses(cone.nodes, source),
        values_of(base, plan, leaves, run, k)(now, local) == run(
            now,
            match cone.nodes[source].kind {
                KindView::Input(name) => scalar_driver(elements, name),
                _ => EndpointView::InstancePort(
                    instance_text(base, plan.chunk_of[source] as nat, plan.count() > 1),
                    input_text(cone.nodes, source),
                ),
            },
        ),
{
    let nodes = cone.nodes;
    let name = input_text(nodes, source);
    piece_runs(cone, base, plan, leaves, leaf, elements, run, k);
    leaf_node_runs(cone, base, plan, leaves, leaf, elements, run, k, local, now);
    let instance = instance_text(base, k as nat, plan.count() > 1);
    input_is_listed(leaves[k].nodes, local, name);
    assert(is_piece(nodes, cone.outputs, plan, k, leaves[k]));
    assert(leaf.instances@[k].instance@ == instance);
    let inputs = leaf.instances@[k].inputs@;
    assert(texts(inputs) == input_names_of(leaves[k].nodes));
    let i = choose|i: int| 0 <= i < texts(inputs).len() && texts(inputs)[i] == name;
    assert(inputs[i]@ == name);
    assert(run(now, EndpointView::InstancePort(instance, name)) == run(now, leaf_source(leaf, elements, name)));
    let origin = origin_of(cone, plan, leaves, k);
    let other = origin[local];
    assert(0 <= other < nodes.len());
    assert(name == input_text(nodes, other) && is_outer(nodes, plan, other));
    if nodes[source].kind is Input {
        if leaf.intermediates@.contains_key(name) {
            let id = choose|id: int|
                0 <= id < nodes.len() && !(nodes[id].kind is Input) && #[trigger] plan.crosses(nodes, id) && name
                    == input_text(nodes, id);
            assert(nodes[source].kind != KindView::Input("__t"@ + decimal(id as nat)));
        }
    } else {
        if nodes[other].kind is Input {
            assert(nodes[other].kind != KindView::Input("__t"@ + decimal(source as nat)));
        } else {
            let head = "__t"@;
            assert((head + decimal(other as nat)).skip(head.len() as int) =~= decimal(other as nat));
            assert((head + decimal(source as nat)).skip(head.len() as int) =~= decimal(source as nat));
            decimal_injective(other as nat, source as nat);
        }
        assert(plan.crosses(nodes, source));
        assert(leaf.intermediates@.contains_key(name));
    }
}

/// Leaves that are wired to each other compute their cone: in every run, what goes out
/// at the port of a requested output is what the cone gives it for what its boundary
/// nets carry at that moment.
pub proof fn wired_leaves_compute_their_cone(
    cone: BuilderView,
    base: Seq<char>,
    plan: Plan,
    leaves: Seq<BuilderView>,
    leaf: PartitionedLeaf,
    elements: Map<Seq<char>, Seq<char>>,
    run: Run,
    v: spec_fn(int) -> bool,
    j: int,
    now: nat,
)
    requires
        builder_wf(cone),
        ports_are_free(cone.nodes),
        outputs_are_plain(cone.nodes, cone.outputs),
        is_partition(cone.nodes, cone.outputs, base, plan, leaves, leaf),
        is_fed(leaf, elements, run),
        consistent(cone.nodes, boundary_at(elements, run, now), v),
        0 <= j < cone.outputs.len(),
        !(cone.nodes[cone.outputs[j].1 as int].kind is Input),
    ensures
        leaf.output_sources@.contains_key(cone.outputs[j].0),
        run(
            now,
            EndpointView::InstancePort(
                leaf.output_sources@[cone.outputs[j].0].0@,
                leaf.output_sources@[cone.outputs[j].0].1@,
            ),
        ) == v(cone.outputs[j].1 as int),
{
    let nodes = cone.nodes;
    let outputs = cone.outputs;
    let name = outputs[j].0;
    let wanted = outputs[j].1 as int;
    assert(leaf.output_sources@.contains_key(name));
    let id = choose|id: int|
        {
            &&& 0 <= id < nodes.len()
            &&& !(nodes[id].kind is Input)
            &&& #[trigger] names_node(nodes, outputs, name, id)
            &&& leaf.output_sources@[name].0@ == instance_text(base, plan.chunk_of[id] as nat, plan.count() > 1)
        };
    assert(outputs[j].0 != "__t"@ + decimal(id as nat)) by {
        assert(!(nodes[id].kind is Input));
    }
    assert(name != input_text(nodes, id));
    let i = choose|i: int| 0 <= i < outputs.len() && #[trigger] outputs[i] == (name, id as usize);
    assert(outputs[i].1 == outputs[j].1);
    assert(id == wanted);
    requested_is_there(outputs, i);
    assert(is_wired(cone, base, plan, leaves, leaf, elements, run));
    let l = exposed_gate_shows(cone, base, plan, leaves, leaf, elements, run, id, name, now);
    gate_runs(cone, base, plan, leaves, leaf, elements, run, v, id, l, now);
}

} // verus!

//! What a partition means: every leaf computes what the cone computes.

use super::error::LowerError;
use super::leaf::finished_nodes;
use super::partition::{
    are_count_cuts, are_size_cuts, copies_piece, count_follows, exposed, exposes, input_text, is_bounded_partition,
    is_count_limited, is_counted, is_first_cut, is_first_large, is_first_over, is_found, is_halved, is_limited_cut,
    is_partition, is_piece, is_prepared, is_size_limited, leaves_fit, pieces_sized, plan_wf, size_follows, within,
    PartitionedLeaf, Plan, PARTITION_NODE_LIMIT,
};
use super::scalar::{builder_wf, is_cone_node, BuilderView};
use crate::graph::{consistent, node_holds, reads_backward, values_at, GraphNode, KindView, NodeView};
use crate::text::{decimal, decimal_injective};
use vstd::prelude::*;

verus! {

/// Whether no boundary input has a name that is kept for ports between leaves.
pub open spec fn ports_are_free(nodes: Seq<NodeView>) -> bool {
    forall|input: int, id: int|
        #![trigger nodes[input], nodes[id]]
        0 <= input < nodes.len() && 0 <= id < nodes.len() && nodes[input].kind is Input && !(nodes[id].kind is Input)
            ==> nodes[input].kind != KindView::Input("__t"@ + decimal(id as nat))
}

/// Whether a name is that of a port for gate `id`.
pub open spec fn is_port_of(nodes: Seq<NodeView>, name: Seq<char>, id: int) -> bool {
    0 <= id < nodes.len() && !(nodes[id].kind is Input) && name == "__t"@ + decimal(id as nat)
}

/// What a leaf sees at its input ports when the cone has the values `v`: the
/// gate's value at a port between leaves, else the boundary value.
pub open spec fn leaf_env(
    nodes: Seq<NodeView>,
    env: spec_fn(Seq<char>) -> bool,
    v: spec_fn(int) -> bool,
) -> spec_fn(Seq<char>) -> bool {
    |name: Seq<char>|
        if exists|id: int| is_port_of(nodes, name, id) {
            v(choose|id: int| is_port_of(nodes, name, id))
        } else {
            env(name)
        }
}

/// A port that carries a node shows the node's value.
proof fn port_value(
    nodes: Seq<NodeView>,
    env: spec_fn(Seq<char>) -> bool,
    v: spec_fn(int) -> bool,
    id: int,
)
    requires
        consistent(nodes, env, v),
        ports_are_free(nodes),
        0 <= id < nodes.len(),
    ensures
        leaf_env(nodes, env, v)(input_text(nodes, id)) == v(id),
{
    let name = input_text(nodes, id);
    match nodes[id].kind {
        KindView::Input(own) => {
            assert forall|other: int| !is_port_of(nodes, name, other) by {
                if is_port_of(nodes, name, other) {
                    assert(nodes[id].kind != KindView::Input("__t"@ + decimal(other as nat)));
                }
            }
            assert(node_holds(nodes[id], id, env, v));
        },
        _ => {
            assert(is_port_of(nodes, name, id));
            let other = choose|other: int| is_port_of(nodes, name, other);
            let head = "__t"@;
            assert((head + decimal(other as nat)).skip(head.len() as int) =~= decimal(other as nat));
            assert((head + decimal(id as nat)).skip(head.len() as int) =~= decimal(id as nat));
            decimal_injective(other as nat, id as nat);
        },
    }
}

/// A leaf computes what the cone computes: where the cone has the values `v`
/// and the leaf sees them at its input ports, there is a valuation of the
/// leaf's graph that agrees with all its gates and has the cone's value at
/// every output port.
pub proof fn leaf_computes_cone(
    nodes: Seq<NodeView>,
    outputs: Seq<(Seq<char>, usize)>,
    plan: Plan,
    k: int,
    leaf: BuilderView,
    origin: Seq<int>,
    env: spec_fn(Seq<char>) -> bool,
    v: spec_fn(int) -> bool,
) -> (w: spec_fn(int) -> bool)
    requires
        reads_backward(nodes),
        plan_wf(nodes, plan),
        ports_are_free(nodes),
        0 <= k < plan.count(),
        builder_wf(leaf),
        copies_piece(nodes, plan, plan.bounds[k], plan.bounds[k + 1], leaf.nodes, origin),
        exposes(leaf, origin, exposed(nodes, outputs, plan, plan.bounds[k], plan.bounds[k + 1])),
        consistent(nodes, env, v),
    ensures
        consistent(finished_nodes(leaf), leaf_env(nodes, env, v), w),
        forall|j: int|
            0 <= j < leaf.outputs.len() ==> w(leaf.nodes.len() + j) == v(
                (#[trigger] exposed(nodes, outputs, plan, plan.bounds[k], plan.bounds[k + 1])[j]).0 as int,
            ),
{
    let count = leaf.nodes.len() as int;
    let inside = leaf_env(nodes, env, v);
    let graph = finished_nodes(leaf);
    let ports = exposed(nodes, outputs, plan, plan.bounds[k], plan.bounds[k + 1]);
    let w = |l: int|
        if l < count {
            match leaf.nodes[l].kind {
                KindView::Input(name) => inside(name),
                _ => v(origin[l]),
            }
        } else {
            v(ports[l - count].0 as int)
        };
    let first = plan.bounds[k];
    let last = plan.bounds[k + 1];
    assert forall|l: int| 0 <= l < graph.len() implies node_holds(#[trigger] graph[l], l, inside, w) by {
        if l < count {
            assert(graph[l].kind == leaf.nodes[l].kind);
            assert(graph[l].inputs == leaf.nodes[l].inputs);
            assert(is_cone_node(leaf.nodes[l]));
            let id = origin[l];
            if leaf.nodes[l].kind is Logic {
                assert forall|pin: int| 0 <= pin < leaf.nodes[l].inputs.len() implies w(
                    (#[trigger] leaf.nodes[l].inputs[pin]) as int,
                ) == v(nodes[id].inputs[pin] as int) by {
                    let source = nodes[id].inputs[pin] as int;
                    assert(nodes[id].inputs[pin] < id);
                    if !within(nodes, plan, first, last, source) {
                        port_value(nodes, env, v, source);
                    }
                }
                assert(values_at(w, leaf.nodes[l].inputs) =~= values_at(v, nodes[id].inputs));
                assert(node_holds(nodes[id], id, env, v));
            } else if leaf.nodes[l].kind is Constant {
                assert(node_holds(nodes[id], id, env, v));
            }
        } else {
            let j = l - count;
            assert(leaf.outputs[j].1 < leaf.nodes.len());
            assert(graph[l].inputs[0] == leaf.outputs[j].1);
        }
    }
    w
}

/// Whether a cone fits one leaf: the budget does not cut it, and its leaf has few
/// enough nodes and is never found too large once prepared.
pub open spec fn fits_one_leaf<F: Fn(&Vec<GraphNode>) -> Result<usize, LowerError>>(
    builder: BuilderView,
    node_budget: usize,
    prepared_count: F,
) -> bool {
    &&& forall|plan: Plan| #[trigger] is_first_cut(builder.nodes, plan, node_budget) ==> plan.count() == 1
    &&& forall|plan: Plan, leaf: BuilderView|
        #![trigger is_first_cut(builder.nodes, plan, node_budget), is_piece(builder.nodes, builder.outputs, plan, 0, leaf)]
        is_first_cut(builder.nodes, plan, node_budget) && is_piece(builder.nodes, builder.outputs, plan, 0, leaf) ==> {
            &&& leaf.nodes.len() + leaf.outputs.len() <= PARTITION_NODE_LIMIT
            &&& !is_found(prepared_count, finished_nodes(leaf), false)
        }
}

/// A cone that fits one leaf is not split: it becomes one module, which has the
/// name of the cone.
pub proof fn small_cone_stays_one_leaf<F: Fn(&Vec<GraphNode>) -> Result<usize, LowerError>>(
    builder: BuilderView,
    base: Seq<char>,
    node_budget: usize,
    prepared_count: F,
    result: PartitionedLeaf,
)
    requires
        fits_one_leaf(builder, node_budget, prepared_count),
        is_bounded_partition(builder, base, node_budget, prepared_count, result),
    ensures
        result.modules.len() == 1,
        result.instances.len() == 1,
        result.instances[0].instance@ == base,
        result.modules[0]@.name == base,
{
    let nodes = builder.nodes;
    let outputs = builder.outputs;
    let (plan, leaves) = choose|plan: Plan, leaves: Seq<BuilderView>|
        {
            &&& #[trigger] is_partition(nodes, outputs, base, plan, leaves, result)
            &&& is_limited_cut(builder, node_budget, prepared_count, plan)
            &&& pieces_sized(plan, node_budget)
            &&& leaves_fit(prepared_count, plan, leaves)
        };
    let (first, second) = choose|first: Plan, second: Plan|
        {
            &&& #[trigger] is_first_cut(nodes, first, node_budget)
            &&& #[trigger] is_count_limited(nodes, outputs, first, second)
            &&& is_size_limited(nodes, outputs, prepared_count, second, plan)
        };
    let cuts = choose|plans: Seq<Plan>| #[trigger]
        are_count_cuts(nodes, outputs, plans) && plans[0] == first && plans.last() == second;
    if cuts.len() > 1 {
        assert(count_follows(nodes, outputs, cuts, 0));
        let k = choose|k: int| #[trigger] is_first_over(nodes, outputs, cuts[0], k) && is_halved(nodes, cuts[0], k, cuts[1]);
        assert(is_counted(nodes, outputs, first, 0, false));
        let leaf = choose|leaf: BuilderView| #[trigger]
            is_piece(nodes, outputs, first, 0, leaf) && !(leaf.nodes.len() + leaf.outputs.len() <= PARTITION_NODE_LIMIT);
        assert(is_piece(nodes, outputs, first, 0, leaf));
    }
    assert(second == first);
    let sizes = choose|plans: Seq<Plan>| #[trigger]
        are_size_cuts(nodes, outputs, prepared_count, plans) && plans[0] == second && plans.last() == plan;
    if sizes.len() > 1 {
        assert(size_follows(nodes, outputs, prepared_count, sizes, 0));
        let k = choose|k: int| #[trigger]
            is_first_large(nodes, outputs, prepared_count, sizes[0], k) && is_halved(nodes, sizes[0], k, sizes[1]);
        assert(is_prepared(nodes, outputs, prepared_count, first, 0, false));
        let leaf = choose|leaf: BuilderView| #[trigger]
            is_piece(nodes, outputs, first, 0, leaf) && is_found(prepared_count, finished_nodes(leaf), false);
        assert(is_piece(nodes, outputs, first, 0, leaf));
    }
    assert(plan == first);
    assert(is_piece(nodes, outputs, plan, 0, leaves[0]));
}

} // verus!

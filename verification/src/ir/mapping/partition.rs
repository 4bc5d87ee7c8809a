//! Splitting a combinational cone into leaves of bounded size.

use super::error::LowerError;
use super::leaf::{finished_nodes, leaf_module};
use super::scalar::{
    builder_wf, input_names_of, is_cone_node, output_views, BuilderView, LeafBuilder, LeafOutput,
};
use super::topology::{cone_order, is_cone_order, is_queue_order, lists_consumers, occurrences, occurrences_contains};
use crate::graph::{node_views, reads_backward, GraphNode, GraphNodeKind, KindView, NodeView};
use crate::ir::routable::RoutableModule;
use crate::text::{copy_texts, decimal, decimal_text, join2, join3, texts};
use vstd::hash_map::StringHashMap;
use vstd::hash_set::StringHashSet;
use vstd::prelude::*;

verus! {

/// Ceiling on the nodes of one leaf.
pub const PARTITION_NODE_LIMIT: usize = 40;

/// Ceiling on the nodes of one leaf once it is prepared for placement.
pub const PARTITION_PREPARED_NODE_BUDGET: usize = 40;

/// The port that carries a node between leaves: a boundary input keeps its
/// name, anything else is named after its number.
pub open spec fn input_text(nodes: Seq<NodeView>, id: int) -> Seq<char> {
    match nodes[id].kind {
        KindView::Input(name) => name,
        _ => "__t"@ + decimal(id as nat),
    }
}

/// The port that carries a node between leaves.
fn chunk_input_name(input: usize, nodes: &Vec<GraphNode>) -> (name: String)
    requires
        input < nodes.len(),
    ensures
        name@ == input_text(node_views(nodes@), input as int),
{
    match &nodes[input].kind {
        GraphNodeKind::Input(name) => name.clone(),
        _ => {
            let digits = decimal_text(input);
            join2("__t", digits.as_str())
        },
    }
}

/// The name of one leaf: that of the cone where it is the only one, else with
/// its number behind it.
pub open spec fn instance_text(base: Seq<char>, index: nat, multiple: bool) -> Seq<char> {
    if multiple {
        base + "_p"@ + decimal(index)
    } else {
        base
    }
}

fn chunk_instance_name(base: &str, index: usize, multiple_chunks: bool) -> (name: String)
    ensures
        name@ == instance_text(base@, index as nat, multiple_chunks),
{
    if multiple_chunks {
        let digits = decimal_text(index);
        join3(base, "_p", digits.as_str())
    } else {
        base.to_owned()
    }
}

/// The nodes and names of a list of outputs.
pub open spec fn port_pairs(ports: Seq<LeafOutput>) -> Seq<(usize, Seq<char>)> {
    ports.map_values(|port: LeafOutput| (port.node, port.name@))
}

/// How a cone is cut: its gates in order, the place of each in that order, and
/// the piece that each belongs to. Piece `k` is `order[bounds[k]..bounds[k + 1]]`.
pub struct Plan {
    pub order: Seq<usize>,
    pub place: Seq<usize>,
    pub bounds: Seq<int>,
    pub chunk_of: Seq<usize>,
}

impl Plan {
    /// The number of pieces.
    pub open spec fn count(self) -> int {
        self.bounds.len() - 1
    }

    /// The number of gates in piece `k`.
    pub open spec fn piece_len(self, k: int) -> int {
        self.bounds[k + 1] - self.bounds[k]
    }

    /// Whether node `id` belongs to piece `k`.
    pub open spec fn holds(self, nodes: Seq<NodeView>, k: int, id: int) -> bool {
        !(nodes[id].kind is Input) && self.bounds[k] <= self.place[id] < self.bounds[k + 1]
    }

    /// Whether another piece than its own reads gate `id`.
    pub open spec fn crosses(self, nodes: Seq<NodeView>, id: int) -> bool {
        exists|reader: int, pin: int|
            {
                &&& 0 <= reader < nodes.len()
                &&& 0 <= pin < nodes[reader].inputs.len()
                &&& #[trigger] nodes[reader].inputs[pin] == id
                &&& self.chunk_of[reader] != self.chunk_of[id]
            }
    }
}

/// Whether each number is below those behind it.
pub open spec fn increasing(bounds: Seq<int>) -> bool {
    forall|i: int, j: int| 0 <= i < j < bounds.len() ==> #[trigger] bounds[i] < #[trigger] bounds[j]
}

/// Whether a plan cuts the whole cone into non-empty pieces, each behind what
/// it reads.
pub open spec fn plan_wf(nodes: Seq<NodeView>, plan: Plan) -> bool {
    &&& is_cone_order(nodes, plan.order, plan.place)
    &&& plan.bounds.len() >= 1
    &&& plan.bounds[0] == 0
    &&& plan.bounds.last() == plan.order.len()
    &&& increasing(plan.bounds)
    &&& plan.chunk_of.len() == nodes.len()
    &&& forall|id: int|
        0 <= id < nodes.len() ==> if nodes[id].kind is Input {
            (#[trigger] plan.chunk_of[id]) == usize::MAX
        } else {
            plan.chunk_of[id] < plan.count() && plan.holds(nodes, plan.chunk_of[id] as int, id)
        }
}

/// The names under which a node is requested as an output, in order.
pub open spec fn requested(outputs: Seq<(Seq<char>, usize)>, id: usize) -> Seq<(usize, Seq<char>)>
    decreases outputs.len(),
{
    if outputs.len() == 0 {
        Seq::empty()
    } else {
        let before = requested(outputs.drop_last(), id);
        if outputs.last().1 == id {
            before.push((id, outputs.last().0))
        } else {
            before
        }
    }
}

/// What the gates from place `first` up to place `last` expose: requested
/// outputs, and a port of its own for each gate that another piece reads.
pub open spec fn exposed(
    nodes: Seq<NodeView>,
    outputs: Seq<(Seq<char>, usize)>,
    plan: Plan,
    first: int,
    last: int,
) -> Seq<(usize, Seq<char>)>
    decreases last - first,
{
    if last <= first {
        Seq::empty()
    } else {
        let id = plan.order[last - 1];
        exposed(nodes, outputs, plan, first, last - 1) + requested(outputs, id) + (if plan.crosses(nodes, id as int) {
            seq![(id, input_text(nodes, id as int))]
        } else {
            Seq::empty()
        })
    }
}

/// Whether a node can be an input of a piece: a boundary input, or a gate that
/// another piece reads.
pub open spec fn is_outer(nodes: Seq<NodeView>, plan: Plan, id: int) -> bool {
    nodes[id].kind is Input || plan.crosses(nodes, id)
}

/// `leaf` copies the gates of places `first` up to `last`. Each leaf node `l`
/// stands for node `origin[l]`: a gate of the piece with the same kind, or an
/// input port for something outside it. Every pin reads what the original pin
/// reads.
pub open spec fn copies_piece(
    nodes: Seq<NodeView>,
    plan: Plan,
    first: int,
    last: int,
    leaf: Seq<NodeView>,
    origin: Seq<int>,
) -> bool {
    &&& origin.len() == leaf.len()
    &&& forall|l: int|
        0 <= l < leaf.len() ==> {
            let id = #[trigger] origin[l];
            &&& 0 <= id < nodes.len()
            &&& match leaf[l].kind {
                KindView::Input(name) => name == input_text(nodes, id) && !within(nodes, plan, first, last, id)
                    && is_outer(nodes, plan, id),
                _ => {
                    &&& within(nodes, plan, first, last, id)
                    &&& leaf[l].kind == nodes[id].kind
                    &&& leaf[l].tag == nodes[id].tag
                    &&& leaf[l].inputs.len() == nodes[id].inputs.len()
                },
            }
        }
    &&& forall|l: int, pin: int|
        0 <= l < leaf.len() && 0 <= pin < leaf[l].inputs.len() ==> {
            let source = nodes[origin[l]].inputs[pin] as int;
            let local = (#[trigger] leaf[l].inputs[pin]) as int;
            &&& 0 <= local < l
            &&& if within(nodes, plan, first, last, source) {
                origin[local] == source && !(leaf[local].kind is Input)
            } else {
                leaf[local].kind == KindView::Input(input_text(nodes, source))
            }
        }
}

/// Whether `id` is a gate of places `first` up to `last`.
pub open spec fn within(nodes: Seq<NodeView>, plan: Plan, first: int, last: int, id: int) -> bool {
    !(nodes[id].kind is Input) && first <= plan.place[id] < last
}

/// The outputs of `leaf` are what the piece exposes.
pub open spec fn exposes(
    leaf: BuilderView,
    origin: Seq<int>,
    ports: Seq<(usize, Seq<char>)>,
) -> bool {
    &&& leaf.outputs.len() == ports.len()
    &&& forall|j: int|
        0 <= j < ports.len() ==> {
            &&& (#[trigger] leaf.outputs[j]).0 == ports[j].1
            &&& leaf.outputs[j].1 < leaf.nodes.len()
            &&& origin[leaf.outputs[j].1 as int] == ports[j].0
            &&& !(leaf.nodes[leaf.outputs[j].1 as int].kind is Input)
        }
}

/// `leaf` is piece `k` of a cut cone.
pub open spec fn is_piece(
    nodes: Seq<NodeView>,
    outputs: Seq<(Seq<char>, usize)>,
    plan: Plan,
    k: int,
    leaf: BuilderView,
) -> bool {
    &&& builder_wf(leaf)
    &&& exists|origin: Seq<int>|
        {
            &&& #[trigger] copies_piece(nodes, plan, plan.bounds[k], plan.bounds[k + 1], leaf.nodes, origin)
            &&& exposes(leaf, origin, exposed(nodes, outputs, plan, plan.bounds[k], plan.bounds[k + 1]))
        }
}

/// Every piece has at most `budget` gates, or one.
pub open spec fn pieces_sized(plan: Plan, budget: usize) -> bool {
    forall|k: int| 0 <= k < plan.count() ==> is_sized(#[trigger] plan.piece_len(k), budget)
}

// ---------------------------------------------------------------------------
// Where a cone is cut
// ---------------------------------------------------------------------------
/// Where pieces start so far, and the ports that the last of them was found to
/// need.
pub ghost struct Cutting {
    pub starts: Seq<int>,
    pub ports: Set<Seq<char>>,
}

/// The ports that the first `count` pins of a gate need, in a piece that starts
/// at a place.
pub open spec fn outer_names(
    nodes: Seq<NodeView>,
    place: Seq<usize>,
    start: int,
    inputs: Seq<usize>,
    count: nat,
) -> Seq<Seq<char>>
    decreases count,
{
    if count == 0 {
        Seq::empty()
    } else {
        let before = outer_names(nodes, place, start, inputs, (count - 1) as nat);
        let source = inputs[count - 1] as int;
        if nodes[source].kind is Input || place[source] < start {
            before.push(input_text(nodes, source))
        } else {
            before
        }
    }
}

/// How many of some names are not among the ports yet.
pub open spec fn fresh_names(names: Seq<Seq<char>>, ports: Set<Seq<char>>) -> nat
    decreases names.len(),
{
    if names.len() == 0 {
        0
    } else {
        fresh_names(names.drop_last(), ports) + if ports.contains(names.last()) {
            0nat
        } else {
            1
        }
    }
}

/// How the first `count` gates are cut: a gate opens a new piece where the last
/// one, with the ports that it would need, would grow beyond the budget.
pub open spec fn cutting(
    nodes: Seq<NodeView>,
    order: Seq<usize>,
    place: Seq<usize>,
    budget: usize,
    count: nat,
) -> Cutting
    decreases count,
{
    if count == 0 {
        Cutting { starts: Seq::empty(), ports: Set::empty() }
    } else {
        let before = cutting(nodes, order, place, budget, (count - 1) as nat);
        let here = count - 1;
        let start = if before.starts.len() > 0 {
            before.starts.last()
        } else {
            here
        };
        let inputs = nodes[order[here] as int].inputs;
        let names = outer_names(nodes, place, start, inputs, inputs.len());
        if before.starts.len() == 0 || (here - start) + before.ports.len() + fresh_names(names, before.ports) + 1
            > budget {
            Cutting { starts: before.starts.push(here), ports: names.to_set() }
        } else {
            Cutting { starts: before.starts, ports: before.ports.union(names.to_set()) }
        }
    }
}

/// Whether a cone is cut from first to last, in the order in which gates become
/// ready, each piece as large as the budget lets it be.
pub open spec fn is_first_cut(nodes: Seq<NodeView>, plan: Plan, budget: usize) -> bool {
    &&& plan_wf(nodes, plan)
    &&& is_queue_order(nodes, plan.order, plan.place)
    &&& plan.bounds == cutting(nodes, plan.order, plan.place, budget, plan.order.len()).starts.push(
        plan.order.len() as int,
    )
}

/// The bounds of pieces when piece `k` is cut in two halves.
pub open spec fn halved(bounds: Seq<int>, k: int) -> Seq<int> {
    bounds.insert(k + 1, bounds[k] + (bounds[k + 1] - bounds[k]) / 2)
}

/// Whether a plan is another with piece `k` cut in two halves.
pub open spec fn is_halved(nodes: Seq<NodeView>, before: Plan, k: int, after: Plan) -> bool {
    &&& plan_wf(nodes, after)
    &&& after.order == before.order
    &&& after.place == before.place
    &&& 0 <= k < before.count()
    &&& before.piece_len(k) >= 2
    &&& after.bounds == halved(before.bounds, k)
}

/// Whether the leaf of a piece has few enough nodes, or not.
pub open spec fn is_counted(
    nodes: Seq<NodeView>,
    outputs: Seq<(Seq<char>, usize)>,
    plan: Plan,
    k: int,
    fits: bool,
) -> bool {
    exists|leaf: BuilderView| #[trigger]
        is_piece(nodes, outputs, plan, k, leaf) && fits == (leaf.nodes.len() + leaf.outputs.len()
            <= PARTITION_NODE_LIMIT)
}

/// Whether the leaf of a piece was found small enough once prepared, or not.
pub open spec fn is_prepared<F: Fn(&Vec<GraphNode>) -> Result<usize, LowerError>>(
    nodes: Seq<NodeView>,
    outputs: Seq<(Seq<char>, usize)>,
    prepared_count: F,
    plan: Plan,
    k: int,
    fits: bool,
) -> bool {
    exists|leaf: BuilderView| #[trigger]
        is_piece(nodes, outputs, plan, k, leaf) && is_found(prepared_count, finished_nodes(leaf), fits)
}

/// Whether a leaf graph was found small enough once prepared for placement, or
/// not.
pub open spec fn is_found<F: Fn(&Vec<GraphNode>) -> Result<usize, LowerError>>(
    prepared_count: F,
    graph: Seq<NodeView>,
    fits: bool,
) -> bool {
    exists|nodes: Vec<GraphNode>, count: usize|
        {
            &&& node_views(nodes@) == graph
            &&& #[trigger] call_ensures(prepared_count, (&nodes,), Ok(count))
            &&& fits == (count <= PARTITION_PREPARED_NODE_BUDGET)
        }
}

/// Whether piece `k` is the first whose leaf has too many nodes.
pub open spec fn is_first_over(nodes: Seq<NodeView>, outputs: Seq<(Seq<char>, usize)>, plan: Plan, k: int) -> bool {
    &&& 0 <= k <= plan.count()
    &&& forall|j: int| 0 <= j < k ==> #[trigger] is_counted(nodes, outputs, plan, j, true)
    &&& k < plan.count() ==> is_counted(nodes, outputs, plan, k, false)
}

/// Whether piece `k` is the first whose leaf is too large once prepared.
pub open spec fn is_first_large<F: Fn(&Vec<GraphNode>) -> Result<usize, LowerError>>(
    nodes: Seq<NodeView>,
    outputs: Seq<(Seq<char>, usize)>,
    prepared_count: F,
    plan: Plan,
    k: int,
) -> bool {
    &&& 0 <= k <= plan.count()
    &&& forall|j: int| 0 <= j < k ==> #[trigger] is_prepared(nodes, outputs, prepared_count, plan, j, true)
    &&& k < plan.count() ==> is_prepared(nodes, outputs, prepared_count, plan, k, false)
}

/// Whether a plan follows by cutting the first piece whose leaf has too many
/// nodes.
pub open spec fn count_follows(
    nodes: Seq<NodeView>,
    outputs: Seq<(Seq<char>, usize)>,
    plans: Seq<Plan>,
    i: int,
) -> bool {
    exists|k: int| #[trigger]
        is_first_over(nodes, outputs, plans[i], k) && is_halved(nodes, plans[i], k, plans[i + 1])
}

/// Whether a plan follows by cutting the first piece whose leaf is too large once
/// prepared.
pub open spec fn size_follows<F: Fn(&Vec<GraphNode>) -> Result<usize, LowerError>>(
    nodes: Seq<NodeView>,
    outputs: Seq<(Seq<char>, usize)>,
    prepared_count: F,
    plans: Seq<Plan>,
    i: int,
) -> bool {
    exists|k: int| #[trigger]
        is_first_large(nodes, outputs, prepared_count, plans[i], k) && is_halved(nodes, plans[i], k, plans[i + 1])
}

/// Whether plans follow from each other by cutting pieces whose leaves have too
/// many nodes.
pub open spec fn are_count_cuts(
    nodes: Seq<NodeView>,
    outputs: Seq<(Seq<char>, usize)>,
    plans: Seq<Plan>,
) -> bool {
    &&& plans.len() > 0
    &&& forall|i: int| 0 <= i < plans.len() - 1 ==> #[trigger] count_follows(nodes, outputs, plans, i)
}

/// Whether plans follow from each other by cutting pieces whose leaves are too
/// large once prepared.
pub open spec fn are_size_cuts<F: Fn(&Vec<GraphNode>) -> Result<usize, LowerError>>(
    nodes: Seq<NodeView>,
    outputs: Seq<(Seq<char>, usize)>,
    prepared_count: F,
    plans: Seq<Plan>,
) -> bool {
    &&& plans.len() > 0
    &&& forall|i: int| 0 <= i < plans.len() - 1 ==> #[trigger] size_follows(nodes, outputs, prepared_count, plans, i)
}

/// Whether pieces are cut in halves, the first whose leaf has too many nodes
/// first, until there is none or it is a single gate.
pub open spec fn is_count_limited(
    nodes: Seq<NodeView>,
    outputs: Seq<(Seq<char>, usize)>,
    before: Plan,
    after: Plan,
) -> bool {
    &&& exists|plans: Seq<Plan>| #[trigger]
        are_count_cuts(nodes, outputs, plans) && plans[0] == before && plans.last() == after
    &&& exists|k: int| #[trigger]
        is_first_over(nodes, outputs, after, k) && (k < after.count() ==> after.piece_len(k) < 2)
}

/// Whether cuts of pieces whose leaves are too large once prepared lead from a
/// plan to another.
pub open spec fn leads_by_size<F: Fn(&Vec<GraphNode>) -> Result<usize, LowerError>>(
    nodes: Seq<NodeView>,
    outputs: Seq<(Seq<char>, usize)>,
    prepared_count: F,
    before: Plan,
    after: Plan,
) -> bool {
    exists|plans: Seq<Plan>| #[trigger]
        are_size_cuts(nodes, outputs, prepared_count, plans) && plans[0] == before && plans.last() == after
}

/// Whether pieces are cut in halves, the first whose leaf is too large once
/// prepared first, until there is none or it is a single gate.
pub open spec fn is_size_limited<F: Fn(&Vec<GraphNode>) -> Result<usize, LowerError>>(
    nodes: Seq<NodeView>,
    outputs: Seq<(Seq<char>, usize)>,
    prepared_count: F,
    before: Plan,
    after: Plan,
) -> bool {
    &&& leads_by_size(nodes, outputs, prepared_count, before, after)
    &&& exists|k: int| #[trigger]
        is_first_large(nodes, outputs, prepared_count, after, k) && (k < after.count() ==> after.piece_len(k) < 2)
}

/// Whether the leaf of piece `k`, behind leaves that are small enough, could not
/// be prepared.
pub open spec fn is_preparation_error<F: Fn(&Vec<GraphNode>) -> Result<usize, LowerError>>(
    nodes: Seq<NodeView>,
    outputs: Seq<(Seq<char>, usize)>,
    prepared_count: F,
    plan: Plan,
    k: int,
    error: LowerError,
) -> bool {
    &&& 0 <= k < plan.count()
    &&& forall|j: int| 0 <= j < k ==> #[trigger] is_prepared(nodes, outputs, prepared_count, plan, j, true)
    &&& exists|leaf: BuilderView| #[trigger]
        is_piece(nodes, outputs, plan, k, leaf) && is_refused_leaf(prepared_count, finished_nodes(leaf), error)
}

/// Whether a leaf graph could not be prepared for placement.
pub open spec fn is_refused_leaf<F: Fn(&Vec<GraphNode>) -> Result<usize, LowerError>>(
    prepared_count: F,
    graph: Seq<NodeView>,
    error: LowerError,
) -> bool {
    exists|nodes: Vec<GraphNode>| #[trigger]
        call_ensures(prepared_count, (&nodes,), Err(error)) && node_views(nodes@) == graph
}

/// Whether an error comes of a leaf, on the way to a partition, that could not be
/// prepared.
pub open spec fn is_partition_error<F: Fn(&Vec<GraphNode>) -> Result<usize, LowerError>>(
    builder: BuilderView,
    node_budget: usize,
    prepared_count: F,
    error: LowerError,
) -> bool {
    exists|first: Plan, second: Plan, last: Plan, k: int|
        {
            &&& #[trigger] is_first_cut(builder.nodes, first, node_budget)
            &&& #[trigger] is_count_limited(builder.nodes, builder.outputs, first, second)
            &&& #[trigger] leads_by_size(builder.nodes, builder.outputs, prepared_count, second, last)
            &&& #[trigger] is_preparation_error(builder.nodes, builder.outputs, prepared_count, last, k, error)
        }
}

/// A cone and the way it is cut.
struct Cone {
    nodes: Vec<GraphNode>,
    outputs: Vec<LeafOutput>,
    order: Vec<usize>,
    place: Vec<usize>,
    consumers: Vec<Vec<usize>>,
    starts: Vec<usize>,
    chunk_of: Vec<usize>,
}

impl Cone {
    spec fn views(&self) -> Seq<NodeView> {
        node_views(self.nodes@)
    }

    spec fn requests(&self) -> Seq<(Seq<char>, usize)> {
        output_views(self.outputs@)
    }

    spec fn plan(&self) -> Plan {
        Plan {
            order: self.order@,
            place: self.place@,
            bounds: bounds_of(self.starts@, self.order@.len() as int),
            chunk_of: self.chunk_of@,
        }
    }

    spec fn wf(&self) -> bool {
        &&& reads_backward(self.views())
        &&& forall|i: int| 0 <= i < self.views().len() ==> is_cone_node(#[trigger] self.views()[i])
        &&& lists_consumers(self.views(), self.consumers@)
        &&& forall|j: int| 0 <= j < self.requests().len() ==> (#[trigger] self.requests()[j]).1 < self.nodes.len()
        &&& plan_wf(self.views(), self.plan())
    }

    /// The same cone, perhaps cut elsewhere.
    spec fn same_cone(&self, other: &Cone) -> bool {
        &&& self.nodes@ == other.nodes@
        &&& self.outputs@ == other.outputs@
        &&& self.order@ == other.order@
        &&& self.place@ == other.place@
        &&& self.consumers@ == other.consumers@
    }

    /// Where piece `k` ends.
    fn end(&self, k: usize) -> (end: usize)
        requires
            self.wf(),
            k < self.starts.len(),
        ensures
            end == self.plan().bounds[k + 1],
            self.starts[k as int] == self.plan().bounds[k as int],
            self.starts[k as int] < end <= self.order.len(),
            self.plan().count() == self.starts.len(),
    {
        proof {
            let bounds = self.plan().bounds;
            assert(bounds[k as int] < bounds[k + 1]);
            assert(k + 1 < bounds.len() - 1 ==> bounds[k + 1] < bounds[bounds.len() - 1]);
        }
        if k + 1 < self.starts.len() {
            self.starts[k + 1]
        } else {
            self.order.len()
        }
    }
}

/// Starts of pieces followed by the end of the last.
spec fn bounds_of(starts: Seq<usize>, end: int) -> Seq<int> {
    Seq::new(starts.len() + 1, |k: int| if k < starts.len() { starts[k] as int } else { end })
}

/// The piece of each node.
fn assign_chunks(order: &Vec<usize>, place: &Vec<usize>, starts: &Vec<usize>, Ghost(nodes): Ghost<Seq<NodeView>>) -> (chunk_of: Vec<usize>)
    requires
        is_cone_order(nodes, order@, place@),
        starts.len() > 0 ==> starts[0] == 0,
        starts.len() == 0 ==> order.len() == 0,
        increasing(bounds_of(starts@, order@.len() as int)),
    ensures
        plan_wf(
            nodes,
            Plan {
                order: order@,
                place: place@,
                bounds: bounds_of(starts@, order@.len() as int),
                chunk_of: chunk_of@,
            },
        ),
{
    let ghost bounds = bounds_of(starts@, order@.len() as int);
    let mut chunk_of: Vec<usize> = Vec::new();
    for id in 0..place.len()
        invariant
            chunk_of.len() == id,
            forall|i: int| 0 <= i < id ==> (#[trigger] chunk_of[i]) == usize::MAX,
    {
        chunk_of.push(usize::MAX);
    }
    let mut current: usize = 0;
    for index in 0..order.len()
        invariant
            is_cone_order(nodes, order@, place@),
            bounds == bounds_of(starts@, order@.len() as int),
            starts.len() > 0 ==> starts[0] == 0,
            starts.len() == 0 ==> order.len() == 0,
            increasing(bounds),
            chunk_of.len() == place.len(),
            order.len() > 0 ==> current < starts.len() && bounds[current as int] <= index,
            order.len() == 0 ==> current == 0,
            forall|id: int|
                0 <= id < nodes.len() ==> if nodes[id].kind is Input || place[id] >= index {
                    (#[trigger] chunk_of[id]) == usize::MAX
                } else {
                    chunk_of[id] < starts.len() && bounds[chunk_of[id] as int] <= place[id] < bounds[chunk_of[id] + 1]
                },
    {
        while current + 1 < starts.len() && starts[current + 1] <= index
            invariant
                bounds == bounds_of(starts@, order@.len() as int),
                current < starts.len(),
                bounds[current as int] <= index,
            decreases starts.len() - current,
        {
            current += 1;
            assert(bounds[current as int] == starts[current as int]);
        }
        let id: usize = order[index];
        proof {
            assert(place[order@[index as int] as int] == index);
            if current + 1 < starts.len() {
                assert(bounds[current + 1] == starts[current + 1]);
            } else {
                assert(bounds[current + 1] == order@.len());
            }
        }
        let ghost before = chunk_of@;
        chunk_of[id] = current;
        proof {
            assert forall|other: int| 0 <= other < nodes.len() implies if nodes[other].kind is Input || place[other]
                >= index + 1 {
                (#[trigger] chunk_of@[other]) == usize::MAX
            } else {
                chunk_of@[other] < starts.len() && bounds[chunk_of@[other] as int] <= place[other] < bounds[chunk_of@[other]
                    + 1]
            } by {
                if other != id {
                    assert(chunk_of@[other] == before[other]);
                    if !(nodes[other].kind is Input) {
                        assert(order@[place@[other] as int] == other);
                    }
                }
            }
        }
    }
    proof {
        let plan = Plan { order: order@, place: place@, bounds, chunk_of: chunk_of@ };
        assert(plan.count() == starts.len());
        assert forall|id: int| 0 <= id < nodes.len() implies if nodes[id].kind is Input {
            (#[trigger] plan.chunk_of[id]) == usize::MAX
        } else {
            plan.chunk_of[id] < plan.count() && plan.holds(nodes, plan.chunk_of[id] as int, id)
        } by {
            if !(nodes[id].kind is Input) {
                assert(place@[id] < order@.len());
            }
        }
        if starts.len() > 0 {
            assert(bounds[0] == starts[0]);
        }
    }
    chunk_of
}

impl Cone {
    /// Cuts piece `k` in two halves.
    fn split_chunk(&mut self, k: usize)
        requires
            old(self).wf(),
            k < old(self).starts.len(),
            old(self).plan().bounds[k + 1] - old(self).plan().bounds[k as int] >= 2,
        ensures
            final(self).wf(),
            final(self).same_cone(old(self)),
            final(self).starts.len() == old(self).starts.len() + 1,
            is_halved(old(self).views(), old(self).plan(), k as int, final(self).plan()),
            forall|budget: usize| #[trigger] pieces_sized(old(self).plan(), budget) ==> pieces_sized(
                final(self).plan(),
                budget,
            ),
    {
        let end: usize = self.end(k);
        let start: usize = self.starts[k];
        let middle: usize = start + (end - start) / 2;
        let ghost before = self.plan().bounds;
        let ghost old_starts = self.starts@;
        self.starts.insert(k + 1, middle);
        let ghost after = bounds_of(self.starts@, self.order@.len() as int);
        proof {
            assert(self.starts@ == old_starts.insert(k + 1, middle));
            assert(after =~= before.insert(k + 1, middle as int));
            assert(after == halved(before, k as int));
            assert forall|i: int, j: int| 0 <= i < j < after.len() implies #[trigger] after[i] < #[trigger] after[j] by {
                let from = if i <= k { i } else { i - 1 };
                let to = if j <= k { j } else { j - 1 };
                assert(from < to ==> before[from] < before[to]);
                assert(i <= k ==> after[i] == before[i]);
                assert(j <= k ==> after[j] == before[j]);
                assert(i > k + 1 ==> after[i] == before[i - 1]);
                assert(j > k + 1 ==> after[j] == before[j - 1]);
                if j == k + 1 {
                    assert(i < k ==> before[i] < before[k as int]);
                } else if i == k + 1 {
                    assert(j > k + 2 ==> before[k + 1] < before[j - 1]);
                }
            }
            assert(self.starts[0] == 0) by {
                assert(before[0] == 0);
                assert(after[0] == self.starts[0]);
            }
        }
        self.chunk_of = assign_chunks(&self.order, &self.place, &self.starts, Ghost(self.views()));
        proof {
            assert(self.plan().bounds == after);
            assert(self.views() == old(self).views());
            assert(self.requests() == old(self).requests());
            assert(plan_wf(self.views(), self.plan()));
            assert forall|j: int| 0 <= j < self.requests().len() implies (#[trigger] self.requests()[j]).1
                < self.nodes.len() by {
                assert(old(self).requests()[j].1 < old(self).nodes.len());
            }
            assert forall|i: int| 0 <= i < self.views().len() implies is_cone_node(#[trigger] self.views()[i]) by {
                assert(is_cone_node(old(self).views()[i]));
            }
            assert forall|budget: usize| #[trigger] pieces_sized(old(self).plan(), budget) implies pieces_sized(
                self.plan(),
                budget,
            ) by {
                let plan = self.plan();
                let old_plan = old(self).plan();
                assert forall|i: int| 0 <= i < plan.count() implies is_sized(#[trigger] plan.piece_len(i), budget) by {
                    if i < k {
                        assert(is_sized(old_plan.piece_len(i), budget));
                    } else if i > k + 1 {
                        assert(is_sized(old_plan.piece_len(i - 1), budget));
                    } else {
                        assert(is_sized(old_plan.piece_len(k as int), budget));
                    }
                }
            }
        }
    }

    /// Whether another piece than its own reads gate `id`.
    fn consumed_elsewhere(&self, id: usize) -> (elsewhere: bool)
        requires
            self.wf(),
            id < self.nodes.len(),
        ensures
            elsewhere == self.plan().crosses(self.views(), id as int),
    {
        let readers = &self.consumers[id];
        let ghost views = self.views();
        for index in 0..readers.len()
            invariant
                self.wf(),
                id < self.nodes.len(),
                views == self.views(),
                readers@ == self.consumers[id as int]@,
                forall|i: int| 0 <= i < index ==> self.chunk_of[(#[trigger] readers[i]) as int] == self.chunk_of[id as int],
        {
            let reader: usize = readers[index];
            assert(self.consumers@[id as int][index as int] < self.nodes.len());
            if self.chunk_of[reader] != self.chunk_of[id] {
                proof {
                    occurrences_contains(readers@, reader);
                    assert(occurrences(self.consumers@[id as int]@, reader) == occurrences(
                        views[reader as int].inputs,
                        id,
                    ));
                    assert(readers@[index as int] == reader);
                    occurrences_contains(views[reader as int].inputs, id);
                    let pin = choose|pin: int| 0 <= pin < views[reader as int].inputs.len()
                        && views[reader as int].inputs[pin] == id;
                    assert(views[reader as int].inputs[pin] == id);
                }
                return true;
            }
        }
        proof {
            if self.plan().crosses(views, id as int) {
                let (reader, pin) = choose|reader: int, pin: int|
                    {
                        &&& 0 <= reader < views.len()
                        &&& 0 <= pin < views[reader].inputs.len()
                        &&& #[trigger] views[reader].inputs[pin] == id
                        &&& self.plan().chunk_of[reader] != self.plan().chunk_of[id as int]
                    };
                occurrences_contains(views[reader].inputs, id);
                assert(views[reader].inputs.contains(id));
                assert(occurrences(self.consumers@[id as int]@, reader as usize) == occurrences(
                    views[reader].inputs,
                    id,
                ));
                occurrences_contains(readers@, reader as usize);
                let i = choose|i: int| 0 <= i < readers@.len() && readers@[i] == reader as usize;
                assert(self.chunk_of[readers[i] as int] == self.chunk_of[id as int]);
            }
        }
        false
    }

    /// What piece `k` exposes.
    fn chunk_outputs(&self, k: usize) -> (ports: Vec<LeafOutput>)
        requires
            self.wf(),
            k < self.starts.len(),
        ensures
            port_pairs(ports@) == exposed(
                self.views(),
                self.requests(),
                self.plan(),
                self.plan().bounds[k as int],
                self.plan().bounds[k + 1],
            ),
    {
        let end: usize = self.end(k);
        let start: usize = self.starts[k];
        let ghost views = self.views();
        let ghost requests = self.requests();
        let mut ports: Vec<LeafOutput> = Vec::new();
        assert(port_pairs(ports@) =~= Seq::empty());
        for index in start..end
            invariant
                self.wf(),
                end <= self.order.len(),
                views == self.views(),
                requests == self.requests(),
                port_pairs(ports@) == exposed(
                    views,
                    requests,
                    self.plan(),
                    start as int,
                    index as int,
                ),
        {
            let id: usize = self.order[index];
            assert(self.plan().order[index as int] < views.len());
            let ghost ports_before = port_pairs(ports@);
            for request in 0..self.outputs.len()
                invariant
                    requests == self.requests(),
                    port_pairs(ports@) == ports_before + requested(
                        requests.take(request as int),
                        id,
                    ),
            {
                let output = &self.outputs[request];
                proof {
                    let longer = requests.take(request + 1);
                    assert(longer.drop_last() =~= requests.take(request as int));
                    assert(longer.last() == (output.name@, output.node));
                }
                if output.node == id {
                    let ghost shorter = port_pairs(ports@);
                    ports.push(LeafOutput { name: output.name.clone(), node: id });
                    assert(port_pairs(ports@) =~= shorter.push((id, output.name@)));
                    assert(port_pairs(ports@) =~= ports_before + requested(
                        requests.take(request + 1),
                        id,
                    ));
                }
            }
            assert(requests.take(requests.len() as int) =~= requests);
            if self.consumed_elsewhere(id) {
                let ghost shorter = port_pairs(ports@);
                ports.push(LeafOutput { name: chunk_input_name(id, &self.nodes), node: id });
                assert(port_pairs(ports@) =~= shorter.push((id, input_text(views, id as int))));
            }
            assert(port_pairs(ports@) =~= exposed(
                views,
                requests,
                self.plan(),
                start as int,
                index + 1,
            ));
        }
        ports
    }
}

proof fn requested_for(outputs: Seq<(Seq<char>, usize)>, id: usize)
    ensures
        forall|j: int| 0 <= j < requested(outputs, id).len() ==> (#[trigger] requested(outputs, id)[j]).0 == id,
    decreases outputs.len(),
{
    if outputs.len() > 0 {
        requested_for(outputs.drop_last(), id);
        let before = requested(outputs.drop_last(), id);
        assert forall|j: int| 0 <= j < requested(outputs, id).len() implies (#[trigger] requested(outputs, id)[j]).0
            == id by {
            if j < before.len() {
                assert(requested(outputs, id)[j] == before[j]);
            }
        }
    }
}

/// What a piece exposes are gates of the piece.
proof fn exposed_within(
    nodes: Seq<NodeView>,
    outputs: Seq<(Seq<char>, usize)>,
    plan: Plan,
    first: int,
    last: int,
)
    requires
        plan_wf(nodes, plan),
        0 <= first <= last <= plan.order.len(),
    ensures
        forall|j: int|
            0 <= j < exposed(nodes, outputs, plan, first, last).len() ==> {
                let id = (#[trigger] exposed(nodes, outputs, plan, first, last)[j]).0 as int;
                id < nodes.len() && within(nodes, plan, first, last, id)
            },
    decreases last - first,
{
    if first < last {
        exposed_within(nodes, outputs, plan, first, last - 1);
        let id = plan.order[last - 1];
        requested_for(outputs, id);
        let before = exposed(nodes, outputs, plan, first, last - 1);
        let own = requested(outputs, id);
        assert(plan.place[id as int] == last - 1);
        assert forall|j: int| 0 <= j < exposed(nodes, outputs, plan, first, last).len() implies {
            let id = (#[trigger] exposed(nodes, outputs, plan, first, last)[j]).0 as int;
            id < nodes.len() && within(nodes, plan, first, last, id)
        } by {
            let all = exposed(nodes, outputs, plan, first, last);
            if j < before.len() {
                assert(all[j] == before[j]);
            } else if j < before.len() + own.len() {
                assert(all[j] == own[j - before.len()]);
            } else {
                assert(all[j].0 == id);
            }
        }
    }
}

/// The state of copying a piece: which leaf node stands for each gate, and
/// that input ports are known by name.
spec fn copying(
    nodes: Seq<NodeView>,
    plan: Plan,
    first: int,
    next: int,
    last: int,
    leaf: BuilderView,
    origin: Seq<int>,
    local: Seq<Option<usize>>,
) -> bool {
    &&& copies_piece(nodes, plan, first, last, leaf.nodes, origin)
    &&& leaf.outputs.len() == 0
    &&& local.len() == nodes.len()
    &&& forall|id: int|
        0 <= id < nodes.len() ==> match #[trigger] local[id] {
            Some(l) => {
                &&& within(nodes, plan, first, next, id)
                &&& l < leaf.nodes.len()
                &&& origin[l as int] == id
                &&& !(leaf.nodes[l as int].kind is Input)
            },
            None => !within(nodes, plan, first, next, id),
        }
    &&& forall|name: Seq<char>|
        leaf.producers.contains_key(name) ==> {
            let l = #[trigger] leaf.producers[name];
            l < leaf.nodes.len() && leaf.nodes[l as int].kind == KindView::Input(name)
        }
}

/// Whether leaf node `l` carries node `source` for a reader in the piece.
spec fn carries(
    nodes: Seq<NodeView>,
    plan: Plan,
    first: int,
    last: int,
    leaf: Seq<NodeView>,
    origin: Seq<int>,
    l: int,
    source: int,
) -> bool {
    &&& 0 <= l < leaf.len()
    &&& if within(nodes, plan, first, last, source) {
        origin[l] == source && !(leaf[l].kind is Input)
    } else {
        leaf[l].kind == KindView::Input(input_text(nodes, source))
    }
}

impl Cone {
    /// The leaf of piece `k`.
    fn build_chunk(&self, k: usize) -> (leaf: LeafBuilder)
        requires
            self.wf(),
            k < self.starts.len(),
        ensures
            leaf.wf(),
            is_piece(self.views(), self.requests(), self.plan(), k as int, leaf@),
    {
        let end: usize = self.end(k);
        let start: usize = self.starts[k];
        let ghost nodes = self.views();
        let ghost plan = self.plan();
        let ghost first = start as int;
        let ghost last = end as int;
        let mut leaf = LeafBuilder::new();
        let ghost mut origin = Seq::<int>::empty();
        let mut local: Vec<Option<usize>> = Vec::new();
        for id in 0..self.nodes.len()
            invariant
                local.len() == id,
                forall|i: int| 0 <= i < id ==> (#[trigger] local[i]) is None,
        {
            local.push(None);
        }
        for index in start..end
            invariant
                self.wf(),
                start <= index <= end,
                end <= self.order.len(),
                nodes == self.views(),
                plan == self.plan(),
                k < plan.count(),
                plan.bounds[k as int] == first,
                first == start,
                last == end,
                leaf.wf(),
                copying(nodes, plan, first, index as int, last, leaf@, origin, local@),
        {
            let id: usize = self.order[index];
            proof {
                assert(plan.order[index as int] < nodes.len());
                assert(plan.place[id as int] == index);
                assert(is_cone_node(nodes[id as int]));
            }
            let node = &self.nodes[id];
            assert(nodes[id as int] == node@);
            let mut inputs: Vec<usize> = Vec::new();
            let pins: usize = node.inputs.len();
            for pin in 0..pins
                invariant
                    self.wf(),
                    start <= index < end,
                    end <= self.order.len(),
                    nodes == self.views(),
                    plan == self.plan(),
                    k < plan.count(),
                    plan.bounds[k as int] == first,
                    first == start,
                    last == end,
                    id == self.order[index as int],
                    id < nodes.len(),
                    nodes[id as int] == node@,
                    plan.place[id as int] == index,
                    pins == node.inputs.len(),
                    leaf.wf(),
                    copying(nodes, plan, first, index as int, last, leaf@, origin, local@),
                    inputs.len() == pin,
                    forall|p: int|
                        0 <= p < pin ==> carries(
                            nodes,
                            plan,
                            first,
                            last,
                            leaf@.nodes,
                            origin,
                            (#[trigger] inputs[p]) as int,
                            node.inputs[p] as int,
                        ),
            {
                let source: usize = node.inputs[pin];
                proof {
                    assert(nodes[id as int].inputs[pin as int] < id);
                    assert(nodes[plan.order[index as int] as int].inputs[pin as int] == source);
                    assert(nodes[source as int].kind is Input || plan.place[source as int] < index);
                }
                match local[source] {
                    Some(l) => {
                        inputs.push(l);
                    },
                    None => {
                        let name = chunk_input_name(source, &self.nodes);
                        let ghost before = leaf@;
                        let ghost origin_before = origin;
                        let l: usize = leaf.add_input(name.as_str());
                        proof {
                            if !before.producers.contains_key(name@) {
                                origin = origin.push(source as int);
                                assert(leaf@.nodes.len() == before.nodes.len() + 1);
                                assert(is_outer(nodes, plan, source as int)) by {
                                    if !(nodes[source as int].kind is Input) {
                                        let own = plan.chunk_of[id as int] as int;
                                        let other = plan.chunk_of[source as int] as int;
                                        assert(plan.holds(nodes, own, id as int));
                                        assert(plan.holds(nodes, other, source as int));
                                        assert(!within(nodes, plan, first, index as int, source as int));
                                        assert(plan.place[source as int] < first);
                                        assert(plan.bounds[k as int] == first);
                                        if own == other {
                                            assert(other < k) by {
                                                if other > k {
                                                    assert(plan.bounds[k as int] < plan.bounds[other]);
                                                }
                                            }
                                            if other + 1 < k {
                                                assert(plan.bounds[other + 1] < plan.bounds[k as int]);
                                            }
                                        }
                                        assert(nodes[id as int].inputs[pin as int] == source);
                                        assert(plan.crosses(nodes, source as int));
                                    }
                                }
                                assert(copies_piece(nodes, plan, first, last, leaf@.nodes, origin)) by {
                                    assert forall|m: int| 0 <= m < leaf@.nodes.len() implies {
                                        let id = #[trigger] origin[m];
                                        &&& 0 <= id < nodes.len()
                                        &&& match leaf@.nodes[m].kind {
                                            KindView::Input(name) => name == input_text(nodes, id) && !within(nodes, plan, first, last, id)
                    && is_outer(nodes, plan, id),
                                            _ => {
                                                &&& within(nodes, plan, first, last, id)
                                                &&& leaf@.nodes[m].kind == nodes[id].kind
                                                &&& leaf@.nodes[m].tag == nodes[id].tag
                                                &&& leaf@.nodes[m].inputs.len() == nodes[id].inputs.len()
                                            },
                                        }
                                    } by {
                                        if m < before.nodes.len() {
                                            assert(origin_before[m] == origin[m]);
                                            assert(leaf@.nodes[m] == before.nodes[m]);
                                        }
                                    }
                                    assert forall|m: int, pin: int|
                                        0 <= m < leaf@.nodes.len() && 0 <= pin < leaf@.nodes[m].inputs.len() implies {
                                        let source = nodes[origin[m]].inputs[pin] as int;
                                        let local = (#[trigger] leaf@.nodes[m].inputs[pin]) as int;
                                        &&& 0 <= local < m
                                        &&& if within(nodes, plan, first, last, source) {
                                            origin[local] == source && !(leaf@.nodes[local].kind is Input)
                                        } else {
                                            leaf@.nodes[local].kind == KindView::Input(input_text(nodes, source))
                                        }
                                    } by {
                                        assert(leaf@.nodes[m] == before.nodes[m]);
                                        assert(before.nodes[m].inputs[pin] < m);
                                    }
                                }
                                assert forall|other: int| 0 <= other < nodes.len() implies match #[trigger] local@[other] {
                                    Some(l) => {
                                        &&& within(nodes, plan, first, index as int, other)
                                        &&& l < leaf@.nodes.len()
                                        &&& origin[l as int] == other
                                        &&& !(leaf@.nodes[l as int].kind is Input)
                                    },
                                    None => !within(nodes, plan, first, index as int, other),
                                } by {
                                    if local@[other] is Some {
                                        let l = local@[other]->0;
                                        assert(leaf@.nodes[l as int] == before.nodes[l as int]);
                                    }
                                }
                                assert forall|p: int| 0 <= p < pin implies carries(
                                    nodes,
                                    plan,
                                    first,
                                    last,
                                    leaf@.nodes,
                                    origin,
                                    (#[trigger] inputs[p]) as int,
                                    node.inputs[p] as int,
                                ) by {
                                    assert(carries(
                                        nodes,
                                        plan,
                                        first,
                                        last,
                                        before.nodes,
                                        origin_before,
                                        inputs[p] as int,
                                        node.inputs[p] as int,
                                    ));
                                    assert(leaf@.nodes[inputs[p] as int] == before.nodes[inputs[p] as int]);
                                }
                                assert(copying(nodes, plan, first, index as int, last, leaf@, origin, local@));
                            }
                        }
                        inputs.push(l);
                    },
                }
            }
            let ghost before = leaf@;
            let ghost origin_before = origin;
            let ghost local_before = local@;
            let ghost input_view = inputs@;
            proof {
                assert forall|p: int| 0 <= p < inputs@.len() implies #[trigger] inputs@[p] < leaf@.nodes.len() by {
                    assert(carries(nodes, plan, first, last, leaf@.nodes, origin, inputs[p] as int, node.inputs[p] as int));
                }
            }
            let l: usize = match &node.kind {
                GraphNodeKind::Logic(logic) => leaf.add_logic(logic.logic_type, inputs, node.tag.as_str()),
                GraphNodeKind::Constant(value) => {
                    assert(input_view =~= Seq::<usize>::empty());
                    leaf.add_constant(*value, node.tag.as_str())
                },
                _ => {
                    proof {
                        assert(false);
                    }
                    0
                },
            };
            local[id] = Some(l);
            proof {
                origin = origin.push(id as int);
                let copy = leaf@.nodes[l as int];
                assert(leaf@.nodes == before.nodes.push(copy));
                assert(copy.inputs == input_view && copy.kind == node@.kind && copy.tag == node@.tag);
                assert(copies_piece(nodes, plan, first, last, leaf@.nodes, origin)) by {
                    assert forall|m: int| 0 <= m < leaf@.nodes.len() implies {
                        let id = #[trigger] origin[m];
                        &&& 0 <= id < nodes.len()
                        &&& match leaf@.nodes[m].kind {
                            KindView::Input(name) => name == input_text(nodes, id) && !within(nodes, plan, first, last, id)
                    && is_outer(nodes, plan, id),
                            _ => {
                                &&& within(nodes, plan, first, last, id)
                                &&& leaf@.nodes[m].kind == nodes[id].kind
                                &&& leaf@.nodes[m].tag == nodes[id].tag
                                &&& leaf@.nodes[m].inputs.len() == nodes[id].inputs.len()
                            },
                        }
                    } by {
                        if m < before.nodes.len() {
                            assert(origin_before[m] == origin[m]);
                            assert(leaf@.nodes[m] == before.nodes[m]);
                        }
                    }
                    assert forall|m: int, pin: int|
                        0 <= m < leaf@.nodes.len() && 0 <= pin < leaf@.nodes[m].inputs.len() implies {
                        let source = nodes[origin[m]].inputs[pin] as int;
                        let local = (#[trigger] leaf@.nodes[m].inputs[pin]) as int;
                        &&& 0 <= local < m
                        &&& if within(nodes, plan, first, last, source) {
                            origin[local] == source && !(leaf@.nodes[local].kind is Input)
                        } else {
                            leaf@.nodes[local].kind == KindView::Input(input_text(nodes, source))
                        }
                    } by {
                        if m < before.nodes.len() {
                            assert(leaf@.nodes[m] == before.nodes[m]);
                            assert(before.nodes[m].inputs[pin] < m);
                        } else {
                            assert(carries(
                                nodes,
                                plan,
                                first,
                                last,
                                before.nodes,
                                origin_before,
                                input_view[pin] as int,
                                node.inputs[pin] as int,
                            ));
                        }
                    }
                }
                assert forall|other: int| 0 <= other < nodes.len() implies match #[trigger] local@[other] {
                    Some(l) => {
                        &&& within(nodes, plan, first, index + 1, other)
                        &&& l < leaf@.nodes.len()
                        &&& origin[l as int] == other
                        &&& !(leaf@.nodes[l as int].kind is Input)
                    },
                    None => !within(nodes, plan, first, index + 1, other),
                } by {
                    if other != id {
                        assert(local@[other] == local_before[other]);
                        if local@[other] is Some {
                            let m = local@[other]->0;
                            assert(leaf@.nodes[m as int] == before.nodes[m as int]);
                        } else if within(nodes, plan, first, index + 1, other) {
                            assert(plan.order[plan.place[other] as int] == other);
                        }
                    }
                }
                assert forall|name: Seq<char>| leaf@.producers.contains_key(name) implies {
                    let l = #[trigger] leaf@.producers[name];
                    l < leaf@.nodes.len() && leaf@.nodes[l as int].kind == KindView::Input(name)
                } by {
                    let m = before.producers[name];
                    assert(leaf@.nodes[m as int] == before.nodes[m as int]);
                }
            }
        }
        let ports = self.chunk_outputs(k);
        let ghost expected = exposed(nodes, self.requests(), plan, first, last);
        proof {
            exposed_within(nodes, self.requests(), plan, first, last);
        }
        let ghost copied = leaf@.nodes;
        for index in 0..ports.len()
            invariant
                self.wf(),
                nodes == self.views(),
                plan == self.plan(),
                leaf.wf(),
                copied == leaf@.nodes,
                port_pairs(ports@) == expected,
                local.len() == nodes.len(),
                forall|j: int|
                    0 <= j < expected.len() ==> {
                        let id = (#[trigger] expected[j]).0 as int;
                        id < nodes.len() && within(nodes, plan, first, last, id)
                    },
                forall|id: int|
                    0 <= id < nodes.len() ==> match #[trigger] local[id] {
                        Some(l) => {
                            &&& l < copied.len()
                            &&& origin[l as int] == id
                            &&& !(copied[l as int].kind is Input)
                        },
                        None => !within(nodes, plan, first, last, id),
                    },
                leaf@.outputs.len() == index,
                forall|j: int|
                    0 <= j < index ==> {
                        &&& (#[trigger] leaf@.outputs[j]).0 == expected[j].1
                        &&& leaf@.outputs[j].1 < copied.len()
                        &&& origin[leaf@.outputs[j].1 as int] == expected[j].0
                        &&& !(copied[leaf@.outputs[j].1 as int].kind is Input)
                    },
        {
            let port = &ports[index];
            assert(expected[index as int] == (port.node, port.name@));
            match local[port.node] {
                Some(l) => {
                    leaf.add_output(port.name.as_str(), l);
                },
                None => {
                    proof {
                        assert(false);
                    }
                },
            }
        }
        proof {
            leaf.wf_gives();
            assert(port_pairs(ports@).len() == expected.len());
            assert(exposes(leaf@, origin, expected));
        }
        leaf
    }
}

/// Places the gates of a cone into pieces from first to last: a gate opens a
/// new piece where the current one, with the ports that it would need, would
/// grow beyond the budget.
fn cut_cone(builder: &LeafBuilder, node_budget: usize) -> (cone: Cone)
    requires
        builder.wf(),
    ensures
        cone.wf(),
        cone.views() == builder@.nodes,
        cone.requests() == builder@.outputs,
        pieces_sized(cone.plan(), node_budget),
        is_first_cut(builder@.nodes, cone.plan(), node_budget),
{
    proof {
        builder.wf_gives();
    }
    let (own, own_outputs) = builder.parts();
    let mut nodes: Vec<GraphNode> = Vec::new();
    for index in 0..own.len()
        invariant
            nodes.len() == index,
            forall|i: int| 0 <= i < index ==> (#[trigger] nodes[i])@ == own[i]@,
    {
        nodes.push(own[index].copy());
    }
    let mut outputs: Vec<LeafOutput> = Vec::new();
    for index in 0..own_outputs.len()
        invariant
            outputs.len() == index,
            forall|i: int|
                0 <= i < index ==> (#[trigger] outputs[i]).name@ == own_outputs[i].name@ && outputs[i].node
                    == own_outputs[i].node,
    {
        outputs.push(LeafOutput { name: own_outputs[index].name.clone(), node: own_outputs[index].node });
    }
    let ghost views = builder@.nodes;
    proof {
        assert(node_views(nodes@) =~= node_views(own@));
        assert(output_views(outputs@) =~= output_views(own_outputs@));
    }
    let (order, place, consumers) = cone_order(&nodes);
    let mut starts: Vec<usize> = Vec::new();
    let mut current_inputs = StringHashSet::new();
    for index in 0..order.len()
        invariant
            views == node_views(nodes@),
            reads_backward(views),
            is_cone_order(views, order@, place@),
            index == 0 <==> starts.len() == 0,
            starts.len() <= index,
            starts.len() > 0 ==> starts[0] == 0 && starts[starts.len() - 1] < index,
            forall|i: int, j: int| 0 <= i < j < starts.len() ==> #[trigger] starts[i] < #[trigger] starts[j],
            forall|k: int|
                #![trigger starts@[k]]
                0 <= k < starts.len() ==> is_sized(piece_size(starts@, index as int, k), node_budget),
            whole_numbers(starts@) == cutting(views, order@, place@, node_budget, index as nat).starts,
            current_inputs@ == cutting(views, order@, place@, node_budget, index as nat).ports,
    {
        let ghost cut = cutting(views, order@, place@, node_budget, index as nat);
        let id: usize = order[index];
        assert(order@[index as int] < views.len());
        let node = &nodes[id];
        assert(views[id as int] == node@);
        let start: usize = if starts.len() > 0 { starts[starts.len() - 1] } else { index };
        let mut external_names: Vec<String> = Vec::new();
        let mut new_inputs: usize = 0;
        let pins: usize = node.inputs.len();
        for pin in 0..pins
            invariant
                views == node_views(nodes@),
                reads_backward(views),
                is_cone_order(views, order@, place@),
                id < nodes.len(),
                views[id as int] == node@,
                pins == node.inputs.len(),
                new_inputs <= pin,
                texts(external_names@) == outer_names(
                    views,
                    place@,
                    start as int,
                    views[id as int].inputs,
                    pin as nat,
                ),
                new_inputs == fresh_names(texts(external_names@), current_inputs@),
        {
            let ghost names = texts(external_names@);
            let source: usize = node.inputs[pin];
            assert(views[id as int].inputs[pin as int] < id);
            let outside = nodes[source].kind.is_input() || place[source] < start;
            if outside {
                let name = chunk_input_name(source, &nodes);
                if !current_inputs.contains(name.as_str()) {
                    new_inputs += 1;
                }
                external_names.push(name);
                proof {
                    assert(texts(external_names@) =~= names.push(name@));
                    assert(names.push(name@).drop_last() =~= names);
                }
            }
        }
        let needs_new_chunk = starts.len() == 0 || (index - start) as u128 + current_inputs.len() as u128
            + new_inputs as u128 + 1 > node_budget as u128;
        let ghost starts_before = starts@;
        if needs_new_chunk {
            starts.push(index);
            current_inputs = StringHashSet::new();
        }
        proof {
            assert forall|k: int|
                #![trigger starts@[k]]
                0 <= k < starts.len() implies is_sized(piece_size(starts@, index + 1, k), node_budget) by {
                if k < starts_before.len() {
                    assert(starts_before[k] == starts@[k]);
                    assert(is_sized(piece_size(starts_before, index as int, k), node_budget));
                }
            }
        }
        let ghost ports = current_inputs@;
        let ghost names = texts(external_names@);
        assert(names.take(0).to_set() =~= Set::empty());
        assert(current_inputs@ =~= ports.union(names.take(0).to_set()));
        for added in 0..external_names.len()
            invariant
                names == texts(external_names@),
                current_inputs@ == ports.union(names.take(added as int).to_set()),
        {
            current_inputs.insert(external_names[added].clone());
            proof {
                let longer = names.take(added + 1);
                assert(longer =~= names.take(added as int).push(names[added as int]));
                assert forall|name: Seq<char>| #[trigger] ports.union(longer.to_set()).contains(name)
                    == current_inputs@.contains(name) by {
                    if longer.contains(name) {
                        let i = choose|i: int| 0 <= i < longer.len() && longer[i] == name;
                        if i < added {
                            assert(names.take(added as int)[i] == name);
                        }
                    }
                    if names.take(added as int).contains(name) {
                        let i = choose|i: int| 0 <= i < added && names.take(added as int)[i] == name;
                        assert(longer[i] == name);
                    }
                    assert(longer[added as int] == names[added as int]);
                }
                assert(current_inputs@ =~= ports.union(longer.to_set()));
            }
        }
        proof {
            assert(names.take(names.len() as int) =~= names);
            assert(whole_numbers(starts_before) == cut.starts);
            if starts_before.len() > 0 {
                assert(cut.starts.last() == start);
            }
            if needs_new_chunk {
                assert(current_inputs@ =~= names.to_set());
                assert(whole_numbers(starts@) =~= cut.starts.push(index as int));
            }
            let next = cutting(views, order@, place@, node_budget, (index + 1) as nat);
            assert(next.starts == whole_numbers(starts@));
            assert(next.ports == current_inputs@);
        }
    }
    let ghost bounds = bounds_of(starts@, order@.len() as int);
    proof {
        assert forall|i: int, j: int| 0 <= i < j < bounds.len() implies #[trigger] bounds[i] < #[trigger] bounds[j] by {
            if j == starts.len() {
                assert(i == starts.len() - 1 || starts[i] < starts[starts.len() - 1]);
            }
        }
    }
    let chunk_of = assign_chunks(&order, &place, &starts, Ghost(views));
    let cone = Cone { nodes, outputs, order, place, consumers, starts, chunk_of };
    proof {
        assert(cone.plan().bounds == bounds);
        assert(bounds =~= whole_numbers(cone.starts@).push(cone.order@.len() as int));
        assert forall|k: int| 0 <= k < cone.plan().count() implies is_sized(
            #[trigger] cone.plan().piece_len(k),
            node_budget,
        ) by {
            assert(starts@[k] == cone.starts@[k]);
            assert(piece_size(starts@, order@.len() as int, k) == cone.plan().piece_len(k));
        }
    }
    cone
}

/// Numbers as integers.
spec fn whole_numbers(numbers: Seq<usize>) -> Seq<int> {
    numbers.map_values(|number: usize| number as int)
}

/// Whether a piece has one gate or keeps to the budget.
pub open spec fn is_sized(size: int, budget: usize) -> bool {
    size <= 1 || size <= budget
}

/// The size of piece `k` when the pieces start at `starts` and the last ends
/// at `end`.
spec fn piece_size(starts: Seq<usize>, end: int, k: int) -> int {
    (if k + 1 < starts.len() { starts[k + 1] as int } else { end }) - starts[k]
}

/// One leaf of a partitioned cone.
pub struct LeafInstance {
    pub instance: String,
    pub inputs: Vec<String>,
}

/// The leaves and wiring of a partitioned cone.
pub struct PartitionedLeaf {
    pub modules: Vec<RoutableModule>,
    pub instances: Vec<LeafInstance>,
    /// Intermediate port name to producing instance.
    pub intermediates: StringHashMap<String>,
    /// Requested output port to the instance and port that drive it.
    pub output_sources: StringHashMap<(String, String)>,
    /// Requested output port to the boundary input that it repeats.
    pub direct_outputs: StringHashMap<String>,
}

/// Whether a leaf graph was found small enough once prepared for placement.
pub open spec fn prepared_fits<F: Fn(&Vec<GraphNode>) -> Result<usize, LowerError>>(
    prepared_count: F,
    graph: Seq<NodeView>,
) -> bool {
    exists|nodes: Vec<GraphNode>, count: usize|
        {
            &&& node_views(nodes@) == graph
            &&& #[trigger] call_ensures(prepared_count, (&nodes,), Ok(count))
            &&& count <= PARTITION_PREPARED_NODE_BUDGET
        }
}

/// Whether name `name` is one under which node `id` is visible outside its leaf.
pub open spec fn names_node(
    nodes: Seq<NodeView>,
    outputs: Seq<(Seq<char>, usize)>,
    name: Seq<char>,
    id: int,
) -> bool {
    name == input_text(nodes, id) || exists|j: int| 0 <= j < outputs.len() && #[trigger] outputs[j] == (name, id as usize)
}

/// What a partition of a cone is: one leaf for each piece of the plan, and the
/// maps that say where each port comes from.
pub open spec fn is_partition(
    nodes: Seq<NodeView>,
    outputs: Seq<(Seq<char>, usize)>,
    base: Seq<char>,
    plan: Plan,
    leaves: Seq<BuilderView>,
    result: PartitionedLeaf,
) -> bool {
    let multiple = plan.count() > 1;
    &&& plan_wf(nodes, plan)
    &&& leaves.len() == plan.count()
    &&& result.modules.len() == plan.count()
    &&& result.instances.len() == plan.count()
    &&& forall|k: int|
        0 <= k < plan.count() ==> {
            let name = instance_text(base, k as nat, multiple);
            &&& #[trigger] is_piece(nodes, outputs, plan, k, leaves[k])
            &&& result.modules[k]@ == leaf_module(name, finished_nodes(leaves[k]))
            &&& result.instances[k].instance@ == name
            &&& texts(result.instances[k].inputs@) == input_names_of(leaves[k].nodes)
        }
    &&& forall|name: Seq<char>| #[trigger]
        result.intermediates@.contains_key(name) <==> exists|id: int|
            0 <= id < nodes.len() && !(nodes[id].kind is Input) && #[trigger] plan.crosses(nodes, id) && name
                == input_text(nodes, id)
    &&& forall|id: int|
        0 <= id < nodes.len() && !(nodes[id].kind is Input) && #[trigger] plan.crosses(nodes, id)
            ==> result.intermediates@[input_text(nodes, id)]@ == instance_text(
            base,
            plan.chunk_of[id] as nat,
            multiple,
        )
    &&& forall|j: int|
        0 <= j < outputs.len() && !(nodes[outputs[j].1 as int].kind is Input) ==> result.output_sources@.contains_key(
            (#[trigger] outputs[j]).0,
        )
    &&& forall|name: Seq<char>| #[trigger]
        result.output_sources@.contains_key(name) ==> {
            &&& result.output_sources@[name].1@ == name
            &&& exists|id: int|
                {
                    &&& 0 <= id < nodes.len()
                    &&& !(nodes[id].kind is Input)
                    &&& #[trigger] names_node(nodes, outputs, name, id)
                    &&& result.output_sources@[name].0@ == instance_text(base, plan.chunk_of[id] as nat, multiple)
                }
        }
    &&& forall|j: int|
        0 <= j < outputs.len() && nodes[outputs[j].1 as int].kind is Input ==> result.direct_outputs@.contains_key(
            (#[trigger] outputs[j]).0,
        )
    &&& forall|name: Seq<char>| #[trigger]
        result.direct_outputs@.contains_key(name) ==> exists|j: int|
            {
                &&& 0 <= j < outputs.len()
                &&& (#[trigger] outputs[j]).0 == name
                &&& nodes[outputs[j].1 as int].kind == KindView::Input(result.direct_outputs@[name]@)
            }
}

/// Increasing bounds from zero on are at least their index.
proof fn bounds_at_least(bounds: Seq<int>, k: int)
    requires
        increasing(bounds),
        0 <= k < bounds.len(),
        bounds[0] == 0,
    ensures
        bounds[k] >= k,
    decreases k,
{
    if k > 0 {
        bounds_at_least(bounds, k - 1);
        assert(bounds[k - 1] < bounds[k]);
    }
}

/// What holds of the sizes of the leaves in the end: the first leaf that is too
/// large once prepared, if there is one, is a single gate.
pub open spec fn leaves_fit<F: Fn(&Vec<GraphNode>) -> Result<usize, LowerError>>(
    prepared_count: F,
    plan: Plan,
    leaves: Seq<BuilderView>,
) -> bool {
    exists|stop: int|
        {
            &&& 0 <= stop <= plan.count()
            &&& stop < plan.count() ==> #[trigger] plan.piece_len(stop) == 1
            &&& forall|k: int| 0 <= k < stop ==> prepared_fits(prepared_count, finished_nodes(#[trigger] leaves[k]))
        }
}

impl Cone {
    /// The leaves of all pieces.
    fn build_chunks(&self) -> (leaves: Vec<LeafBuilder>)
        requires
            self.wf(),
        ensures
            leaves.len() == self.starts.len(),
            forall|k: int|
                0 <= k < leaves.len() ==> (#[trigger] leaves[k]).wf() && is_piece(
                    self.views(),
                    self.requests(),
                    self.plan(),
                    k,
                    leaves[k]@,
                ),
    {
        let mut leaves: Vec<LeafBuilder> = Vec::new();
        for k in 0..self.starts.len()
            invariant
                self.wf(),
                leaves.len() == k,
                forall|i: int|
                    0 <= i < leaves.len() ==> (#[trigger] leaves[i]).wf() && is_piece(
                        self.views(),
                        self.requests(),
                        self.plan(),
                        i,
                        leaves[i]@,
                    ),
        {
            leaves.push(self.build_chunk(k));
        }
        leaves
    }

    /// Cuts pieces in two until each leaf has few enough nodes.
    fn limit_nodes(&mut self)
        requires
            old(self).wf(),
        ensures
            final(self).wf(),
            final(self).same_cone(old(self)),
            is_count_limited(old(self).views(), old(self).requests(), old(self).plan(), final(self).plan()),
            forall|budget: usize| #[trigger] pieces_sized(old(self).plan(), budget) ==> pieces_sized(
                final(self).plan(),
                budget,
            ),
    {
        let ghost views = self.views();
        let ghost requests = self.requests();
        let ghost mut plans = seq![self.plan()];
        loop
            invariant
                self.wf(),
                self.same_cone(old(self)),
                views == old(self).views(),
                requests == old(self).requests(),
                self.views() == views,
                self.requests() == requests,
                are_count_cuts(views, requests, plans),
                plans[0] == old(self).plan(),
                plans.last() == self.plan(),
                forall|budget: usize| #[trigger] pieces_sized(old(self).plan(), budget) ==> pieces_sized(
                    self.plan(),
                    budget,
                ),
            decreases self.order.len() - self.starts.len(),
        {
            let ghost plan = self.plan();
            let leaves = self.build_chunks();
            let mut oversized: usize = 0;
            while oversized < leaves.len() && leaves[oversized].node_count() <= PARTITION_NODE_LIMIT
                invariant
                    oversized <= leaves.len(),
                    forall|k: int|
                        0 <= k < leaves.len() ==> (#[trigger] leaves[k]).wf() && is_piece(
                            views,
                            requests,
                            plan,
                            k,
                            leaves[k]@,
                        ),
                    forall|j: int| 0 <= j < oversized ==> #[trigger] is_counted(views, requests, plan, j, true),
                decreases leaves.len() - oversized,
            {
                proof {
                    assert(is_piece(views, requests, plan, oversized as int, leaves[oversized as int]@));
                    assert(is_counted(views, requests, plan, oversized as int, true));
                }
                oversized += 1;
            }
            assert(plan.count() == leaves.len());
            if oversized == leaves.len() {
                assert(is_first_over(views, requests, plan, oversized as int));
                return;
            }
            let end: usize = self.end(oversized);
            proof {
                assert(leaves[oversized as int].wf());
                assert(is_piece(views, requests, plan, oversized as int, leaves[oversized as int]@));
                assert(is_counted(views, requests, plan, oversized as int, false));
                assert(is_first_over(views, requests, plan, oversized as int));
            }
            if end - self.starts[oversized] < 2 {
                assert(plan.piece_len(oversized as int) < 2);
                return;
            }
            proof {
                bounds_at_least(self.plan().bounds, self.plan().count());
            }
            self.split_chunk(oversized);
            proof {
                bounds_at_least(self.plan().bounds, self.plan().count());
                let more = plans.push(self.plan());
                assert forall|i: int| 0 <= i < more.len() - 1 implies #[trigger] count_follows(
                    views,
                    requests,
                    more,
                    i,
                ) by {
                    if i < plans.len() - 1 {
                        assert(count_follows(views, requests, plans, i));
                        assert(more[i] == plans[i] && more[i + 1] == plans[i + 1]);
                    } else {
                        assert(more[i] == plan && more[i + 1] == self.plan());
                        assert(is_first_over(views, requests, more[i], oversized as int));
                    }
                }
                plans = more;
            }
        }
    }

    /// Cuts pieces in two until each leaf is small enough for the placer.
    fn limit_prepared<F: Fn(&Vec<GraphNode>) -> Result<usize, LowerError>>(&mut self, prepared_count: &F) -> (result: Result<
        Vec<LeafBuilder>,
        LowerError,
    >)
        requires
            old(self).wf(),
            forall|nodes: Vec<GraphNode>| #[trigger] call_requires(*prepared_count, (&nodes,)),
        ensures
            final(self).wf(),
            final(self).same_cone(old(self)),
            forall|budget: usize| #[trigger] pieces_sized(old(self).plan(), budget) ==> pieces_sized(
                final(self).plan(),
                budget,
            ),
            match result {
                Ok(leaves) => {
                    &&& leaves.len() == final(self).starts.len()
                    &&& forall|k: int|
                        0 <= k < leaves.len() ==> (#[trigger] leaves[k]).wf() && is_piece(
                            final(self).views(),
                            final(self).requests(),
                            final(self).plan(),
                            k,
                            leaves[k]@,
                        )
                    &&& leaves_fit(*prepared_count, final(self).plan(), builder_views(leaves@))
                    &&& is_size_limited(
                        old(self).views(),
                        old(self).requests(),
                        *prepared_count,
                        old(self).plan(),
                        final(self).plan(),
                    )
                },
                Err(error) => {
                    &&& leads_by_size(
                        old(self).views(),
                        old(self).requests(),
                        *prepared_count,
                        old(self).plan(),
                        final(self).plan(),
                    )
                    &&& exists|k: int| #[trigger]
                        is_preparation_error(
                            old(self).views(),
                            old(self).requests(),
                            *prepared_count,
                            final(self).plan(),
                            k,
                            error,
                        )
                },
            },
    {
        let ghost nodes = self.views();
        let ghost requests = self.requests();
        let ghost mut plans = seq![self.plan()];
        loop
            invariant
                self.wf(),
                self.same_cone(old(self)),
                nodes == old(self).views(),
                requests == old(self).requests(),
                self.views() == nodes,
                self.requests() == requests,
                are_size_cuts(nodes, requests, *prepared_count, plans),
                plans[0] == old(self).plan(),
                plans.last() == self.plan(),
                forall|nodes: Vec<GraphNode>| #[trigger] call_requires(*prepared_count, (&nodes,)),
                forall|budget: usize| #[trigger] pieces_sized(old(self).plan(), budget) ==> pieces_sized(
                    self.plan(),
                    budget,
                ),
            decreases self.order.len() - self.starts.len(),
        {
            let leaves = self.build_chunks();
            let ghost views = builder_views(leaves@);
            let ghost plan = self.plan();
            assert(leads_by_size(nodes, requests, *prepared_count, old(self).plan(), plan));
            assert(plan.count() == leaves.len());
            let mut checked: usize = 0;
            let mut too_large = false;
            while checked < leaves.len() && !too_large
                invariant
                    checked <= leaves.len(),
                    views == builder_views(leaves@),
                    plan == self.plan(),
                    plan.count() == leaves.len(),
                    nodes == old(self).views(),
                    requests == old(self).requests(),
                    leads_by_size(nodes, requests, *prepared_count, old(self).plan(), plan),
                    forall|k: int|
                        0 <= k < leaves.len() ==> (#[trigger] leaves[k]).wf() && is_piece(
                            nodes,
                            requests,
                            plan,
                            k,
                            leaves[k]@,
                        ),
                    forall|j: int|
                        0 <= j < checked ==> #[trigger] is_prepared(nodes, requests, *prepared_count, plan, j, true),
                    too_large ==> checked < leaves.len(),
                    too_large ==> is_prepared(nodes, requests, *prepared_count, plan, checked as int, false),
                    self.wf(),
                    self.same_cone(old(self)),
                    forall|budget: usize| #[trigger] pieces_sized(old(self).plan(), budget) ==> pieces_sized(
                        self.plan(),
                        budget,
                    ),
                    forall|nodes: Vec<GraphNode>| #[trigger] call_requires(*prepared_count, (&nodes,)),
                    forall|k: int| 0 <= k < checked ==> prepared_fits(*prepared_count, finished_nodes(#[trigger] views[k])),
                decreases leaves.len() - checked, if too_large { 0int } else { 1int },
            {
                let ghost leaf = leaves[checked as int]@;
                assert(leaves[checked as int].wf());
                assert(is_piece(nodes, requests, plan, checked as int, leaf));
                let graph = leaves[checked].to_graph();
                match prepared_count(&graph) {
                    Err(error) => {
                        proof {
                            assert(call_ensures(*prepared_count, (&graph,), Err(error)));
                            assert(is_refused_leaf(*prepared_count, finished_nodes(leaf), error));
                            assert(is_preparation_error(
                                nodes,
                                requests,
                                *prepared_count,
                                plan,
                                checked as int,
                                error,
                            ));
                        }
                        return Err(error);
                    },
                    Ok(count) => {
                        proof {
                            assert(call_ensures(*prepared_count, (&graph,), Ok(count)));
                            let fits = count <= PARTITION_PREPARED_NODE_BUDGET;
                            assert(is_found(*prepared_count, finished_nodes(leaf), fits));
                            assert(is_prepared(nodes, requests, *prepared_count, plan, checked as int, fits));
                        }
                        if count > PARTITION_PREPARED_NODE_BUDGET {
                            too_large = true;
                        } else {
                            proof {
                                assert(views[checked as int] == leaves[checked as int]@);
                                assert(call_ensures(*prepared_count, (&graph,), Ok(count)));
                                assert(prepared_fits(*prepared_count, finished_nodes(views[checked as int])));
                            }
                            checked += 1;
                        }
                    },
                }
            }
            if !too_large {
                proof {
                    let stop = self.plan().count();
                    let _ = self.plan().piece_len(stop);
                    assert(is_first_large(nodes, requests, *prepared_count, plan, checked as int));
                    assert(leaves_fit(*prepared_count, self.plan(), views));
                }
                return Ok(leaves);
            }
            let end: usize = self.end(checked);
            assert(is_first_large(nodes, requests, *prepared_count, plan, checked as int));
            if end - self.starts[checked] < 2 {
                proof {
                    assert(self.plan().piece_len(checked as int) == 1);
                    assert(leaves_fit(*prepared_count, self.plan(), views));
                }
                return Ok(leaves);
            }
            proof {
                bounds_at_least(self.plan().bounds, self.plan().count());
            }
            self.split_chunk(checked);
            proof {
                bounds_at_least(self.plan().bounds, self.plan().count());
                let more = plans.push(self.plan());
                assert forall|i: int| 0 <= i < more.len() - 1 implies #[trigger] size_follows(
                    nodes,
                    requests,
                    *prepared_count,
                    more,
                    i,
                ) by {
                    if i < plans.len() - 1 {
                        assert(size_follows(nodes, requests, *prepared_count, plans, i));
                        assert(more[i] == plans[i] && more[i + 1] == plans[i + 1]);
                    } else {
                        assert(more[i] == plan && more[i + 1] == self.plan());
                        assert(is_first_large(nodes, requests, *prepared_count, more[i], checked as int));
                    }
                }
                plans = more;
            }
        }
    }
}

/// The contents of a list of builders.
pub open spec fn builder_views(leaves: Seq<LeafBuilder>) -> Seq<BuilderView> {
    leaves.map_values(|leaf: LeafBuilder| leaf@)
}

impl Cone {
    /// Intermediate ports and the instances that produce them.
    fn intermediates(&self, base: &str) -> (intermediates: StringHashMap<String>)
        requires
            self.wf(),
        ensures
            forall|name: Seq<char>| #[trigger]
                intermediates@.contains_key(name) <==> exists|id: int|
                    0 <= id < self.views().len() && !(self.views()[id].kind is Input) && #[trigger] self.plan().crosses(
                        self.views(),
                        id,
                    ) && name == input_text(self.views(), id),
            forall|id: int|
                0 <= id < self.views().len() && !(self.views()[id].kind is Input) && #[trigger] self.plan().crosses(
                    self.views(),
                    id,
                ) ==> intermediates@[input_text(self.views(), id)]@ == instance_text(
                    base@,
                    self.plan().chunk_of[id] as nat,
                    self.plan().count() > 1,
                ),
    {
        let mut intermediates: StringHashMap<String> = StringHashMap::new();
        let multiple_chunks = self.starts.len() > 1;
        let ghost nodes = self.views();
        let ghost plan = self.plan();
        for id in 0..self.nodes.len()
            invariant
                self.wf(),
                nodes == self.views(),
                plan == self.plan(),
                multiple_chunks == (plan.count() > 1),
                forall|name: Seq<char>| #[trigger]
                    intermediates@.contains_key(name) <==> exists|other: int|
                        0 <= other < id && !(nodes[other].kind is Input) && #[trigger] plan.crosses(nodes, other)
                            && name == input_text(nodes, other),
                forall|other: int|
                    0 <= other < id && !(nodes[other].kind is Input) && #[trigger] plan.crosses(nodes, other)
                        ==> intermediates@[input_text(nodes, other)]@ == instance_text(
                        base@,
                        plan.chunk_of[other] as nat,
                        multiple_chunks,
                    ),
        {
            assert(nodes[id as int] == self.nodes[id as int]@);
            let ghost before = intermediates@;
            if !self.nodes[id].kind.is_input() {
                if self.consumed_elsewhere(id) {
                    let name = chunk_input_name(id, &self.nodes);
                    let producer = chunk_instance_name(base, self.chunk_of[id], multiple_chunks);
                    intermediates.insert(name, producer);
                    proof {
                        assert forall|other: int| 0 <= other < id && !(nodes[other].kind is Input) implies input_text(
                            nodes,
                            other,
                        ) != input_text(nodes, id as int) by {
                            port_numbers_differ(other as nat, id as nat);
                        }
                        assert forall|name: Seq<char>| #[trigger]
                            intermediates@.contains_key(name) <==> exists|other: int|
                                0 <= other < id + 1 && !(nodes[other].kind is Input) && #[trigger] plan.crosses(nodes, other)
                                    && name == input_text(nodes, other) by {
                            if before.contains_key(name) {
                                let other = choose|other: int|
                                    0 <= other < id && !(nodes[other].kind is Input) && #[trigger] plan.crosses(nodes, other)
                                        && name == input_text(nodes, other);
                                assert(plan.crosses(nodes, other));
                            } else if name == input_text(nodes, id as int) {
                                assert(plan.crosses(nodes, id as int));
                            }
                        }
                    }
                }
            }
        }
        intermediates
    }
}

/// Ports named after different numbers have different names.
proof fn port_numbers_differ(left: nat, right: nat)
    requires
        left != right,
    ensures
        "__t"@ + decimal(left) != "__t"@ + decimal(right),
{
    let head = "__t"@;
    if head + decimal(left) == head + decimal(right) {
        assert((head + decimal(left)).skip(head.len() as int) =~= decimal(left));
        assert((head + decimal(right)).skip(head.len() as int) =~= decimal(right));
        crate::text::decimal_injective(left, right);
    }
}

/// A requested output is among the requests for its node.
proof fn requested_contains(outputs: Seq<(Seq<char>, usize)>, j: int)
    requires
        0 <= j < outputs.len(),
    ensures
        requested(outputs, outputs[j].1).contains((outputs[j].1, outputs[j].0)),
    decreases outputs.len(),
{
    let id = outputs[j].1;
    let shorter = outputs.drop_last();
    let before = requested(shorter, id);
    if j == outputs.len() - 1 {
        assert(requested(outputs, id).last() == (id, outputs[j].0));
    } else {
        requested_contains(shorter, j);
        let place = choose|i: int| 0 <= i < before.len() && before[i] == (id, outputs[j].0);
        assert(requested(outputs, id)[place] == (id, outputs[j].0));
    }
}

/// What is requested for a node comes from a requested output.
proof fn requested_from(outputs: Seq<(Seq<char>, usize)>, id: usize, i: int)
    requires
        0 <= i < requested(outputs, id).len(),
    ensures
        exists|j: int| 0 <= j < outputs.len() && #[trigger] outputs[j] == (requested(outputs, id)[i].1, id),
    decreases outputs.len(),
{
    if outputs.len() > 0 {
        let shorter = outputs.drop_last();
        let before = requested(shorter, id);
        if i < before.len() {
            requested_from(shorter, id, i);
            let j = choose|j: int| 0 <= j < shorter.len() && #[trigger] shorter[j] == (before[i].1, id);
            assert(outputs[j] == shorter[j]);
        } else {
            assert(outputs[outputs.len() - 1] == outputs.last());
        }
    }
}

/// What a piece exposes are its gates under their visible names, and every
/// request for one of its gates is among it.
proof fn exposed_names(
    nodes: Seq<NodeView>,
    outputs: Seq<(Seq<char>, usize)>,
    plan: Plan,
    first: int,
    last: int,
)
    requires
        plan_wf(nodes, plan),
        0 <= first <= last <= plan.order.len(),
    ensures
        forall|j: int|
            0 <= j < exposed(nodes, outputs, plan, first, last).len() ==> {
                let port = #[trigger] exposed(nodes, outputs, plan, first, last)[j];
                names_node(nodes, outputs, port.1, port.0 as int)
            },
        forall|j: int|
            0 <= j < outputs.len() && outputs[j].1 < nodes.len() && within(nodes, plan, first, last, outputs[j].1 as int)
                ==> exposed(nodes, outputs, plan, first, last).contains(((#[trigger] outputs[j]).1, outputs[j].0)),
    decreases last - first,
{
    if first < last {
        exposed_names(nodes, outputs, plan, first, last - 1);
        let id = plan.order[last - 1];
        let before = exposed(nodes, outputs, plan, first, last - 1);
        let own = requested(outputs, id);
        let all = exposed(nodes, outputs, plan, first, last);
        requested_for(outputs, id);
        assert forall|j: int| 0 <= j < all.len() implies {
            let port = #[trigger] exposed(nodes, outputs, plan, first, last)[j];
            names_node(nodes, outputs, port.1, port.0 as int)
        } by {
            if j < before.len() {
                assert(all[j] == before[j]);
            } else if j < before.len() + own.len() {
                assert(all[j] == own[j - before.len()]);
                requested_from(outputs, id, j - before.len());
            }
        }
        assert forall|j: int|
            0 <= j < outputs.len() && outputs[j].1 < nodes.len() && within(nodes, plan, first, last, outputs[j].1 as int)
            implies all.contains(((#[trigger] outputs[j]).1, outputs[j].0)) by {
            let pair = (outputs[j].1, outputs[j].0);
            if plan.place[outputs[j].1 as int] < last - 1 {
                assert(before.contains(pair));
                let i = choose|i: int| 0 <= i < before.len() && before[i] == pair;
                assert(all[i] == pair);
            } else {
                assert(plan.order[plan.place[outputs[j].1 as int] as int] == outputs[j].1);
                requested_contains(outputs, j);
                let i = choose|i: int| 0 <= i < own.len() && own[i] == pair;
                assert(all[before.len() + i] == pair);
            }
        }
    } else {
        assert forall|j: int|
            0 <= j < outputs.len() && outputs[j].1 < nodes.len() && within(nodes, plan, first, last, outputs[j].1 as int)
            implies exposed(nodes, outputs, plan, first, last).contains(((#[trigger] outputs[j]).1, outputs[j].0)) by {
        }
    }
}

/// A gate within the bounds of a piece belongs to that piece.
proof fn piece_of(nodes: Seq<NodeView>, plan: Plan, k: int, id: int)
    requires
        plan_wf(nodes, plan),
        0 <= k < plan.count(),
        0 <= id < nodes.len(),
        within(nodes, plan, plan.bounds[k], plan.bounds[k + 1], id),
    ensures
        plan.chunk_of[id] == k,
{
    let other = plan.chunk_of[id] as int;
    assert(plan.holds(nodes, other, id));
    if other < k {
        assert(other + 1 == k || plan.bounds[other + 1] < plan.bounds[k]);
    } else if other > k {
        assert(k + 1 == other || plan.bounds[k + 1] < plan.bounds[other]);
    }
}

/// Whether a name is that of a requested output.
spec fn is_requested(outputs: Seq<(Seq<char>, usize)>, name: Seq<char>) -> bool {
    exists|j: int| 0 <= j < outputs.len() && (#[trigger] outputs[j]).0 == name
}

impl Cone {
    /// Where each requested output comes from.
    fn output_sources(&self, base: &str) -> (sources: StringHashMap<(String, String)>)
        requires
            self.wf(),
        ensures
            forall|j: int|
                0 <= j < self.requests().len() && !(self.views()[self.requests()[j].1 as int].kind is Input)
                    ==> sources@.contains_key((#[trigger] self.requests()[j]).0),
            forall|name: Seq<char>| #[trigger]
                sources@.contains_key(name) ==> {
                    &&& sources@[name].1@ == name
                    &&& exists|id: int|
                        {
                            &&& 0 <= id < self.views().len()
                            &&& !(self.views()[id].kind is Input)
                            &&& #[trigger] names_node(self.views(), self.requests(), name, id)
                            &&& sources@[name].0@ == instance_text(
                                base@,
                                self.plan().chunk_of[id] as nat,
                                self.plan().count() > 1,
                            )
                        }
                },
    {
        let ghost nodes = self.views();
        let ghost plan = self.plan();
        let ghost requests = self.requests();
        let multiple_chunks = self.starts.len() > 1;
        let mut final_names = StringHashSet::new();
        for index in 0..self.outputs.len()
            invariant
                requests == self.requests(),
                forall|name: Seq<char>| #[trigger]
                    final_names@.contains(name) <==> is_requested(requests.take(index as int), name),
        {
            let ghost before = final_names@;
            final_names.insert(self.outputs[index].name.clone());
            proof {
                let shorter = requests.take(index as int);
                let longer = requests.take(index + 1);
                assert(longer[index as int] == requests[index as int]);
                assert(requests[index as int].0 == self.outputs[index as int].name@);
                assert forall|name: Seq<char>| #[trigger] final_names@.contains(name) <==> is_requested(longer, name) by {
                    if is_requested(shorter, name) {
                        let j = choose|j: int| 0 <= j < shorter.len() && (#[trigger] shorter[j]).0 == name;
                        assert(longer[j].0 == name);
                    }
                    if is_requested(longer, name) && name != requests[index as int].0 {
                        let j = choose|j: int| 0 <= j < longer.len() && (#[trigger] longer[j]).0 == name;
                        assert(shorter[j].0 == name);
                    }
                }
            }
        }
        assert(requests.take(requests.len() as int) =~= requests);
        let mut sources: StringHashMap<(String, String)> = StringHashMap::new();
        for k in 0..self.starts.len()
            invariant
                self.wf(),
                nodes == self.views(),
                plan == self.plan(),
                requests == self.requests(),
                plan.count() == self.starts.len(),
                multiple_chunks == (plan.count() > 1),
                forall|name: Seq<char>| #[trigger] final_names@.contains(name) <==> is_requested(requests, name),
                forall|j: int|
                    0 <= j < requests.len() && !(nodes[requests[j].1 as int].kind is Input)
                        && plan.chunk_of[requests[j].1 as int] < k ==> sources@.contains_key((#[trigger] requests[j]).0),
                forall|name: Seq<char>| #[trigger]
                    sources@.contains_key(name) ==> {
                        &&& sources@[name].1@ == name
                        &&& exists|id: int|
                            {
                                &&& 0 <= id < nodes.len()
                                &&& !(nodes[id].kind is Input)
                                &&& #[trigger] names_node(nodes, requests, name, id)
                                &&& sources@[name].0@ == instance_text(base@, plan.chunk_of[id] as nat, multiple_chunks)
                            }
                    },
        {
            let ports = self.chunk_outputs(k);
            let ghost first = plan.bounds[k as int];
            let ghost last = plan.bounds[k + 1];
            let ghost expected = exposed(nodes, requests, plan, first, last);
            proof {
                let end_bound = plan.bounds[plan.bounds.len() - 1];
                assert(k + 1 == plan.bounds.len() - 1 || last < end_bound);
                assert(k == 0 || plan.bounds[0] < first);
                assert(first < last);
                exposed_within(nodes, requests, plan, first, last);
                exposed_names(nodes, requests, plan, first, last);
            }
            let ghost sources_before = sources@;
            for index in 0..ports.len()
                invariant
                    self.wf(),
                    nodes == self.views(),
                    plan == self.plan(),
                    requests == self.requests(),
                    k < plan.count(),
                    first == plan.bounds[k as int],
                    last == plan.bounds[k + 1],
                    multiple_chunks == (plan.count() > 1),
                    expected == exposed(nodes, requests, plan, first, last),
                    port_pairs(ports@) == expected,
                    forall|j: int|
                        0 <= j < expected.len() ==> {
                            let id = (#[trigger] expected[j]).0 as int;
                            id < nodes.len() && within(nodes, plan, first, last, id) && names_node(
                                nodes,
                                requests,
                                expected[j].1,
                                id,
                            )
                        },
                    forall|name: Seq<char>| #[trigger] final_names@.contains(name) <==> is_requested(requests, name),
                    forall|name: Seq<char>| #[trigger] sources_before.contains_key(name) ==> sources@.contains_key(name),
                    forall|j: int|
                        0 <= j < index && is_requested(requests, expected[j].1) ==> sources@.contains_key(
                            (#[trigger] expected[j]).1,
                        ),
                    forall|name: Seq<char>| #[trigger]
                        sources@.contains_key(name) ==> {
                            &&& sources@[name].1@ == name
                            &&& exists|id: int|
                                {
                                    &&& 0 <= id < nodes.len()
                                    &&& !(nodes[id].kind is Input)
                                    &&& #[trigger] names_node(nodes, requests, name, id)
                                    &&& sources@[name].0@ == instance_text(base@, plan.chunk_of[id] as nat, multiple_chunks)
                                }
                        },
            {
                let port = &ports[index];
                assert(expected[index as int] == (port.node, port.name@));
                if final_names.contains(port.name.as_str()) {
                    let instance = chunk_instance_name(base, k, multiple_chunks);
                    proof {
                        piece_of(nodes, plan, k as int, port.node as int);
                        assert(names_node(nodes, requests, port.name@, port.node as int));
                    }
                    let ghost middle = sources@;
                    let ghost written = (instance, port.name);
                    sources.insert(port.name.clone(), (instance, port.name.clone()));
                    proof {
                        assert forall|name: Seq<char>| #[trigger] sources@.contains_key(name) implies {
                            &&& sources@[name].1@ == name
                            &&& exists|id: int|
                                {
                                    &&& 0 <= id < nodes.len()
                                    &&& !(nodes[id].kind is Input)
                                    &&& #[trigger] names_node(nodes, requests, name, id)
                                    &&& sources@[name].0@ == instance_text(base@, plan.chunk_of[id] as nat, multiple_chunks)
                                }
                        } by {
                            if name != port.name@ {
                                assert(middle.contains_key(name));
                            }
                        }
                    }
                }
            }
            proof {
                assert forall|j: int|
                    0 <= j < requests.len() && !(nodes[requests[j].1 as int].kind is Input)
                        && plan.chunk_of[requests[j].1 as int] < k + 1 implies sources@.contains_key(
                    (#[trigger] requests[j]).0,
                ) by {
                    let id = requests[j].1;
                    assert(self.requests()[j].1 < self.nodes.len());
                    if plan.chunk_of[id as int] < k {
                        assert(sources_before.contains_key(requests[j].0));
                    } else {
                        assert(plan.holds(nodes, plan.chunk_of[id as int] as int, id as int));
                        assert(expected.contains((id, requests[j].0)));
                        let i = choose|i: int| 0 <= i < expected.len() && expected[i] == (id, requests[j].0);
                        assert(is_requested(requests, requests[j].0));
                        assert(sources@.contains_key(expected[i].1));
                    }
                }
            }
        }
        proof {
            assert forall|j: int|
                0 <= j < requests.len() && !(nodes[requests[j].1 as int].kind is Input) implies sources@.contains_key(
                (#[trigger] requests[j]).0,
            ) by {
                assert(self.requests()[j].1 < self.nodes.len());
                assert(plan.chunk_of[requests[j].1 as int] < plan.count());
            }
        }
        sources
    }

    /// Requested outputs that repeat a boundary input.
    fn direct_outputs(&self) -> (direct: StringHashMap<String>)
        requires
            self.wf(),
        ensures
            forall|j: int|
                0 <= j < self.requests().len() && self.views()[self.requests()[j].1 as int].kind is Input
                    ==> direct@.contains_key((#[trigger] self.requests()[j]).0),
            forall|name: Seq<char>| #[trigger]
                direct@.contains_key(name) ==> exists|j: int|
                    {
                        &&& 0 <= j < self.requests().len()
                        &&& (#[trigger] self.requests()[j]).0 == name
                        &&& self.views()[self.requests()[j].1 as int].kind == KindView::Input(direct@[name]@)
                    },
    {
        let ghost nodes = self.views();
        let ghost requests = self.requests();
        let mut direct: StringHashMap<String> = StringHashMap::new();
        for index in 0..self.outputs.len()
            invariant
                self.wf(),
                nodes == self.views(),
                requests == self.requests(),
                forall|j: int|
                    0 <= j < index && nodes[requests[j].1 as int].kind is Input ==> direct@.contains_key(
                        (#[trigger] requests[j]).0,
                    ),
                forall|name: Seq<char>| #[trigger]
                    direct@.contains_key(name) ==> exists|j: int|
                        {
                            &&& 0 <= j < requests.len()
                            &&& (#[trigger] requests[j]).0 == name
                            &&& nodes[requests[j].1 as int].kind == KindView::Input(direct@[name]@)
                        },
        {
            let output = &self.outputs[index];
            assert(requests[index as int] == (output.name@, output.node));
            assert(self.requests()[index as int].1 < self.nodes.len());
            assert(nodes[output.node as int] == self.nodes[output.node as int]@);
            let ghost before = direct@;
            if let GraphNodeKind::Input(source) = &self.nodes[output.node].kind {
                direct.insert(output.name.clone(), source.clone());
                proof {
                    assert forall|name: Seq<char>| #[trigger] direct@.contains_key(name) implies exists|j: int|
                        {
                            &&& 0 <= j < requests.len()
                            &&& (#[trigger] requests[j]).0 == name
                            &&& nodes[requests[j].1 as int].kind == KindView::Input(direct@[name]@)
                        } by {
                        if name == output.name@ {
                            assert(requests[index as int].0 == name);
                        } else {
                            assert(before.contains_key(name));
                        }
                    }
                }
            }
        }
        direct
    }
}

/// An input of a leaf that no other leaf produces is a boundary input.
pub proof fn outside_is_input(
    nodes: Seq<NodeView>,
    outputs: Seq<(Seq<char>, usize)>,
    base: Seq<char>,
    plan: Plan,
    leaves: Seq<BuilderView>,
    result: PartitionedLeaf,
    k: int,
    i: int,
) -> (id: int)
    requires
        is_partition(nodes, outputs, base, plan, leaves, result),
        0 <= k < result.instances.len(),
        0 <= i < result.instances[k].inputs.len(),
        !result.intermediates@.contains_key(result.instances[k].inputs[i]@),
    ensures
        0 <= id < nodes.len(),
        nodes[id].kind == KindView::Input(result.instances[k].inputs[i]@),
{
    let leaf = leaves[k];
    assert(is_piece(nodes, outputs, plan, k, leaf));
    let origin = choose|origin: Seq<int>|
        {
            &&& #[trigger] copies_piece(nodes, plan, plan.bounds[k], plan.bounds[k + 1], leaf.nodes, origin)
            &&& exposes(leaf, origin, exposed(nodes, outputs, plan, plan.bounds[k], plan.bounds[k + 1]))
        };
    let name = texts(result.instances[k].inputs@)[i];
    let l = input_name_place(leaf.nodes, i);
    let id = origin[l];
    if !(nodes[id].kind is Input) {
        assert(plan.crosses(nodes, id));
    }
    id
}

/// The node whose name is input name `i`.
proof fn input_name_place(nodes: Seq<NodeView>, i: int) -> (l: int)
    requires
        0 <= i < input_names_of(nodes).len(),
    ensures
        0 <= l < nodes.len(),
        nodes[l].kind == KindView::Input(input_names_of(nodes)[i]),
    decreases nodes.len(),
{
    let shorter = nodes.drop_last();
    let before = input_names_of(shorter);
    if i < before.len() {
        let l = input_name_place(shorter, i);
        assert(shorter[l] == nodes[l]);
        l
    } else {
        nodes.len() - 1
    }
}

/// What a partition of a builder's cone into leaves of bounded size is.
pub open spec fn is_bounded_partition<F: Fn(&Vec<GraphNode>) -> Result<usize, LowerError>>(
    builder: BuilderView,
    base: Seq<char>,
    node_budget: usize,
    prepared_count: F,
    result: PartitionedLeaf,
) -> bool {
    exists|plan: Plan, leaves: Seq<BuilderView>|
        {
            &&& #[trigger] is_partition(builder.nodes, builder.outputs, base, plan, leaves, result)
            &&& is_limited_cut(builder, node_budget, prepared_count, plan)
            &&& pieces_sized(plan, node_budget)
            &&& leaves_fit(prepared_count, plan, leaves)
        }
}

/// Whether a plan is that of a cone that is cut by the budget, then where leaves
/// have too many nodes, then where they are too large once prepared.
pub open spec fn is_limited_cut<F: Fn(&Vec<GraphNode>) -> Result<usize, LowerError>>(
    builder: BuilderView,
    node_budget: usize,
    prepared_count: F,
    plan: Plan,
) -> bool {
    exists|first: Plan, second: Plan|
        {
            &&& #[trigger] is_first_cut(builder.nodes, first, node_budget)
            &&& #[trigger] is_count_limited(builder.nodes, builder.outputs, first, second)
            &&& is_size_limited(builder.nodes, builder.outputs, prepared_count, second, plan)
        }
}

impl LeafBuilder {
    /// Splits the collected cone into one or more leaves of bounded size.
    ///
    /// Gates are taken in topological order. What one leaf reads from another
    /// goes through a port named after its number; requested outputs keep their
    /// names, and one that is a boundary input is reported as a direct
    /// connection. `prepared_count` tells how many nodes a leaf has once it is
    /// prepared for placement.
    pub fn partition<F: Fn(&Vec<GraphNode>) -> Result<usize, LowerError>>(
        &self,
        base: &str,
        node_budget: usize,
        prepared_count: &F,
    ) -> (result: Result<PartitionedLeaf, LowerError>)
        requires
            self.wf(),
            forall|nodes: Vec<GraphNode>| #[trigger] call_requires(*prepared_count, (&nodes,)),
        ensures
            match result {
                Ok(partitioned) => is_bounded_partition(
                    self@,
                    base@,
                    node_budget,
                    *prepared_count,
                    partitioned,
                ),
                Err(error) => is_partition_error(self@, node_budget, *prepared_count, error),
            },
    {
        let mut cone = cut_cone(self, node_budget);
        let ghost first_plan = cone.plan();
        cone.limit_nodes();
        let ghost second_plan = cone.plan();
        assert(pieces_sized(first_plan, node_budget) && pieces_sized(second_plan, node_budget));
        let leaves = match cone.limit_prepared(prepared_count) {
            Ok(leaves) => leaves,
            Err(error) => {
                proof {
                    let last = cone.plan();
                    let k = choose|k: int| #[trigger]
                        is_preparation_error(
                            self@.nodes,
                            self@.outputs,
                            *prepared_count,
                            last,
                            k,
                            error,
                        );
                    assert(is_first_cut(self@.nodes, first_plan, node_budget));
                    assert(is_count_limited(self@.nodes, self@.outputs, first_plan, second_plan));
                    assert(leads_by_size(self@.nodes, self@.outputs, *prepared_count, second_plan, last));
                    assert(is_preparation_error(self@.nodes, self@.outputs, *prepared_count, last, k, error));
                }
                return Err(error);
            },
        };
        let ghost plan = cone.plan();
        assert(is_limited_cut(self@, node_budget, *prepared_count, plan)) by {
            assert(is_first_cut(self@.nodes, first_plan, node_budget));
            assert(is_count_limited(self@.nodes, self@.outputs, first_plan, second_plan));
        }
        let ghost views = builder_views(leaves@);
        assert(pieces_sized(plan, node_budget));
        assert(leaves_fit(*prepared_count, plan, views));
        let multiple_chunks = cone.starts.len() > 1;
        let mut modules: Vec<RoutableModule> = Vec::new();
        let mut instances: Vec<LeafInstance> = Vec::new();
        for k in 0..leaves.len()
            invariant
                plan == cone.plan(),
                views == builder_views(leaves@),
                multiple_chunks == (plan.count() > 1),
                leaves.len() == plan.count(),
                modules.len() == k,
                instances.len() == k,
                forall|i: int| 0 <= i < leaves.len() ==> (#[trigger] leaves[i]).wf(),
                forall|i: int|
                    0 <= i < k ==> {
                        let name = instance_text(base@, i as nat, multiple_chunks);
                        &&& (#[trigger] modules[i])@ == leaf_module(name, finished_nodes(views[i]))
                        &&& instances[i].instance@ == name
                        &&& texts(instances[i].inputs@) == input_names_of(views[i].nodes)
                    },
        {
            let instance = chunk_instance_name(base, k, multiple_chunks);
            assert(leaves[k as int].wf());
            assert(views[k as int] == leaves[k as int]@);
            let inputs = copy_texts(leaves[k].input_names());
            modules.push(leaves[k].finish(instance.as_str()));
            instances.push(LeafInstance { instance, inputs });
        }
        let partitioned = PartitionedLeaf {
            modules,
            instances,
            intermediates: cone.intermediates(base),
            output_sources: cone.output_sources(base),
            direct_outputs: cone.direct_outputs(),
        };
        proof {
            assert(cone.views() == self@.nodes);
            assert(cone.requests() == self@.outputs);
            assert forall|k: int| 0 <= k < plan.count() implies {
                let name = instance_text(base@, k as nat, multiple_chunks);
                &&& #[trigger] is_piece(self@.nodes, self@.outputs, plan, k, views[k])
                &&& partitioned.modules[k]@ == leaf_module(name, finished_nodes(views[k]))
                &&& partitioned.instances[k].instance@ == name
                &&& texts(partitioned.instances[k].inputs@) == input_names_of(views[k].nodes)
            } by {
                assert(leaves[k].wf());
                assert(views[k] == leaves[k]@);
                assert(partitioned.modules[k] == modules[k]);
            }
            assert(is_partition(self@.nodes, self@.outputs, base@, plan, views, partitioned));
            assert(pieces_sized(plan, node_budget));
            assert(leaves_fit(*prepared_count, plan, views));
            assert(is_bounded_partition(self@, base@, node_budget, *prepared_count, partitioned));
        }
        Ok(partitioned)
    }
}

} // verus!

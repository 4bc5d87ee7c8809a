//! The logic that computes the data of state cells.

use super::combinational::{constant_bit, constant_fits, is_allowed_node};
use super::cone::{growth_keeps_cone, is_allowed_cone};
use super::emitter::{
    are_wanted, boundary_of, clean_everywhere, inputs_known, is_bit_asked, is_bit_wanted, is_cell_error, is_clean,
    is_clean_from, is_cone_error, is_live_cell, is_rank, is_reached_cell, is_read_bit, is_wanted, is_wanted_from,
    logic_cells, pin_value_is_input, reads_net, reads_slice, root_is_wanted, root_is_wanted_from, ConeEmitter,
};
use super::error::{ErrorView, LowerError};
use super::expansion::{
    data_error, data_error_is, expand_data, expand_node, expand_state, expand_state_stops, Expansion, Job,
};
use super::flat::LEAF_NODE_BUDGET;
use super::liveness::is_live_name;
use super::partition::{
    is_bounded_partition, is_partition, is_partition_error, leaves_fit, pieces_sized, PartitionedLeaf, Plan,
};
use super::scalar::{builder_wf, extends_nodes, is_one, is_zero, net_widths, scalar_text, BuilderView, LeafBuilder};
use super::state_plan::{is_plan, plan_error, state_data, state_net, StatePlan};
use crate::graph::{GraphNode, KindView, NodeView};
use crate::ir::logical::{kind_is_sequential, CellView, LogicalValue, ModuleView, ValueView};
use crate::ir::target::{MappingPolicy, TargetView};
use crate::text::{decimal, decimal_text, join2};
use vstd::hash_set::StringHashSet;
use vstd::prelude::*;

verus! {

/// The port of a leaf that carries one bit of next-state data.
pub open spec fn next_port(width: nat, bit: nat) -> Seq<char> {
    if width == 1 {
        "__next"@
    } else {
        "__next_"@ + decimal(bit)
    }
}

fn next_port_name(width: usize, bit: usize) -> (name: String)
    ensures
        name@ == next_port(width as nat, bit as nat),
{
    if width == 1 {
        "__next".to_owned()
    } else {
        let digits = decimal_text(bit);
        join2("__next_", digits.as_str())
    }
}

/// The outputs of a next-state cone: a port for each of the first `count` bits
/// that is not a boundary input.
pub open spec fn next_outputs(
    nodes: Seq<NodeView>,
    bits: Seq<usize>,
    width: nat,
    count: nat,
) -> Seq<(Seq<char>, usize)>
    decreases count,
{
    if count == 0 {
        Seq::empty()
    } else {
        let before = next_outputs(nodes, bits, width, (count - 1) as nat);
        let node = bits[count - 1];
        if nodes[node as int].kind is Input {
            before
        } else {
            before.push((next_port(width, (count - 1) as nat), node))
        }
    }
}

proof fn next_outputs_stable(
    earlier: Seq<NodeView>,
    later: Seq<NodeView>,
    bits: Seq<usize>,
    more: Seq<usize>,
    width: nat,
    count: nat,
)
    requires
        extends_nodes(earlier, later),
        count <= bits.len() <= more.len(),
        forall|i: int| 0 <= i < count ==> (#[trigger] bits[i]) < earlier.len() && bits[i] == more[i],
    ensures
        next_outputs(earlier, bits, width, count) == next_outputs(later, more, width, count),
    decreases count,
{
    if count > 0 {
        next_outputs_stable(earlier, later, bits, more, width, (count - 1) as nat);
        assert(bits[count - 1] < earlier.len());
    }
}

/// A port of a bit that is not a boundary input is among the outputs.
proof fn next_outputs_contains(nodes: Seq<NodeView>, bits: Seq<usize>, width: nat, count: nat, bit: int)
    requires
        0 <= bit < count <= bits.len(),
        !(nodes[bits[bit] as int].kind is Input),
    ensures
        next_outputs(nodes, bits, width, count).contains((next_port(width, bit as nat), bits[bit])),
    decreases count,
{
    let all = next_outputs(nodes, bits, width, count);
    let before = next_outputs(nodes, bits, width, (count - 1) as nat);
    let pair = (next_port(width, bit as nat), bits[bit]);
    if bit == count - 1 {
        assert(all.last() == pair);
    } else {
        next_outputs_contains(nodes, bits, width, (count - 1) as nat, bit);
        let place = choose|i: int| 0 <= i < before.len() && before[i] == pair;
        assert(all[place] == pair);
    }
}

/// Whether node `node` of the cone carries bit `bit` of the data of a state cell.
pub open spec fn is_data_node(
    data: ValueView,
    widths: Map<Seq<char>, usize>,
    cone: BuilderView,
    bit: nat,
    node: usize,
) -> bool {
    match data {
        ValueView::Net(net) => {
            let name = scalar_text(net, widths[net], bit);
            cone.producers.contains_key(name) && cone.producers[name] == node
        },
        ValueView::Slice(net, slice) => {
            let name = scalar_text(net, widths[net], slice as nat);
            cone.producers.contains_key(name) && cone.producers[name] == node
        },
        ValueView::Constant(value, width) => if constant_bit(value, width, bit as int) {
            is_one(cone.nodes, node as int)
        } else {
            is_zero(cone.nodes, node as int)
        },
    }
}

/// The nets that data reads.
pub open spec fn data_roots(data: ValueView) -> Set<Seq<char>> {
    match data {
        ValueView::Net(net) => set![net],
        ValueView::Slice(net, _) => set![net],
        ValueView::Constant(_, _) => Set::empty(),
    }
}

/// Whether one bit of data is there: its net is known and has the bit.
pub open spec fn is_data_known(data: ValueView, widths: Map<Seq<char>, usize>, bit: nat) -> bool {
    match data {
        ValueView::Net(net) => widths.contains_key(net) && bit < widths[net],
        ValueView::Slice(net, slice) => widths.contains_key(net) && slice < widths[net],
        ValueView::Constant(_, _) => true,
    }
}

/// `cone` is the logic of the data of a state cell, and `bits` are the nodes
/// that carry it.
pub open spec fn is_next_cone(
    module: ModuleView,
    widths: Map<Seq<char>, usize>,
    cell: CellView,
    cone: BuilderView,
    bits: Seq<usize>,
) -> bool {
    let width = widths[state_net(cell)] as nat;
    &&& builder_wf(cone)
    &&& bits.len() == width
    &&& forall|bit: int| 0 <= bit < width ==> (#[trigger] bits[bit]) < cone.nodes.len()
    &&& forall|bit: nat| bit < width ==> #[trigger] is_data_known(state_data(cell), widths, bit)
    &&& cone.outputs == next_outputs(cone.nodes, bits, width, width)
    &&& is_clean_from(module, data_roots(state_data(cell))) ==> {
        &&& forall|bit: int|
            0 <= bit < width ==> is_data_node(state_data(cell), widths, cone, bit as nat, #[trigger] bits[bit])
        &&& exists|emitted: Set<int>|
            super::cone::cone_inv(
                logic_cells(module, data_roots(state_data(cell))),
                widths,
                boundary_of(module),
                cone,
                emitted,
            )
    }
}

/// Where one bit of next-state data comes from: a boundary net, or a port of a
/// leaf.
pub enum NextSource {
    Direct(String),
    Leaf { instance: String, port: String },
}

/// The contents of a [`NextSource`].
pub enum SourceView {
    Direct(Seq<char>),
    Leaf(Seq<char>, Seq<char>),
}

impl View for NextSource {
    type V = SourceView;

    open spec fn view(&self) -> SourceView {
        match self {
            NextSource::Direct(name) => SourceView::Direct(name@),
            NextSource::Leaf { instance, port } => SourceView::Leaf(instance@, port@),
        }
    }
}

/// The source of one bit of next-state data.
pub open spec fn next_source(
    cone: BuilderView,
    bits: Seq<usize>,
    leaf: PartitionedLeaf,
    bit: nat,
) -> SourceView {
    match cone.nodes[bits[bit as int] as int].kind {
        KindView::Input(name) => SourceView::Direct(name),
        _ => {
            let source = leaf.output_sources@[next_port(bits.len(), bit)];
            SourceView::Leaf(source.0@, source.1@)
        },
    }
}

/// Why the logic of a live state cell cannot be built.
pub open spec fn is_next_error<F: Fn(&Vec<GraphNode>) -> Result<usize, LowerError>>(
    module: ModuleView,
    target: TargetView,
    policy: MappingPolicy,
    prepared_count: F,
    error: LowerError,
) -> bool {
    ||| is_cone_error(module, target, policy, error@)
    ||| is_cell_error(module, target, policy, error@)
    ||| error@ is LostNet && !is_clean(module)
    ||| exists|index: int, cone: BuilderView, bits: Seq<usize>|
        {
            &&& 0 <= index < module.cells.len()
            &&& kind_is_sequential(module.cells[index].kind)
            &&& is_live_name(module, module.cells[index].name)
            &&& #[trigger] is_next_cone(module, net_widths(module.nets), module.cells[index], cone, bits)
            &&& is_partition_error(cone, LEAF_NODE_BUDGET, prepared_count, error)
        }
}

/// Why the logic of the data of a state cell cannot be built: its first defect or,
/// where it has none, a leaf that could not be prepared for placement.
pub open spec fn is_data_refused<F: Fn(&Vec<GraphNode>) -> Result<usize, LowerError>>(
    job: Job,
    prepared_count: F,
    cell: CellView,
    error: LowerError,
) -> bool {
    match data_error(job, cell) {
        Some(first) => error@ == first,
        None => exists|cone: BuilderView, bits: Seq<usize>|
            {
                &&& #[trigger] is_next_cone(job.module, net_widths(job.module.nets), cell, cone, bits)
                &&& is_partition_error(cone, LEAF_NODE_BUDGET, prepared_count, error)
            },
    }
}

/// What an expansion to a node comes to.
pub open spec fn node_expansion(result: Result<usize, LowerError>, names: Set<Seq<char>>) -> Expansion {
    Some(
        match result {
            Ok(_) => Ok(names),
            Err(error) => Err(error@),
        },
    )
}

/// How deep the logic of a value may be.
pub open spec fn value_fuel(rank: spec_fn(Seq<char>) -> Option<nat>, value: ValueView) -> nat {
    match value {
        ValueView::Net(net) => rank(net)->0 + 1,
        ValueView::Slice(net, _) => rank(net)->0 + 1,
        ValueView::Constant(_, _) => 0,
    }
}

/// Whether a cell of the module asks for one bit of data.
pub open spec fn is_data_wanted(module: ModuleView, data: ValueView, bit: usize) -> bool {
    match data {
        ValueView::Net(net) => is_wanted(module, net) && is_bit_wanted(module, net, bit),
        ValueView::Slice(net, slice) => is_wanted(module, net) && is_bit_wanted(module, net, slice),
        ValueView::Constant(_, _) => true,
    }
}

/// Whether the net of a value has a rank.
pub open spec fn is_value_ranked(rank: spec_fn(Seq<char>) -> Option<nat>, value: ValueView) -> bool {
    match value {
        ValueView::Net(net) => rank(net) is Some,
        ValueView::Slice(net, _) => rank(net) is Some,
        ValueView::Constant(_, _) => true,
    }
}

/// The data of a live state cell is asked for, bit for bit.
pub proof fn state_data_is_wanted(module: ModuleView, index: int, bit: usize)
    requires
        0 <= index < module.cells.len(),
        kind_is_sequential(module.cells[index].kind),
        is_live_name(module, module.cells[index].name),
        plan_error(module.cells[index], net_widths(module.nets)) is None,
        bit == 0 || bit < net_widths(module.nets)[state_net(module.cells[index])],
    ensures
        is_data_wanted(module, state_data(module.cells[index]), bit),
{
    let cell = module.cells[index];
    let k = pin_value_is_input(cell.inputs, "d"@);
    assert(is_live_cell(module, index));
    assert(is_reached_cell(module, index));
    match cell.inputs[k].value {
        ValueView::Net(net) => {
            assert(reads_net(cell, net));
            root_is_wanted(module, net);
        },
        ValueView::Slice(net, slice) => {
            assert(reads_net(cell, net));
            root_is_wanted(module, net);
            assert(reads_slice(cell, net, slice));
        },
        ValueView::Constant(_, _) => {},
    }
}

/// The node that carries one bit of data.
fn data_node<'a>(
    emitter: &ConeEmitter<'a>,
    data: &LogicalValue,
    bit: usize,
    builder: &mut LeafBuilder,
    used_inputs: &mut StringHashSet,
    Ghost(rank): Ghost<spec_fn(Seq<char>) -> Option<nat>>,
    Ghost(emitted): Ghost<Set<int>>,
) -> (result: (Result<usize, LowerError>, Ghost<Set<int>>))
    requires
        emitter.wf(),
        is_rank(emitter.module@, rank),
        old(builder).wf(),
        emitter.cone_holds(data_roots(data@), old(builder)@, emitted),
        inputs_known(emitter.module@, old(builder)@.nodes),
        is_allowed_cone(old(builder)@.nodes, *emitter.policy),
        is_data_wanted(emitter.module@, data@, bit),
        are_wanted(emitter.module@, data_roots(data@)),
        is_value_ranked(rank, data@),
        data@ is Constant ==> data@->Constant_1 <= 128 || bit < 128,
    ensures
        final(builder).wf(),
        final(builder)@.outputs == old(builder)@.outputs,
        expand_data(emitter.job(), value_fuel(rank, data@), data@, bit, old(builder)@.producers.dom()) == node_expansion(
            result.0,
            final(builder)@.producers.dom(),
        ),
        match result.0 {
            Ok(node) => {
                &&& is_data_known(data@, emitter.nets@, bit as nat)
                &&& inputs_known(emitter.module@, final(builder)@.nodes)
                &&& is_allowed_cone(final(builder)@.nodes, *emitter.policy)
                &&& node < final(builder)@.nodes.len()
                &&& extends_nodes(old(builder)@.nodes, final(builder)@.nodes)
                &&& emitter.cone_holds(data_roots(data@), final(builder)@, result.1@)
                &&& is_clean_from(emitter.module@, data_roots(data@)) ==> is_data_node(
                    data@,
                    emitter.nets@,
                    final(builder)@,
                    bit as nat,
                    node,
                )
                &&& is_clean_from(emitter.module@, data_roots(data@)) ==> forall|name: Seq<char>| #[trigger]
                    old(builder)@.producers.contains_key(name) ==> final(builder)@.producers.contains_key(name)
                        && final(builder)@.producers[name] == old(builder)@.producers[name]
                &&& forall|name: Seq<char>| #[trigger]
                    old(builder)@.producers.contains_key(name) ==> final(builder)@.producers.contains_key(name)
                &&& forall|name: Seq<char>| #[trigger]
                    old(used_inputs)@.contains(name) ==> final(used_inputs)@.contains(name)
                &&& forall|name: Seq<char>| #[trigger]
                    final(used_inputs)@.contains(name) ==> old(used_inputs)@.contains(name)
                        || final(builder)@.producers.contains_key(name)
            },
            Err(error) => {
                ||| is_cone_error(emitter.module@, emitter.target@, *emitter.policy, error@)
                ||| is_cell_error(emitter.module@, emitter.target@, *emitter.policy, error@)
                ||| error@ is LostNet && !is_clean(emitter.module@)
            },
        },
{
    match data {
        LogicalValue::Constant { value, width } => {
            let bit_value = bit < *width && (*value >> (bit as u128)) & 1 == 1;
            let ghost before = builder@;
            proof {
                builder.wf_gives();
            }
            let node: usize = builder.constant(bit_value);
            proof {
                assert forall|i: int| 0 <= i < builder@.nodes.len() implies ((
                #[trigger] builder@.nodes[i]).kind matches KindView::Input(name) ==> is_read_bit(
                    emitter.module@,
                    name,
                )) by {
                    if i < before.nodes.len() {
                        assert(builder@.nodes[i] == before.nodes[i]);
                    } else {
                        assert(is_one(builder@.nodes, i) || is_zero(builder@.nodes, i));
                    }
                }
                assert forall|i: int| 0 <= i < builder@.nodes.len() implies (#[trigger] builder@.nodes[i]).kind is Input
                    || is_allowed_node(builder@.nodes[i], *emitter.policy) by {
                    if i < before.nodes.len() {
                        assert(builder@.nodes[i] == before.nodes[i]);
                    } else {
                        assert(is_one(builder@.nodes, i) || is_zero(builder@.nodes, i));
                    }
                }
                if is_clean_from(emitter.module@, data_roots(data@)) {
                    growth_keeps_cone(
                        logic_cells(emitter.module@, data_roots(data@)),
                        emitter.nets@,
                        boundary_of(emitter.module@),
                        before,
                        builder@,
                        emitted,
                    );
                }
            }
            (Ok(node), Ghost(emitted))
        },
        LogicalValue::Net { net } => {
            proof {
                root_is_wanted_from(emitter.module@, data_roots(data@), net@);
            }
            emitted_node(
                emitter,
                net,
                bit,
                builder,
                used_inputs,
                Ghost(data_roots(data@)),
                Ghost(rank),
                Ghost(emitted),
            )
        },
        LogicalValue::Slice { net, bit: slice } => {
            proof {
                root_is_wanted_from(emitter.module@, data_roots(data@), net@);
            }
            emitted_node(
                emitter,
                net,
                *slice,
                builder,
                used_inputs,
                Ghost(data_roots(data@)),
                Ghost(rank),
                Ghost(emitted),
            )
        },
    }
}

/// The node that produces one bit of a net, once its cone is expanded.
pub fn emitted_node<'a>(
    emitter: &ConeEmitter<'a>,
    net: &String,
    bit: usize,
    builder: &mut LeafBuilder,
    used_inputs: &mut StringHashSet,
    Ghost(roots): Ghost<Set<Seq<char>>>,
    Ghost(rank): Ghost<spec_fn(Seq<char>) -> Option<nat>>,
    Ghost(emitted): Ghost<Set<int>>,
) -> (result: (Result<usize, LowerError>, Ghost<Set<int>>))
    requires
        emitter.wf(),
        is_rank(emitter.module@, rank),
        old(builder).wf(),
        emitter.cone_holds(roots, old(builder)@, emitted),
        inputs_known(emitter.module@, old(builder)@.nodes),
        is_allowed_cone(old(builder)@.nodes, *emitter.policy),
        are_wanted(emitter.module@, roots),
        is_wanted_from(emitter.module@, roots, net@),
        is_bit_asked(emitter.module@, net@, bit),
        rank(net@) is Some,
        emitter.nets@.contains_key(net@) && bit >= emitter.nets@[net@] ==> is_bit_wanted(emitter.module@, net@, bit),
    ensures
        final(builder).wf(),
        final(builder)@.outputs == old(builder)@.outputs,
        expand_node(emitter.job(), rank(net@)->0 + 1, net@, bit, old(builder)@.producers.dom()) == node_expansion(
            result.0,
            final(builder)@.producers.dom(),
        ),
        match result.0 {
            Ok(node) => {
                let name = scalar_text(net@, emitter.nets@[net@], bit as nat);
                &&& inputs_known(emitter.module@, final(builder)@.nodes)
                &&& is_allowed_cone(final(builder)@.nodes, *emitter.policy)
                &&& emitter.nets@.contains_key(net@) && bit < emitter.nets@[net@]
                &&& node < final(builder)@.nodes.len()
                &&& final(builder)@.producers.contains_key(name) && final(builder)@.producers[name] == node
                &&& extends_nodes(old(builder)@.nodes, final(builder)@.nodes)
                &&& emitter.cone_holds(roots, final(builder)@, result.1@)
                &&& is_clean_from(emitter.module@, roots) ==> forall|name: Seq<char>| #[trigger]
                    old(builder)@.producers.contains_key(name) ==> final(builder)@.producers.contains_key(name)
                        && final(builder)@.producers[name] == old(builder)@.producers[name]
                &&& forall|name: Seq<char>| #[trigger]
                    old(builder)@.producers.contains_key(name) ==> final(builder)@.producers.contains_key(name)
                &&& forall|name: Seq<char>| #[trigger]
                    old(used_inputs)@.contains(name) ==> final(used_inputs)@.contains(name)
                &&& forall|name: Seq<char>| #[trigger]
                    final(used_inputs)@.contains(name) ==> old(used_inputs)@.contains(name)
                        || final(builder)@.producers.contains_key(name)
            },
            Err(error) => {
                ||| is_cone_error(emitter.module@, emitter.target@, *emitter.policy, error@)
                ||| is_cell_error(emitter.module@, emitter.target@, *emitter.policy, error@)
                ||| error@ is LostNet && !is_clean(emitter.module@)
            },
        },
{
    let (result, Ghost(after)) = emitter.ensure(
        net.as_str(),
        bit,
        builder,
        used_inputs,
        Ghost(roots),
        Ghost(rank),
        Ghost(emitted),
    );
    if let Err(error) = result {
        return (Err(error), Ghost(after));
    }
    proof {
        builder.wf_gives();
    }
    match emitter.nets.scalar(net.as_str(), bit) {
        Ok(scalar) => match builder.producer(scalar.as_str()) {
            Some(node) => (Ok(node), Ghost(after)),
            None => {
                proof {
                    if is_clean(emitter.module@) {
                        clean_everywhere(emitter.module@, roots);
                    }
                }
                (Err(LowerError::LostNet(scalar)), Ghost(after))
            },
        },
        Err(error) => (Err(error), Ghost(after)),
    }
}

/// The leaves of the logic of one state cell.
pub struct NextLeaf {
    pub leaf: PartitionedLeaf,
    pub sources: Vec<NextSource>,
}

/// The leaves of the logic of one state cell are those of its cone.
pub open spec fn is_next_leaf<F: Fn(&Vec<GraphNode>) -> Result<usize, LowerError>>(
    prepared_count: F,
    cell: CellView,
    cone: BuilderView,
    bits: Seq<usize>,
    next: NextLeaf,
) -> bool {
    &&& is_bounded_partition(cone, state_net(cell) + "_next"@, LEAF_NODE_BUDGET, prepared_count, next.leaf)
    &&& next.sources.len() == bits.len()
    &&& forall|bit: int|
        0 <= bit < bits.len() ==> (#[trigger] next.sources[bit])@ == next_source(cone, bits, next.leaf, bit as nat)
}

/// Builds the logic of the data of one state cell and splits it into leaves.
pub fn next_leaf<'a, F: Fn(&Vec<GraphNode>) -> Result<usize, LowerError>>(
    emitter: &ConeEmitter<'a>,
    plan: &StatePlan,
    used_inputs: &mut StringHashSet,
    prepared_count: &F,
    Ghost(rank): Ghost<spec_fn(Seq<char>) -> Option<nat>>,
) -> (result: Result<(NextLeaf, Ghost<BuilderView>, Ghost<Seq<usize>>), LowerError>)
    requires
        emitter.wf(),
        is_rank(emitter.module@, rank),
        is_value_ranked(rank, state_data(emitter.module@.cells[plan.cell as int])),
        is_live_name(emitter.module@, emitter.module@.cells[plan.cell as int].name),
        is_plan(emitter.module@.cells, emitter.nets@, *plan),
        constant_fits(emitter.module@.cells[plan.cell as int], "d"@, plan.width as nat),
        forall|nodes: Vec<GraphNode>| #[trigger] call_requires(*prepared_count, (&nodes,)),
    ensures
        match result {
            Ok((next, cone, bits)) => {
                let cell = emitter.module@.cells[plan.cell as int];
                &&& data_error(emitter.job(), cell) is None
                &&& is_next_cone(emitter.module@, emitter.nets@, cell, cone@, bits@)
                &&& is_next_leaf(*prepared_count, cell, cone@, bits@, next)
                &&& inputs_known(emitter.module@, cone@.nodes)
                &&& is_allowed_cone(cone@.nodes, *emitter.policy)
                &&& forall|name: Seq<char>| #[trigger]
                    old(used_inputs)@.contains(name) ==> final(used_inputs)@.contains(name)
                &&& forall|name: Seq<char>| #[trigger]
                    final(used_inputs)@.contains(name) ==> old(used_inputs)@.contains(name)
                        || cone@.producers.contains_key(name)
            },
            Err(error) => {
                &&& is_next_error(emitter.module@, emitter.target@, *emitter.policy, *prepared_count, error)
                &&& is_data_refused(
                    emitter.job(),
                    *prepared_count,
                    emitter.module@.cells[plan.cell as int],
                    error,
                )
            },
        },
{
    let ghost job = emitter.job();
    let ghost module = emitter.module@;
    let ghost widths = emitter.nets@;
    let ghost cell = module.cells[plan.cell as int];
    let ghost width = plan.width as nat;
    let source_cell = &emitter.module.cells[plan.cell];
    assert(source_cell@ == cell);
    let data = match source_cell.input_value("d") {
        Some(data) => data,
        None => {
            proof {
                assert(false);
            }
            return Err(LowerError::LostNet("d".to_owned()));
        },
    };
    assert(data@ == state_data(cell));
    let ghost fuel = value_fuel(rank, data@);
    proof {
        state_data_is_wanted(module, plan.cell as int, 0);
    }
    let mut builder = LeafBuilder::new();
    assert(builder@.producers.dom() =~= Set::empty());
    let mut bits: Vec<usize> = Vec::new();
    let mut names: Vec<Option<String>> = Vec::new();
    let ghost mut emitted = Set::<int>::empty();
    let mut bit: usize = 0;
    while bit < plan.width
        invariant
            emitter.wf(),
            module == emitter.module@,
            widths == emitter.nets@,
            job == emitter.job(),
            fuel == value_fuel(rank, data@),
            expand_state(job, fuel, cell, bit as nat) == Some(
                Ok::<Set<Seq<char>>, ErrorView>(builder@.producers.dom()),
            ),
            forall|lower: nat| lower < bit ==> #[trigger] is_data_known(data@, widths, lower),
            is_rank(module, rank),
            is_value_ranked(rank, data@),
            are_wanted(module, data_roots(data@)),
            width == plan.width,
            data@ == state_data(cell),
            data@ is Constant ==> data@->Constant_1 <= 128 || width <= 128,
            bit <= plan.width,
            builder.wf(),
            emitter.cone_holds(data_roots(data@), builder@, emitted),
            inputs_known(module, builder@.nodes),
            is_allowed_cone(builder@.nodes, *emitter.policy),
            is_plan(module.cells, widths, *plan),
            is_live_name(module, cell.name),
            cell == module.cells[plan.cell as int],
            bits.len() == bit,
            names.len() == bit,
            forall|i: int| 0 <= i < bit ==> (#[trigger] bits[i]) < builder@.nodes.len(),
            forall|i: int|
                0 <= i < bit ==> match #[trigger] names[i] {
                    Some(name) => builder@.nodes[bits[i] as int].kind == KindView::Input(name@),
                    None => !(builder@.nodes[bits[i] as int].kind is Input),
                },
            builder@.outputs == next_outputs(builder@.nodes, bits@, width, bit as nat),
            is_clean_from(module, data_roots(data@)) ==> forall|i: int|
                0 <= i < bit ==> is_data_node(data@, widths, builder@, i as nat, #[trigger] bits[i]),
            forall|name: Seq<char>| #[trigger] old(used_inputs)@.contains(name) ==> used_inputs@.contains(name),
            forall|name: Seq<char>| #[trigger]
                used_inputs@.contains(name) ==> old(used_inputs)@.contains(name) || builder@.producers.contains_key(name),
        decreases plan.width - bit,
    {
        let ghost before = builder@;
        let ghost bits_before = bits@;
        proof {
            state_data_is_wanted(module, plan.cell as int, bit);
        }
        let (result, Ghost(after)) = data_node(
            emitter,
            data,
            bit,
            &mut builder,
            used_inputs,
            Ghost(rank),
            Ghost(emitted),
        );
        let node: usize = match result {
            Ok(node) => node,
            Err(error) => {
                proof {
                    expand_state_stops(job, fuel, cell, (bit + 1) as nat, width);
                    data_error_is(job, fuel, cell);
                }
                return Err(error);
            },
        };
        proof {
            emitted = after;
        }
        let ghost middle = builder@;
        proof {
            builder.wf_gives();
        }
        bits.push(node);
        let name = match builder.input_name(node) {
            Some(name) => Some(name.to_owned()),
            None => {
                let port = next_port_name(plan.width, bit);
                builder.add_output(port.as_str(), node);
                None
            },
        };
        names.push(name);
        proof {
            next_outputs_stable(before.nodes, builder@.nodes, bits_before, bits@, width, bit as nat);
            assert(builder@.outputs =~= next_outputs(builder@.nodes, bits@, width, (bit + 1) as nat));
            if is_clean_from(module, data_roots(data@)) {
                assert forall|i: int| 0 <= i < bit + 1 implies is_data_node(
                    data@,
                    widths,
                    builder@,
                    i as nat,
                    #[trigger] bits[i],
                ) by {
                    if i < bit {
                        assert(bits_before[i] == bits[i]);
                        assert(is_data_node(data@, widths, before, i as nat, bits_before[i]));
                    }
                }
                growth_keeps_cone(logic_cells(module, data_roots(data@)), widths, boundary_of(module), middle, builder@, emitted);
            }
            assert forall|i: int| 0 <= i < bit + 1 implies match #[trigger] names[i] {
                Some(name) => builder@.nodes[bits[i] as int].kind == KindView::Input(name@),
                None => !(builder@.nodes[bits[i] as int].kind is Input),
            } by {
                if i < bit {
                    assert(bits_before[i] == bits[i]);
                    assert(builder@.nodes[bits[i] as int] == before.nodes[bits[i] as int]);
                }
            }
        }
        bit += 1;
    }
    let ghost cone = builder@;
    proof {
        builder.wf_gives();
        data_error_is(job, fuel, cell);
        if is_clean_from(module, data_roots(data@)) {
            assert(super::cone::cone_inv(logic_cells(module, data_roots(data@)), widths, boundary_of(module), cone, emitted));
        }
        assert(is_next_cone(module, widths, cell, cone, bits@));
    }
    let base = join2(plan.output.as_str(), "_next");
    let leaf = match builder.partition(base.as_str(), LEAF_NODE_BUDGET, prepared_count) {
        Ok(leaf) => leaf,
        Err(error) => {
            assert(is_next_cone(module, widths, module.cells[plan.cell as int], cone, bits@));
            return Err(error);
        },
    };
    let ghost (cut, leaves) = choose|cut: Plan, leaves: Seq<BuilderView>|
        {
            &&& #[trigger] is_partition(cone.nodes, cone.outputs, base@, cut, leaves, leaf)
            &&& pieces_sized(cut, LEAF_NODE_BUDGET)
            &&& leaves_fit(*prepared_count, cut, leaves)
        };
    let mut sources: Vec<NextSource> = Vec::new();
    let mut index: usize = 0;
    while index < names.len()
        invariant
            index <= names.len(),
            names.len() == width,
            bits.len() == width,
            width == plan.width,
            is_partition(cone.nodes, cone.outputs, base@, cut, leaves, leaf),
            cone.outputs == next_outputs(cone.nodes, bits@, width, width),
            forall|i: int|
                0 <= i < names.len() ==> match #[trigger] names[i] {
                    Some(name) => cone.nodes[bits[i] as int].kind == KindView::Input(name@),
                    None => !(cone.nodes[bits[i] as int].kind is Input),
                },
            sources.len() == index,
            forall|i: int|
                0 <= i < index ==> (#[trigger] sources[i])@ == next_source(cone, bits@, leaf, i as nat),
        decreases names.len() - index,
    {
        match &names[index] {
            Some(name) => sources.push(NextSource::Direct(name.clone())),
            None => {
                let port = next_port_name(plan.width, index);
                proof {
                    next_outputs_contains(cone.nodes, bits@, width, width, index as int);
                    let pair = (next_port(width, index as nat), bits[index as int]);
                    let place = choose|i: int| 0 <= i < cone.outputs.len() && cone.outputs[i] == pair;
                    assert(cone.outputs[place].0 == port@);
                    assert(leaf.output_sources@.contains_key(port@));
                }
                match leaf.output_sources.get(port.as_str()) {
                    Some(source) => sources.push(
                        NextSource::Leaf { instance: source.0.clone(), port: source.1.clone() },
                    ),
                    None => {
                        proof {
                            assert(false);
                        }
                        return Err(LowerError::LostNet(port));
                    },
                }
            },
        }
        index += 1;
    }
    let next = NextLeaf { leaf, sources };
    Ok((next, Ghost(cone), Ghost(bits@)))
}

} // verus!

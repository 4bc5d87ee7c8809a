//! Expanding the fan-in cone of a scalar net on demand.

use super::combinational::{cell_fits, emit_cell, emit_outcome, pin_check, produced_count, Outcome};
use super::cone::{
    cell_pins, cone_inv, drivers_unique, drives, emit_keeps_cone, emitted_is_ready, grown_stays_allowed, input_keeps_cone,
    is_allowed_cone, ready_does_not_wait,
};
use super::error::{ErrorView, LowerError};
use super::expansion::{
    expand, expand_bits, expand_bits_stops, expand_cell, expand_deeper, expand_inputs, expand_inputs_stops, expands_to, Job,
};
use super::flat::emitted_keeps_names;
use super::liveness::{driver_index, driver_index_drives, is_live_name, lists_drivers};
use super::refusal::{emitted_names, outcome_by_names};
use super::scalar::{bit_texts, extends_nodes, net_widths, scalar_text, BuilderView, LeafBuilder, ScalarNets};
use crate::graph::{KindView, NodeView};
use crate::ir::logical::{
    kind_is_sequential, pin_net, pin_value, CellView, InputView, LogicalModule, LogicalPortDirection, LogicalValue,
    ModuleView, PortView, ValueView,
};
use crate::ir::target::{MappingPolicy, TargetSpec, TargetView};
use vstd::hash_map::StringHashMap;
use vstd::hash_set::StringHashSet;
use vstd::prelude::*;

verus! {

/// Whether `net` is that of an input port.
pub open spec fn is_input_net(ports: Seq<PortView>, net: Seq<char>) -> bool {
    exists|i: int|
        0 <= i < ports.len() && (#[trigger] ports[i]).direction == LogicalPortDirection::Input && ports[i].net == net
}

/// Whether a state cell drives `net`.
pub open spec fn is_state_net(cells: Seq<CellView>, net: Seq<char>) -> bool {
    exists|i: int, o: int|
        {
            &&& 0 <= i < cells.len()
            &&& 0 <= o < cells[i].outputs.len()
            &&& kind_is_sequential(cells[i].kind)
            &&& (#[trigger] cells[i].outputs[o]).net == net
        }
}

/// Whether logic reads `net` from outside: an input port or a state cell.
pub open spec fn is_boundary_net(module: ModuleView, net: Seq<char>) -> bool {
    is_input_net(module.ports, net) || is_state_net(module.cells, net)
}

/// Whether `name` is bit `bit` of `net`.
pub open spec fn is_bit_of(widths: Map<Seq<char>, usize>, net: Seq<char>, bit: nat, name: Seq<char>) -> bool {
    widths.contains_key(net) && bit < widths[net] && name == scalar_text(net, widths[net], bit)
}

/// Whether `name` is a bit of a net that logic reads from outside.
pub open spec fn is_boundary_bit(module: ModuleView, name: Seq<char>) -> bool {
    exists|net: Seq<char>, bit: nat|
        is_boundary_net(module, net) && #[trigger] is_bit_of(net_widths(module.nets), net, bit, name)
}

/// The boundary of the cones of a module.
pub open spec fn boundary_of(module: ModuleView) -> spec_fn(Seq<char>) -> bool {
    |name: Seq<char>| is_boundary_bit(module, name)
}

/// The cells of a module that are logic and that the cones of `roots` reach; the
/// others are left out by emptying what they drive.
pub open spec fn logic_cells(module: ModuleView, roots: Set<Seq<char>>) -> Seq<CellView> {
    Seq::new(
        module.cells.len(),
        |i: int|
            if is_cone_cell(module, roots, i) {
                module.cells[i]
            } else {
                CellView { outputs: Seq::empty(), ..module.cells[i] }
            },
    )
}

/// Whether every scalar net has one driver among the logic that the cones of `roots`
/// reach, and each cell of that logic drives the bits of its net that are asked for.
pub open spec fn is_clean_from(module: ModuleView, roots: Set<Seq<char>>) -> bool {
    let widths = net_widths(module.nets);
    &&& drivers_unique(logic_cells(module, roots), widths, boundary_of(module))
    &&& forall|i: int, bit: usize|
        #![trigger is_cone_cell(module, roots, i), is_bit_asked(module, module.cells[i].outputs[0].net, bit)]
        is_cone_cell(module, roots, i) && module.cells[i].outputs.len() > 0
            && bit < widths[module.cells[i].outputs[0].net] && is_bit_asked(
            module,
            module.cells[i].outputs[0].net,
            bit,
        ) ==> bit < produced_count(module.cells[i], widths)
}

/// The nets that are asked for outright: those of ports, and those that live state
/// cells read.
pub open spec fn all_roots(module: ModuleView) -> Set<Seq<char>> {
    Set::new(|net: Seq<char>| is_root(module, net))
}

/// Whether all logic that is reached is clean.
pub open spec fn is_clean(module: ModuleView) -> bool {
    is_clean_from(module, all_roots(module))
}

/// Whether a net ranks lower than another, where the other has a rank.
pub open spec fn falls(rank: spec_fn(Seq<char>) -> Option<nat>, source: Seq<char>, net: Seq<char>) -> bool {
    rank(net) is Some ==> rank(source) is Some && rank(source)->0 < rank(net)->0
}

/// `rank` falls from every net that logic drives to the nets that the logic
/// reads, so that no logic that has a rank feeds itself.
pub open spec fn is_rank(module: ModuleView, rank: spec_fn(Seq<char>) -> Option<nat>) -> bool {
    forall|net: Seq<char>, i: int|
        #![trigger driver_index(module.cells, net), module.cells[driver_index(module.cells, net)->0].inputs[i]]
        driver_index(module.cells, net) is Some && !kind_is_sequential(
            module.cells[driver_index(module.cells, net)->0].kind,
        ) && 0 <= i < module.cells[driver_index(module.cells, net)->0].inputs.len() ==> match module.cells[driver_index(
            module.cells,
            net,
        )->0].inputs[i].value {
            ValueView::Net(source) => falls(rank, source, net),
            ValueView::Slice(source, _) => falls(rank, source, net),
            ValueView::Constant(_, _) => true,
        }
}

/// Whether a cell reads a net through one of its inputs.
pub open spec fn reads_net(cell: CellView, net: Seq<char>) -> bool {
    exists|k: int|
        0 <= k < cell.inputs.len() && match (#[trigger] cell.inputs[k]).value {
            ValueView::Net(source) => source == net,
            ValueView::Slice(source, _) => source == net,
            ValueView::Constant(_, _) => false,
        }
}

/// Whether a cell reads one bit of a net by its number.
pub open spec fn reads_slice(cell: CellView, net: Seq<char>, bit: usize) -> bool {
    exists|k: int| 0 <= k < cell.inputs.len() && (#[trigger] cell.inputs[k]).value == ValueView::Slice(net, bit)
}

/// Whether a cell is a state cell that can reach an output.
pub open spec fn is_live_cell(module: ModuleView, index: int) -> bool {
    &&& 0 <= index < module.cells.len()
    &&& kind_is_sequential(module.cells[index].kind)
    &&& is_live_name(module, module.cells[index].name)
}

/// Whether a net is that of a port or is read by a live state cell.
pub open spec fn is_root(module: ModuleView, net: Seq<char>) -> bool {
    ||| exists|i: int| 0 <= i < module.ports.len() && (#[trigger] module.ports[i]).net == net
    ||| exists|i: int| #[trigger] is_live_cell(module, i) && reads_net(module.cells[i], net)
}

/// Whether the logic that drives a net reads another.
pub open spec fn feeds(module: ModuleView, source: Seq<char>, net: Seq<char>) -> bool {
    match driver_index(module.cells, net) {
        Some(index) => !kind_is_sequential(module.cells[index].kind) && reads_net(module.cells[index], source),
        None => false,
    }
}

/// A chain of logic from one of `roots` back to `net`.
pub open spec fn is_reach_path(module: ModuleView, roots: Set<Seq<char>>, path: Seq<Seq<char>>, net: Seq<char>) -> bool {
    &&& path.len() > 0
    &&& roots.contains(path[0])
    &&& path.last() == net
    &&& forall|i: int| 0 <= i < path.len() - 1 ==> feeds(module, #[trigger] path[i + 1], path[i])
}

/// Whether the cones of `roots` reach a net.
pub open spec fn is_wanted_from(module: ModuleView, roots: Set<Seq<char>>, net: Seq<char>) -> bool {
    exists|path: Seq<Seq<char>>| #[trigger] is_reach_path(module, roots, path, net)
}

/// Whether a port, a live state cell, or logic that they depend on asks for a net.
pub open spec fn is_wanted(module: ModuleView, net: Seq<char>) -> bool {
    is_wanted_from(module, all_roots(module), net)
}

/// Whether a cell is logic that drives a net that the cones of `roots` reach.
pub open spec fn is_cone_cell(module: ModuleView, roots: Set<Seq<char>>, index: int) -> bool {
    exists|net: Seq<char>| #[trigger]
        is_wanted_from(module, roots, net) && driver_index(module.cells, net) == Some(index) && !kind_is_sequential(
            module.cells[index].kind,
        )
}

/// Whether a cell is a live state cell, or logic that drives a net that is asked
/// for.
pub open spec fn is_reached_cell(module: ModuleView, index: int) -> bool {
    is_live_cell(module, index) || is_cone_cell(module, all_roots(module), index)
}

/// What is asked for outright is asked for.
pub proof fn root_is_wanted(module: ModuleView, net: Seq<char>)
    requires
        is_root(module, net),
    ensures
        is_wanted(module, net),
{
    root_is_wanted_from(module, all_roots(module), net);
}

/// The cones of some nets reach them.
pub proof fn root_is_wanted_from(module: ModuleView, roots: Set<Seq<char>>, net: Seq<char>)
    requires
        roots.contains(net),
    ensures
        is_wanted_from(module, roots, net),
{
    assert(is_reach_path(module, roots, seq![net], net));
}

/// A chain of logic that starts where another ends makes one chain with it.
proof fn path_goes_on(
    module: ModuleView,
    roots: Set<Seq<char>>,
    first: Seq<Seq<char>>,
    middle: Seq<char>,
    inner: Set<Seq<char>>,
    second: Seq<Seq<char>>,
    net: Seq<char>,
)
    requires
        is_reach_path(module, roots, first, middle),
        is_reach_path(module, inner, second, net),
        second[0] == middle,
    ensures
        is_wanted_from(module, roots, net),
{
    let path = first + second.skip(1);
    assert(path[0] == first[0]);
    assert forall|i: int| 0 <= i < path.len() - 1 implies feeds(module, #[trigger] path[i + 1], path[i]) by {
        if i < first.len() - 1 {
            assert(path[i] == first[i] && path[i + 1] == first[i + 1]);
        } else {
            let j = i - first.len() + 1;
            assert(path[i + 1] == second[j + 1]);
            assert(path[i] == second[j]) by {
                if j == 0 {
                    assert(path[i] == first.last());
                }
            }
        }
    }
    assert(path.last() == net) by {
        if second.len() > 1 {
            assert(path.last() == second.skip(1).last());
        }
    }
    assert(is_reach_path(module, roots, path, net));
}

/// Whether all of some nets are asked for.
pub open spec fn are_wanted(module: ModuleView, roots: Set<Seq<char>>) -> bool {
    forall|net: Seq<char>| #[trigger] roots.contains(net) ==> is_wanted(module, net)
}

/// What the cones of nets that are asked for reach is asked for.
proof fn cone_is_wanted(module: ModuleView, roots: Set<Seq<char>>, net: Seq<char>)
    requires
        are_wanted(module, roots),
        is_wanted_from(module, roots, net),
    ensures
        is_wanted(module, net),
{
    let second = choose|path: Seq<Seq<char>>| #[trigger] is_reach_path(module, roots, path, net);
    let middle = second[0];
    assert(is_wanted(module, middle));
    let first = choose|path: Seq<Seq<char>>| #[trigger] is_reach_path(module, all_roots(module), path, middle);
    path_goes_on(module, all_roots(module), first, middle, roots, second, net);
}

/// Where all logic that is reached is clean, so is that of nets that are asked for.
pub proof fn clean_everywhere(module: ModuleView, roots: Set<Seq<char>>)
    requires
        are_wanted(module, roots),
        is_clean(module),
    ensures
        is_clean_from(module, roots),
{
    let widths = net_widths(module.nets);
    let all = logic_cells(module, all_roots(module));
    let own = logic_cells(module, roots);
    assert forall|i: int| #[trigger] is_cone_cell(module, roots, i) implies is_cone_cell(
        module,
        all_roots(module),
        i,
    ) by {
        let net = choose|net: Seq<char>| #[trigger]
            is_wanted_from(module, roots, net) && driver_index(module.cells, net) == Some(i) && !kind_is_sequential(
                module.cells[i].kind,
            );
        cone_is_wanted(module, roots, net);
        assert(is_wanted_from(module, all_roots(module), net));
    }
    assert forall|i: int, name: Seq<char>| 0 <= i < own.len() && #[trigger] drives(
        own[i],
        widths,
        name,
    ) implies drives(all[i], widths, name) by {
        assert(is_cone_cell(module, roots, i));
    }
    assert(drivers_unique(own, widths, boundary_of(module)));
}

/// What logic reads that a cone reaches, the cone reaches.
proof fn fed_is_wanted(module: ModuleView, roots: Set<Seq<char>>, source: Seq<char>, net: Seq<char>)
    requires
        is_wanted_from(module, roots, net),
        feeds(module, source, net),
    ensures
        is_wanted_from(module, roots, source),
{
    let path = choose|path: Seq<Seq<char>>| #[trigger] is_reach_path(module, roots, path, net);
    let longer = path.push(source);
    assert forall|i: int| 0 <= i < longer.len() - 1 implies feeds(module, #[trigger] longer[i + 1], longer[i]) by {
        if i < path.len() - 1 {
            assert(longer[i] == path[i] && longer[i + 1] == path[i + 1]);
        } else {
            assert(longer[i] == path.last());
        }
    }
    assert(is_reach_path(module, roots, longer, source));
}

/// Whether a cell that is reached asks for a bit of a net whatever its width: by the
/// bit's number, as the control of a state cell, or as its data.
pub open spec fn is_bit_wanted(module: ModuleView, net: Seq<char>, bit: usize) -> bool {
    ||| exists|i: int| #[trigger] is_reached_cell(module, i) && reads_slice(module.cells[i], net, bit)
    ||| exists|i: int|
        {
            &&& #[trigger] is_live_cell(module, i)
            &&& reads_net(module.cells[i], net)
            &&& bit == 0 || bit < net_widths(module.nets)[pin_net(module.cells[i].outputs, "q"@)->0]
        }
}

/// Whether a cell reads all of a net.
pub open spec fn reads_whole(cell: CellView, net: Seq<char>) -> bool {
    exists|k: int| 0 <= k < cell.inputs.len() && (#[trigger] cell.inputs[k]).value == ValueView::Net(net)
}

/// Whether a bit of a net is asked for: with the whole net, by an output port or by
/// logic that is reached; or by itself.
pub open spec fn is_bit_asked(module: ModuleView, net: Seq<char>, bit: usize) -> bool {
    ||| exists|i: int|
        0 <= i < module.ports.len() && (#[trigger] module.ports[i]).net == net && module.ports[i].direction is Output
    ||| exists|i: int| #[trigger]
        is_reached_cell(module, i) && !kind_is_sequential(module.cells[i].kind) && reads_whole(module.cells[i], net)
    ||| is_bit_wanted(module, net, bit)
}

/// Whether `name` is a bit of a net that logic reads from outside, and that is asked
/// for.
pub open spec fn is_read_bit(module: ModuleView, name: Seq<char>) -> bool {
    exists|net: Seq<char>, bit: nat|
        is_boundary_net(module, net) && is_wanted(module, net) && #[trigger] is_bit_of(
            net_widths(module.nets),
            net,
            bit,
            name,
        )
}

/// Whether every boundary input of a cone is a bit of a net that logic reads from
/// outside, and that is asked for.
pub open spec fn inputs_known(module: ModuleView, nodes: Seq<NodeView>) -> bool {
    forall|i: int|
        0 <= i < nodes.len() ==> ((#[trigger] nodes[i]).kind matches KindView::Input(name) ==> is_read_bit(module, name))
}

/// Why a cone cannot be expanded.
pub open spec fn is_cone_error(
    module: ModuleView,
    target: TargetView,
    policy: MappingPolicy,
    error: ErrorView,
) -> bool {
    let widths = net_widths(module.nets);
    match error {
        ErrorView::UnknownNet(net) => is_wanted(module, net) && !widths.contains_key(net),
        ErrorView::BitOutOfRange(net, bit, width) => {
            &&& is_bit_wanted(module, net, bit)
            &&& widths.contains_key(net)
            &&& width == widths[net]
            &&& bit >= width
        },
        ErrorView::NoDriver(net) => {
            &&& is_wanted(module, net)
            &&& driver_index(module.cells, net) is None
            &&& !is_boundary_net(module, net)
        },
        ErrorView::NotEmitted(name) => !is_clean(module) && exists|i: int| #[trigger]
            is_reached_cell(module, i) && module.cells[i].name == name,
        _ => is_cell_error(module, target, policy, error),
    }
}

/// Whether a refused cell that is reached is a reason that a cone cannot be expanded.
pub open spec fn is_cell_error(
    module: ModuleView,
    target: TargetView,
    policy: MappingPolicy,
    error: ErrorView,
) -> bool {
    exists|i: int, producers: Map<Seq<char>, usize>|
        {
            &&& is_reached_cell(module, i)
            &&& !kind_is_sequential(module.cells[i].kind)
            &&& #[trigger] emit_outcome(module.cells[i], net_widths(module.nets), producers, target, policy)
                == Outcome::Fail(error)
        }
}

/// What feeds a pin is what feeds one of the inputs.
pub proof fn pin_value_is_input(inputs: Seq<InputView>, pin: Seq<char>) -> (k: int)
    requires
        pin_value(inputs, pin) is Some,
    ensures
        0 <= k < inputs.len(),
        inputs[k].value == pin_value(inputs, pin)->0,
    decreases inputs.len(),
{
    if inputs[0].pin == pin {
        0
    } else {
        let k = pin_value_is_input(inputs.drop_first(), pin);
        assert(inputs.drop_first()[k] == inputs[k + 1]);
        k + 1
    }
}

/// Whether what feeds an input has producers.
spec fn is_input_ready(value: ValueView, widths: Map<Seq<char>, usize>, producers: Map<Seq<char>, usize>) -> bool {
    match value {
        ValueView::Net(net) => forall|bit: nat|
            bit < widths[net] ==> producers.contains_key(#[trigger] scalar_text(net, widths[net], bit)),
        ValueView::Slice(net, bit) => producers.contains_key(scalar_text(net, widths[net], bit as nat)),
        ValueView::Constant(_, _) => true,
    }
}

/// A cell of which every input has its producers does not wait.
proof fn ready_cell_does_not_wait(
    cell: CellView,
    widths: Map<Seq<char>, usize>,
    producers: Map<Seq<char>, usize>,
    target: TargetView,
    policy: MappingPolicy,
)
    requires
        forall|k: int| 0 <= k < cell.inputs.len() ==> is_input_ready((#[trigger] cell.inputs[k]).value, widths, producers),
    ensures
        !(emit_outcome(cell, widths, producers, target, policy) is Wait),
{
    assert forall|place: int| 0 <= place < cell_pins(cell.kind).len() implies !(pin_check(
        cell,
        #[trigger] cell_pins(cell.kind)[place],
        widths,
        producers,
    ) is Wait) by {
        let pin = cell_pins(cell.kind)[place];
        if pin_value(cell.inputs, pin) is Some {
            let k = pin_value_is_input(cell.inputs, pin);
            assert(is_input_ready(cell.inputs[k].value, widths, producers));
        }
    }
    ready_does_not_wait(cell, widths, producers, target, policy);
}

/// Whether expanding one bit of a net comes down to expanding the inputs of a cell,
/// and then the cell.
spec fn expands_by(job: Job, fuel: nat, net: Seq<char>, bit: usize, names: Set<Seq<char>>, cell: CellView) -> bool {
    expand(job, fuel, net, bit, names) == match expand_inputs(job, (fuel - 1) as nat, cell, cell.inputs.len(), names) {
        Some(Ok(names)) => Some(expand_cell(job, cell, names)),
        other => other,
    }
}

/// Expands the fan-in cones of a module.
pub struct ConeEmitter<'a> {
    pub module: &'a LogicalModule,
    pub nets: &'a ScalarNets,
    pub driver_of: &'a StringHashMap<usize>,
    pub state_outputs: &'a StringHashSet,
    pub input_nets: &'a StringHashSet,
    pub target: &'a TargetSpec,
    pub policy: &'a MappingPolicy,
}

impl<'a> ConeEmitter<'a> {
    /// The tables of the emitter are those of its module.
    pub open spec fn wf(&self) -> bool {
        &&& self.nets@ == net_widths(self.module@.nets)
        &&& lists_drivers(self.module@.cells, self.driver_of@)
        &&& forall|net: Seq<char>| #[trigger]
            self.state_outputs@.contains(net) <==> is_state_net(self.module@.cells, net)
        &&& forall|net: Seq<char>| #[trigger]
            self.input_nets@.contains(net) <==> is_input_net(self.module@.ports, net)
        &&& forall|i: int| #[trigger]
            is_reached_cell(self.module@, i) && !kind_is_sequential(self.module@.cells[i].kind) ==> cell_fits(
                self.module@.cells[i],
                self.nets@,
            )
    }

    /// The module of the emitter and what it is lowered for.
    pub open spec fn job(&self) -> Job {
        Job { module: self.module@, target: self.target@, policy: *self.policy }
    }

    /// What holds of a cone under construction.
    pub open spec fn cone_holds(&self, roots: Set<Seq<char>>, builder: BuilderView, emitted: Set<int>) -> bool {
        is_clean_from(self.module@, roots) ==> cone_inv(
            logic_cells(self.module@, roots),
            self.nets@,
            boundary_of(self.module@),
            builder,
            emitted,
        )
    }

    /// Whether cell `i` drives a net that ranks lower than `net`.
    pub open spec fn ranks_below(&self, rank: spec_fn(Seq<char>) -> Option<nat>, i: int, net: Seq<char>) -> bool {
        &&& 0 <= i < self.module@.cells.len()
        &&& self.module@.cells[i].outputs.len() > 0
        &&& rank(self.module@.cells[i].outputs[0].net) is Some && rank(net) is Some
        &&& rank(self.module@.cells[i].outputs[0].net)->0 < rank(net)->0
    }

    /// Whether cell `i` drives a net that ranks at most as high as `net`.
    pub open spec fn ranks_within(&self, rank: spec_fn(Seq<char>) -> Option<nat>, i: int, net: Seq<char>) -> bool {
        &&& 0 <= i < self.module@.cells.len()
        &&& self.module@.cells[i].outputs.len() > 0
        &&& rank(self.module@.cells[i].outputs[0].net) is Some && rank(net) is Some
        &&& rank(self.module@.cells[i].outputs[0].net)->0 <= rank(net)->0
    }

    /// Expands the cone of bit `bit` of `net` into `builder` and records the
    /// input bits that it declares.
    pub fn ensure(
        &self,
        net: &str,
        bit: usize,
        builder: &mut LeafBuilder,
        used_inputs: &mut StringHashSet,
        Ghost(roots): Ghost<Set<Seq<char>>>,
        Ghost(rank): Ghost<spec_fn(Seq<char>) -> Option<nat>>,
        Ghost(emitted): Ghost<Set<int>>,
    ) -> (result: (Result<(), LowerError>, Ghost<Set<int>>))
        requires
            self.wf(),
            is_rank(self.module@, rank),
            rank(net@) is Some,
            old(builder).wf(),
            self.cone_holds(roots, old(builder)@, emitted),
            inputs_known(self.module@, old(builder)@.nodes),
            is_allowed_cone(old(builder)@.nodes, *self.policy),
            are_wanted(self.module@, roots),
            is_wanted_from(self.module@, roots, net@),
            is_bit_asked(self.module@, net@, bit),
            self.nets@.contains_key(net@) && bit >= self.nets@[net@] ==> is_bit_wanted(self.module@, net@, bit),
        ensures
            final(builder).wf(),
            final(builder)@.outputs == old(builder)@.outputs,
            expands_to(
                self.job(),
                rank(net@)->0 + 1,
                net@,
                bit,
                old(builder)@.producers.dom(),
                result.0,
                final(builder)@.producers.dom(),
            ),
            match result.0 {
                Ok(_) => {
                    &&& inputs_known(self.module@, final(builder)@.nodes)
                    &&& is_allowed_cone(final(builder)@.nodes, *self.policy)
                    &&& self.cone_holds(roots, final(builder)@, result.1@)
                    &&& forall|name: Seq<char>| #[trigger]
                        old(builder)@.producers.contains_key(name) ==> final(builder)@.producers.contains_key(name)
                    &&& forall|name: Seq<char>| #[trigger]
                        old(used_inputs)@.contains(name) ==> final(used_inputs)@.contains(name)
                    &&& forall|name: Seq<char>| #[trigger]
                        final(used_inputs)@.contains(name) ==> old(used_inputs)@.contains(name)
                            || final(builder)@.producers.contains_key(name)
                    &&& forall|i: int| #[trigger]
                        result.1@.contains(i) ==> emitted.contains(i) || self.ranks_within(rank, i, net@)
                    &&& is_clean_from(self.module@, roots) ==> forall|name: Seq<char>| #[trigger]
                        old(builder)@.producers.contains_key(name) ==> final(builder)@.producers[name]
                            == old(builder)@.producers[name]
                    &&& extends_nodes(old(builder)@.nodes, final(builder)@.nodes)
                    &&& self.nets@.contains_key(net@) && bit < self.nets@[net@]
                    &&& is_clean_from(self.module@, roots) ==> final(builder)@.producers.contains_key(
                        scalar_text(net@, self.nets@[net@], bit as nat),
                    )
                },
                Err(error) => is_cone_error(self.module@, self.target@, *self.policy, error@) || is_cell_error(
                    self.module@,
                    self.target@,
                    *self.policy,
                    error@,
                ),
            },
        decreases rank(net@)->0,
    {
        let ghost module = self.module@;
        let ghost cells = logic_cells(self.module@, roots);
        let ghost widths = self.nets@;
        let ghost job = self.job();
        let ghost fuel = rank(net@)->0;
        let ghost names = builder@.producers.dom();
        proof {
            cone_is_wanted(module, roots, net@);
        }
        let scalar = match self.nets.scalar(net, bit) {
            Ok(scalar) => scalar,
            Err(error) => return (Err(error), Ghost(emitted)),
        };
        if builder.has_producer(scalar.as_str()) {
            return (Ok(()), Ghost(emitted));
        }
        let ghost before = builder@;
        proof {
            builder.wf_gives();
            assert(is_bit_of(widths, net@, bit as nat, scalar@));
        }
        let is_input = self.input_nets.contains(net);
        if is_input || self.state_outputs.contains(net) {
            proof {
                assert(is_boundary_net(module, net@));
                assert(is_boundary_bit(module, scalar@));
                assert(is_read_bit(module, scalar@));
            }
            if is_input {
                used_inputs.insert(scalar.clone());
            }
            builder.add_input(scalar.as_str());
            proof {
                builder.wf_gives();
                if is_clean_from(module, roots) {
                    input_keeps_cone(cells, widths, boundary_of(module), before, builder@, emitted, scalar@);
                }
                assert(builder@.producers.dom() =~= names.insert(scalar@));
            }
            return (Ok(()), Ghost(emitted));
        }
        let index: usize = match self.driver_of.get(net) {
            Some(index) => *index,
            None => return (Err(LowerError::NoDriver(net.to_owned())), Ghost(emitted)),
        };
        proof {
            driver_index_drives(module.cells, net@);
        }
        let cell = &self.module.cells[index];
        proof {
            assert(module.cells[index as int] == cell@);
            assert(module.cells[index as int].outputs[0].net == net@);
            if kind_is_sequential(cell.kind) {
                assert(is_state_net(module.cells, net@));
            }
        }
        proof {
            assert(is_cone_cell(module, roots, index as int));
            assert(is_wanted_from(module, all_roots(module), net@));
            assert(is_reached_cell(module, index as int));
            assert forall|k: int| 0 <= k < cell@.inputs.len() implies match (#[trigger] cell@.inputs[k]).value {
                ValueView::Net(source) => is_wanted_from(module, roots, source) && reads_whole(cell@, source),
                ValueView::Slice(source, source_bit) => is_wanted_from(module, roots, source) && is_bit_wanted(
                    module,
                    source,
                    source_bit,
                ),
                ValueView::Constant(_, _) => true,
            } by {
                match cell@.inputs[k].value {
                    ValueView::Net(source) => {
                        assert(reads_net(module.cells[index as int], source));
                        fed_is_wanted(module, roots, source, net@);
                        assert(reads_whole(cell@, source));
                    },
                    ValueView::Slice(source, source_bit) => {
                        assert(reads_net(module.cells[index as int], source));
                        fed_is_wanted(module, roots, source, net@);
                        assert(reads_slice(module.cells[index as int], source, source_bit));
                    },
                    ValueView::Constant(_, _) => {},
                }
            }
        }
        assert(expands_by(job, fuel + 1, net@, bit, names, cell@));
        let ghost mut emitted_now = emitted;
        let mut input: usize = 0;
        while input < cell.inputs.len()
            invariant
                self.wf(),
                module == self.module@,
                cells == logic_cells(module, roots),
                widths == self.nets@,
                widths == net_widths(module.nets),
                job == self.job(),
                fuel == rank(net@)->0,
                names == old(builder)@.producers.dom(),
                expands_by(job, fuel + 1, net@, bit, names, cell@),
                expand_inputs(job, fuel, cell@, input as nat, names) == Some(
                    Ok::<Set<Seq<char>>, ErrorView>(builder@.producers.dom()),
                ),
                is_rank(module, rank),
                rank(net@) is Some,
                driver_index(module.cells, net@) == Some(index as int),
                module.cells[index as int] == cell@,
                are_wanted(module, roots),
                is_cone_cell(module, roots, index as int),
                is_reached_cell(module, index as int),
                !kind_is_sequential(cell.kind),
                input <= cell.inputs.len(),
                builder.wf(),
                builder@.outputs == old(builder)@.outputs,
                self.cone_holds(roots, builder@, emitted_now),
                inputs_known(module, builder@.nodes),
                is_allowed_cone(builder@.nodes, *self.policy),
                forall|k: int|
                    0 <= k < cell@.inputs.len() ==> match (#[trigger] cell@.inputs[k]).value {
                        ValueView::Net(source) => is_wanted_from(module, roots, source) && reads_whole(cell@, source),
                        ValueView::Slice(source, source_bit) => is_wanted_from(module, roots, source) && is_bit_wanted(
                            module,
                            source,
                            source_bit,
                        ),
                        ValueView::Constant(_, _) => true,
                    },
                is_clean_from(module, roots) ==> forall|k: int|
                    0 <= k < input ==> is_input_ready((#[trigger] cell@.inputs[k]).value, widths, builder@.producers),
                forall|name: Seq<char>| #[trigger]
                    old(builder)@.producers.contains_key(name) ==> builder@.producers.contains_key(name),
                forall|name: Seq<char>| #[trigger] old(used_inputs)@.contains(name) ==> used_inputs@.contains(name),
                forall|name: Seq<char>| #[trigger]
                    used_inputs@.contains(name) ==> old(used_inputs)@.contains(name) || builder@.producers.contains_key(
                        name,
                    ),
                extends_nodes(old(builder)@.nodes, builder@.nodes),
                is_clean_from(module, roots) ==> forall|name: Seq<char>| #[trigger]
                    old(builder)@.producers.contains_key(name) ==> builder@.producers[name] == old(builder)@.producers[name],
                forall|i: int| #[trigger]
                    emitted_now.contains(i) ==> emitted.contains(i) || self.ranks_below(rank, i, net@),
            decreases cell.inputs.len() - input,
        {
            assert(cell@.inputs[input as int] == cell.inputs[input as int]@);
            assert(module.cells[driver_index(module.cells, net@)->0].inputs[input as int] == cell@.inputs[input as int]);
            let ghost ready_before = builder@.producers;
            match &cell.inputs[input].value {
                LogicalValue::Net { net: source } => {
                    proof {
                        cone_is_wanted(module, roots, source@);
                    }
                    let width: usize = match self.nets.width(source.as_str()) {
                        Ok(width) => width,
                        Err(error) => {
                            proof {
                                expand_inputs_stops(job, fuel, cell@, (input + 1) as nat, cell@.inputs.len(), names);
                            }
                            return (Err(error), Ghost(emitted_now));
                        },
                    };
                    let ghost names_before = builder@.producers.dom();
                    let mut source_bit: usize = 0;
                    assert forall|lower: usize| #[trigger] is_bit_asked(module, source@, lower) by {
                        assert(is_reached_cell(module, index as int));
                        assert(reads_whole(module.cells[index as int], source@));
                    }
                    while source_bit < width
                        invariant
                            self.wf(),
                            module == self.module@,
                            cells == logic_cells(module, roots),
                            widths == self.nets@,
                            widths == net_widths(module.nets),
                            job == self.job(),
                            fuel == rank(net@)->0,
                            names == old(builder)@.producers.dom(),
                            expand_inputs(job, fuel, cell@, input as nat, names) == Some(
                                Ok::<Set<Seq<char>>, ErrorView>(names_before),
                            ),
                            expand_bits(job, fuel, source@, source_bit as nat, names_before) == Some(
                                Ok::<Set<Seq<char>>, ErrorView>(builder@.producers.dom()),
                            ),
                            input < cell@.inputs.len(),
                            cell@.inputs[input as int].value == ValueView::Net(source@),
                            expands_by(job, fuel + 1, net@, bit, names, cell@),
                            is_rank(module, rank),
                            rank(net@) is Some,
                            falls(rank, source@, net@),
                            are_wanted(module, roots),
                            is_wanted_from(module, roots, source@),
                            forall|lower: usize| #[trigger] is_bit_asked(module, source@, lower),
                            widths.contains_key(source@),
                            width == widths[source@],
                            inputs_known(module, builder@.nodes),
                            is_allowed_cone(builder@.nodes, *self.policy),
                            forall|name: Seq<char>| #[trigger]
                                ready_before.contains_key(name) ==> builder@.producers.contains_key(name),
                            is_clean_from(module, roots) ==> forall|lower: nat|
                                lower < source_bit ==> builder@.producers.contains_key(
                                    #[trigger] scalar_text(source@, width, lower),
                                ),
                            source_bit <= width,
                            builder.wf(),
                            builder@.outputs == old(builder)@.outputs,
                            self.cone_holds(roots, builder@, emitted_now),
                            forall|name: Seq<char>| #[trigger]
                                old(builder)@.producers.contains_key(name) ==> builder@.producers.contains_key(name),
                            forall|name: Seq<char>| #[trigger]
                                old(used_inputs)@.contains(name) ==> used_inputs@.contains(name),
                            forall|name: Seq<char>| #[trigger]
                                used_inputs@.contains(name) ==> old(used_inputs)@.contains(name)
                                    || builder@.producers.contains_key(name),
                            extends_nodes(old(builder)@.nodes, builder@.nodes),
                            is_clean_from(module, roots) ==> forall|name: Seq<char>| #[trigger]
                                old(builder)@.producers.contains_key(name) ==> builder@.producers[name] == old(builder)@.producers[name],
                            forall|i: int| #[trigger]
                                emitted_now.contains(i) ==> emitted.contains(i) || self.ranks_below(rank, i, net@),
                        decreases width - source_bit,
                    {
                        let ghost names_now = builder@.producers.dom();
                        let (result, Ghost(emitted_after)) = self.ensure(
                            source.as_str(),
                            source_bit,
                            builder,
                            used_inputs,
                            Ghost(roots),
                            Ghost(rank),
                            Ghost(emitted_now),
                        );
                        proof {
                            emitted_now = emitted_after;
                            expand_deeper(job, rank(source@)->0 + 1, fuel, source@, source_bit, names_now);
                        }
                        if let Err(error) = result {
                            proof {
                                expand_bits_stops(
                                    job,
                                    fuel,
                                    source@,
                                    (source_bit + 1) as nat,
                                    width as nat,
                                    names_before,
                                );
                                expand_inputs_stops(job, fuel, cell@, (input + 1) as nat, cell@.inputs.len(), names);
                            }
                            return (Err(error), Ghost(emitted_now));
                        }
                        source_bit += 1;
                    }
                },
                // Constants become nodes when the cell itself is expanded.
                LogicalValue::Constant { .. } => {},
                LogicalValue::Slice { net: source, bit: source_bit } => {
                    let ghost names_now = builder@.producers.dom();
                    let (result, Ghost(emitted_after)) = self.ensure(
                        source.as_str(),
                        *source_bit,
                        builder,
                        used_inputs,
                        Ghost(roots),
                        Ghost(rank),
                        Ghost(emitted_now),
                    );
                    proof {
                        emitted_now = emitted_after;
                        expand_deeper(job, rank(source@)->0 + 1, fuel, source@, *source_bit, names_now);
                    }
                    if let Err(error) = result {
                        proof {
                            expand_inputs_stops(job, fuel, cell@, (input + 1) as nat, cell@.inputs.len(), names);
                        }
                        return (Err(error), Ghost(emitted_now));
                    }
                },
            }
            proof {
                if is_clean_from(module, roots) {
                    assert forall|k: int| 0 <= k < input + 1 implies is_input_ready(
                        (#[trigger] cell@.inputs[k]).value,
                        widths,
                        builder@.producers,
                    ) by {
                        if k < input {
                            assert(is_input_ready(cell@.inputs[k].value, widths, ready_before));
                        }
                    }
                }
            }
            input += 1;
        }
        let ghost middle = builder@;
        proof {
            builder.wf_gives();
            outcome_by_names(cell@, widths, middle.producers, self.target@, *self.policy);
        }
        match emit_cell(cell, self.nets, builder, self.target, self.policy) {
            Err(error) => {
                proof {
                    assert(emit_outcome(
                        module.cells[index as int],
                        widths,
                        middle.producers,
                        self.target@,
                        *self.policy,
                    ) == Outcome::Fail(error@));
                    assert(is_cell_error(module, self.target@, *self.policy, error@));
                }
                (Err(error), Ghost(emitted_now))
            },
            Ok(false) => {
                proof {
                    if is_clean(module) {
                        clean_everywhere(module, roots);
                    }
                    if is_clean_from(module, roots) {
                        ready_cell_does_not_wait(cell@, widths, middle.producers, self.target@, *self.policy);
                    }
                    assert(module.cells[index as int].name == cell.name@);
                }
                (Err(LowerError::NotEmitted(cell.name.clone())), Ghost(emitted_now))
            },
            Ok(true) => {
                proof {
                    grown_stays_allowed(middle, builder@, *self.policy);
                    emitted_is_ready(cell@, widths, middle.producers, self.target@, *self.policy);
                    emitted_names(cell@, widths, middle, builder@);
                    assert forall|name: Seq<char>| middle.producers.contains_key(name) implies #[trigger] builder@.producers.contains_key(
                        name,
                    ) by {
                        emitted_keeps_names(cell@, widths, middle, builder@, name);
                    }
                    if is_clean_from(module, roots) {
                        assert(cells[index as int] == cell@);
                        let names = bit_texts(net@, widths[net@]);
                        assert(names[bit as int] == scalar@);
                        // All bits of an expanded cell have producers, and this bit had none.
                        if emitted.contains(index as int) {
                            assert(super::cone::cell_holds(cells[index as int], widths, before));
                            assert(before.producers.contains_key(names[bit as int]));
                        }
                        assert(!emitted_now.contains(index as int));
                        emit_keeps_cone(
                            cells,
                            widths,
                            boundary_of(module),
                            middle,
                            builder@,
                            emitted_now,
                            index as int,
                            self.target@,
                            *self.policy,
                        );
                    }
                }
                (Ok(()), Ghost(emitted_now.insert(index as int)))
            },
        }
    }
}

} // verus!

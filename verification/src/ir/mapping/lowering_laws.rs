//! What is owed success: a module without defects is lowered.

use super::combinational::{emit_outcome, pin_check, Outcome};
use super::cone::{cell_pins, drives, reads_name, ready_does_not_wait};
use super::emitter::{
    is_bit_wanted, is_boundary_net, is_cell_error, is_clean, is_cone_error, is_live_cell, is_reached_cell, is_read_bit,
    is_wanted,
};
use super::error::{ErrorView, LowerError};
use super::flat::{
    all_driven, is_cone_invalid, is_cone_refused, is_input_bit, is_module_cone, is_port_bit, is_stuck, is_undriven, LEAF_NODE_BUDGET,
};
use super::liveness::{driver_index, is_live_name};
use super::next_state::is_next_cone;
use super::partition::is_partition_error;
use super::scalar::{net_widths, scalar_text, BuilderView};
use super::sequential::{is_output_cone, is_output_dead, is_output_undriven, is_state_invalid, is_state_refused};
use super::state_plan::{elements_of, live_cells, plan_error};
use super::wiring::is_net_error;
use crate::graph::GraphNode;
use crate::ir::logical::{kind_is_sequential, pin_value, CellView, LogicalPortDirection, ModuleView, ValueView};
use crate::ir::routable::RoutableDesign;
use crate::ir::target::{MappingPolicy, TargetOp, TargetView};
use vstd::prelude::*;

verus! {

/// Whether a cell is never refused, whatever has a producer.
pub open spec fn is_supported(
    cell: CellView,
    widths: Map<Seq<char>, usize>,
    target: TargetView,
    policy: MappingPolicy,
) -> bool {
    forall|producers: Map<Seq<char>, usize>| !(#[trigger] emit_outcome(cell, widths, producers, target, policy) is Fail)
}

/// Whether `name` is an input bit, or a cell of a lower rank drives it.
pub open spec fn is_fed_below(module: ModuleView, rank: spec_fn(int) -> nat, index: int, name: Seq<char>) -> bool {
    ||| is_input_bit(module.ports, net_widths(module.nets), name)
    ||| exists|j: int|
        0 <= j < module.cells.len() && #[trigger] drives(module.cells[j], net_widths(module.nets), name) && rank(j)
            < rank(index)
}

/// Whether everything that a cell reads is an input bit or driven by a cell of a
/// lower rank.
pub open spec fn is_fed(module: ModuleView, rank: spec_fn(int) -> nat, index: int) -> bool {
    forall|place: int, bit: nat, name: Seq<char>|
        0 <= place < cell_pins(module.cells[index].kind).len() && #[trigger] reads_name(
            module.cells[index],
            cell_pins(module.cells[index].kind)[place],
            net_widths(module.nets),
            bit,
            name,
        ) ==> is_fed_below(module, rank, index, name)
}

/// Whether a module without state has no defect: its nets are known, its cells
/// supported, everything that is read or put out is driven, and no cell feeds
/// itself.
pub open spec fn is_sound_logic(
    module: ModuleView,
    target: TargetView,
    policy: MappingPolicy,
    rank: spec_fn(int) -> nat,
) -> bool {
    let widths = net_widths(module.nets);
    &&& forall|index: int| 0 <= index < module.ports.len() ==> widths.contains_key((#[trigger] module.ports[index]).net)
    &&& forall|index: int|
        0 <= index < module.cells.len() ==> is_supported(#[trigger] module.cells[index], widths, target, policy)
    &&& forall|index: int| 0 <= index < module.cells.len() ==> #[trigger] is_fed(module, rank, index)
    &&& forall|index: int, bit: nat, name: Seq<char>| #[trigger]
        is_port_bit(module.ports, widths, LogicalPortDirection::Output, index, bit, name) ==> !is_undriven(module, name)
}

/// What a pin waits for is a bit that it reads and that has no producer.
proof fn waiting_pin_reads(
    cell: CellView,
    pin: Seq<char>,
    widths: Map<Seq<char>, usize>,
    producers: Map<Seq<char>, usize>,
) -> (missing: (nat, Seq<char>))
    requires
        pin_check(cell, pin, widths, producers) is Wait,
    ensures
        reads_name(cell, pin, widths, missing.0, missing.1),
        !producers.contains_key(missing.1),
{
    match pin_value(cell.inputs, pin) {
        Some(ValueView::Net(net)) => {
            let bit = choose|bit: nat|
                bit < widths[net] && !producers.contains_key(#[trigger] scalar_text(net, widths[net], bit));
            (bit, scalar_text(net, widths[net], bit))
        },
        Some(ValueView::Slice(net, bit)) => (0, scalar_text(net, widths[net], bit as nat)),
        _ => (0, Seq::empty()),
    }
}

proof fn sound_cell_is_not_stuck(
    module: ModuleView,
    target: TargetView,
    policy: MappingPolicy,
    rank: spec_fn(int) -> nat,
    waiting: Seq<int>,
    producers: Map<Seq<char>, usize>,
    place: int,
)
    requires
        is_sound_logic(module, target, policy, rank),
        0 <= place < waiting.len(),
    ensures
        !is_stuck(module, target, policy, waiting, producers),
    decreases rank(waiting[place]),
{
    if is_stuck(module, target, policy, waiting, producers) {
        let widths = net_widths(module.nets);
        let index = waiting[place];
        let cell = module.cells[index];
        if forall|p: int| 0 <= p < cell_pins(cell.kind).len() ==> !(pin_check(
            cell,
            #[trigger] cell_pins(cell.kind)[p],
            widths,
            producers,
        ) is Wait) {
            ready_does_not_wait(cell, widths, producers, target, policy);
        } else {
            let p = choose|p: int|
                0 <= p < cell_pins(cell.kind).len() && pin_check(
                    cell,
                    #[trigger] cell_pins(cell.kind)[p],
                    widths,
                    producers,
                ) is Wait;
            let (bit, name) = waiting_pin_reads(cell, cell_pins(cell.kind)[p], widths, producers);
            assert(is_fed(module, rank, index));
            assert(is_fed_below(module, rank, index, name));
            if !is_input_bit(module.ports, widths, name) {
                let j = choose|j: int|
                    0 <= j < module.cells.len() && #[trigger] drives(module.cells[j], widths, name) && rank(j) < rank(
                        index,
                    );
                if waiting.contains(j) {
                    let other = choose|other: int| 0 <= other < waiting.len() && waiting[other] == j;
                    sound_cell_is_not_stuck(module, target, policy, rank, waiting, producers, other);
                } else {
                    let others = Set::new(|i: int| 0 <= i < module.cells.len() && !waiting.contains(i));
                    assert(others.contains(j));
                    assert(all_driven(module.cells, widths, others, producers));
                }
            }
        }
    }
}

/// A module without state and without defects is refused only where one of its
/// leaves cannot be prepared for placement, or what it is lowered to is not valid.
pub proof fn sound_logic_is_lowered<
    F: Fn(&Vec<GraphNode>) -> Result<usize, LowerError>,
    V: Fn(&RoutableDesign) -> Result<(), String>,
>(
    module: ModuleView,
    target: TargetView,
    policy: MappingPolicy,
    rank: spec_fn(int) -> nat,
    prepared_count: F,
    validate: V,
    error: LowerError,
)
    requires
        is_sound_logic(module, target, policy, rank),
        is_cone_refused(module, target, policy, prepared_count, error) || is_cone_invalid(
            module,
            target,
            policy,
            prepared_count,
            validate,
            error,
        ),
    ensures
        is_cone_invalid(module, target, policy, prepared_count, validate, error) || exists|cone: BuilderView| #[trigger]
            is_module_cone(module, cone) && is_partition_error(cone, LEAF_NODE_BUDGET, prepared_count, error),
{
    let widths = net_widths(module.nets);
    if exists|waiting: Seq<int>, producers: Map<Seq<char>, usize>|
        #[trigger] is_stuck(module, target, policy, waiting, producers) && error@ == ErrorView::Unresolved(
            waiting.map_values(|index: int| module.cells[index].name),
        ) {
        let (waiting, producers) = choose|waiting: Seq<int>, producers: Map<Seq<char>, usize>|
            #[trigger] is_stuck(module, target, policy, waiting, producers) && error@ == ErrorView::Unresolved(
                waiting.map_values(|index: int| module.cells[index].name),
            );
        sound_cell_is_not_stuck(module, target, policy, rank, waiting, producers, 0);
    }
    if exists|index: int, producers: Map<Seq<char>, usize>|
        {
            &&& 0 <= index < module.cells.len()
            &&& #[trigger] emit_outcome(module.cells[index], widths, producers, target, policy) == Outcome::Fail(
                error@,
            )
        } {
        let (index, producers) = choose|index: int, producers: Map<Seq<char>, usize>|
            {
                &&& 0 <= index < module.cells.len()
                &&& #[trigger] emit_outcome(module.cells[index], widths, producers, target, policy) == Outcome::Fail(
                    error@,
                )
            };
        assert(is_supported(module.cells[index], widths, target, policy));
    }
}

/// Whether a module with state has no defect that is reached: what is asked for is
/// known, in range and driven, its logic is supported and drives every bit once, and
/// every state bit that is read or put out is lowered.
pub open spec fn is_sound_state(module: ModuleView, target: TargetView, policy: MappingPolicy) -> bool {
    let widths = net_widths(module.nets);
    let live = live_cells(module, module.cells.len());
    let elements = elements_of(module.cells, widths, live, live.len());
    &&& target.ops.contains(TargetOp::DLatch)
    &&& is_clean(module)
    &&& forall|net: Seq<char>| #[trigger]
        is_wanted(module, net) ==> widths.contains_key(net) && (driver_index(module.cells, net) is Some
            || is_boundary_net(module, net))
    &&& forall|net: Seq<char>, bit: usize| #[trigger] is_bit_wanted(module, net, bit) ==> bit < widths[net]
    &&& forall|index: int|
        #[trigger] is_reached_cell(module, index) ==> if kind_is_sequential(module.cells[index].kind) {
            plan_error(module.cells[index], widths) is None
        } else {
            is_supported(module.cells[index], widths, target, policy)
        }
    &&& forall|name: Seq<char>| #[trigger]
        is_read_bit(module, name) ==> elements.contains_key(name) || is_input_bit(module.ports, widths, name)
    &&& forall|port: Seq<char>| !(#[trigger] is_output_undriven(module, elements, port))
    &&& forall|port: Seq<char>| !(#[trigger] is_output_dead(module, elements, port))
}

/// Whether an error is that of a leaf of a module with state that could not be
/// prepared for placement: one of the logic of the data of a live state cell, or of
/// the logic of the outputs.
pub open spec fn is_state_preparation_error<F: Fn(&Vec<GraphNode>) -> Result<usize, LowerError>>(
    module: ModuleView,
    prepared_count: F,
    error: LowerError,
) -> bool {
    let widths = net_widths(module.nets);
    let live = live_cells(module, module.cells.len());
    ||| exists|index: int, cone: BuilderView, bits: Seq<usize>|
        {
            &&& 0 <= index < module.cells.len()
            &&& kind_is_sequential(module.cells[index].kind)
            &&& is_live_name(module, module.cells[index].name)
            &&& #[trigger] is_next_cone(module, widths, module.cells[index], cone, bits)
            &&& is_partition_error(cone, LEAF_NODE_BUDGET, prepared_count, error)
        }
    ||| exists|cone: BuilderView| #[trigger]
        is_output_cone(module, elements_of(module.cells, widths, live, live.len()), cone) && is_partition_error(
            cone,
            LEAF_NODE_BUDGET,
            prepared_count,
            error,
        )
}

/// A module with state and without defects is refused only where one of its leaves
/// cannot be prepared for placement, or what it is lowered to is not valid.
pub proof fn sound_state_is_lowered<
    F: Fn(&Vec<GraphNode>) -> Result<usize, LowerError>,
    V: Fn(&RoutableDesign) -> Result<(), String>,
>(
    module: ModuleView,
    target: TargetView,
    policy: MappingPolicy,
    prepared_count: F,
    validate: V,
    error: LowerError,
)
    requires
        is_sound_state(module, target, policy),
        is_state_refused(module, target, policy, prepared_count, error) || is_state_invalid(
            module,
            target,
            policy,
            prepared_count,
            validate,
            error,
        ),
    ensures
        is_state_invalid(module, target, policy, prepared_count, validate, error) || is_state_preparation_error(
            module,
            prepared_count,
            error,
        ),
{
    let widths = net_widths(module.nets);
    if is_cell_error(module, target, policy, error@) {
        let (i, producers) = choose|i: int, producers: Map<Seq<char>, usize>|
            {
                &&& is_reached_cell(module, i)
                &&& !kind_is_sequential(module.cells[i].kind)
                &&& #[trigger] emit_outcome(module.cells[i], widths, producers, target, policy) == Outcome::Fail(
                    error@,
                )
            };
        assert(is_supported(module.cells[i], widths, target, policy));
    }
    assert forall|index: int| is_live_cell(module, index) implies #[trigger] plan_error(module.cells[index], widths)
        is None by {
        assert(is_reached_cell(module, index));
    }
    assert(!is_cone_error(module, target, policy, error@));
    assert(!is_net_error(module, error@));
}

} // verus!

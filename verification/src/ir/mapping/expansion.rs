//! What expanding the cone of a scalar net comes to: which scalar nets have a
//! producer afterwards, or the first defect that is met.
//!
//! The definitions count down how deep the logic may be, and give nothing where it
//! is deeper.

use super::combinational::Outcome;
use super::emitter::is_boundary_net;
use super::error::{ErrorView, LowerError};
use super::liveness::driver_index;
use super::refusal::{driven_by, outcome_among};
use super::scalar::{net_widths, scalar_text};
use super::state_plan::{state_data, state_net};
use crate::ir::logical::{kind_is_sequential, CellView, LogicalPortDirection, ModuleView, ValueView};
use crate::ir::target::{MappingPolicy, TargetView};
use vstd::prelude::*;

verus! {

/// What an expansion comes to, if the logic is not too deep.
pub type Expansion = Option<Result<Set<Seq<char>>, ErrorView>>;

/// A module and what it is lowered for.
pub struct Job {
    pub module: ModuleView,
    pub target: TargetView,
    pub policy: MappingPolicy,
}

/// Expands the cone of one bit of a net, where the scalar nets among `names` have a
/// producer: a net that is there already or comes from outside needs no logic, and
/// what a cell reads is expanded before the cell.
pub open spec fn expand(job: Job, fuel: nat, net: Seq<char>, bit: usize, names: Set<Seq<char>>) -> Expansion
    decreases fuel, 0nat, 0nat,
{
    let widths = net_widths(job.module.nets);
    let name = scalar_text(net, widths[net], bit as nat);
    if fuel == 0 {
        None
    } else if !widths.contains_key(net) {
        Some(Err(ErrorView::UnknownNet(net)))
    } else if bit >= widths[net] {
        Some(Err(ErrorView::BitOutOfRange(net, bit, widths[net])))
    } else if names.contains(name) {
        Some(Ok(names))
    } else if is_boundary_net(job.module, net) {
        Some(Ok(names.insert(name)))
    } else {
        match driver_index(job.module.cells, net) {
            None => Some(Err(ErrorView::NoDriver(net))),
            Some(index) => {
                let cell = job.module.cells[index];
                match expand_inputs(job, (fuel - 1) as nat, cell, cell.inputs.len(), names) {
                    Some(Ok(names)) => Some(expand_cell(job, cell, names)),
                    other => other,
                }
            },
        }
    }
}

/// Expands a cell whose inputs are expanded.
pub open spec fn expand_cell(job: Job, cell: CellView, names: Set<Seq<char>>) -> Result<Set<Seq<char>>, ErrorView> {
    let widths = net_widths(job.module.nets);
    match outcome_among(cell, widths, names, job.target, job.policy) {
        Outcome::Fail(error) => Err(error),
        Outcome::Wait => Err(ErrorView::NotEmitted(cell.name)),
        Outcome::Emit => Ok(names.union(driven_by(cell, widths))),
    }
}

/// Expands what feeds the first `count` inputs of a cell, in order.
pub open spec fn expand_inputs(job: Job, fuel: nat, cell: CellView, count: nat, names: Set<Seq<char>>) -> Expansion
    decreases fuel, 2nat, count,
{
    let widths = net_widths(job.module.nets);
    if count == 0 {
        Some(Ok(names))
    } else {
        match expand_inputs(job, fuel, cell, (count - 1) as nat, names) {
            Some(Ok(names)) => match cell.inputs[count - 1].value {
                ValueView::Constant(_, _) => Some(Ok(names)),
                ValueView::Slice(net, bit) => expand(job, fuel, net, bit, names),
                ValueView::Net(net) => if !widths.contains_key(net) {
                    Some(Err(ErrorView::UnknownNet(net)))
                } else {
                    expand_bits(job, fuel, net, widths[net] as nat, names)
                },
            },
            other => other,
        }
    }
}

/// Expands the first `count` bits of a net, in order.
pub open spec fn expand_bits(job: Job, fuel: nat, net: Seq<char>, count: nat, names: Set<Seq<char>>) -> Expansion
    decreases fuel, 1nat, count,
{
    if count == 0 {
        Some(Ok(names))
    } else {
        match expand_bits(job, fuel, net, (count - 1) as nat, names) {
            Some(Ok(names)) => expand(job, fuel, net, (count - 1) as usize, names),
            other => other,
        }
    }
}

/// Whether expanding one bit of a net came to `result`, with producers for `after`.
pub open spec fn expands_to(
    job: Job,
    fuel: nat,
    net: Seq<char>,
    bit: usize,
    names: Set<Seq<char>>,
    result: Result<(), LowerError>,
    after: Set<Seq<char>>,
) -> bool {
    expand(job, fuel, net, bit, names) == Some(
        match result {
            Ok(_) => Ok(after),
            Err(error) => Err(error@),
        },
    )
}

/// Expands one bit of a net and asks for its producer: a cell may drive fewer bits
/// than its net has.
pub open spec fn expand_node(job: Job, fuel: nat, net: Seq<char>, bit: usize, names: Set<Seq<char>>) -> Expansion {
    let name = scalar_text(net, net_widths(job.module.nets)[net], bit as nat);
    match expand(job, fuel, net, bit, names) {
        Some(Ok(names)) => if names.contains(name) {
            Some(Ok(names))
        } else {
            Some(Err(ErrorView::LostNet(name)))
        },
        other => other,
    }
}

/// Expands one bit of data.
pub open spec fn expand_data(job: Job, fuel: nat, data: ValueView, bit: usize, names: Set<Seq<char>>) -> Expansion {
    match data {
        ValueView::Constant(_, _) => Some(Ok(names)),
        ValueView::Slice(net, slice) => expand_node(job, fuel, net, slice, names),
        ValueView::Net(net) => expand_node(job, fuel, net, bit, names),
    }
}

/// Expands the first `count` bits of the data of a state cell, in order.
pub open spec fn expand_state(job: Job, fuel: nat, cell: CellView, count: nat) -> Expansion
    decreases count,
{
    if count == 0 {
        Some(Ok(Set::empty()))
    } else {
        match expand_state(job, fuel, cell, (count - 1) as nat) {
            Some(Ok(names)) => expand_data(job, fuel, state_data(cell), (count - 1) as usize, names),
            other => other,
        }
    }
}

/// Expands the first `count` bits of an output port, in order; a bit among
/// `elements` is a state bit and needs no logic.
pub open spec fn expand_port(
    job: Job,
    fuel: nat,
    elements: Map<Seq<char>, Seq<char>>,
    port: int,
    count: nat,
    names: Set<Seq<char>>,
) -> Expansion
    decreases count,
{
    let net = job.module.ports[port].net;
    let name = scalar_text(net, net_widths(job.module.nets)[net], (count - 1) as nat);
    if count == 0 {
        Some(Ok(names))
    } else {
        match expand_port(job, fuel, elements, port, (count - 1) as nat, names) {
            Some(Ok(names)) => if elements.contains_key(name) {
                Some(Ok(names))
            } else {
                match driver_index(job.module.cells, net) {
                    None => Some(Err(ErrorView::NoProducer(job.module.ports[port].name))),
                    Some(index) => if kind_is_sequential(job.module.cells[index].kind) {
                        Some(Err(ErrorView::StateNotLowered(job.module.ports[port].name)))
                    } else {
                        expand_node(job, fuel, net, (count - 1) as usize, names)
                    },
                }
            },
            other => other,
        }
    }
}

/// Expands the output ports among the first `count` ports, in order.
pub open spec fn expand_outputs(job: Job, fuel: nat, elements: Map<Seq<char>, Seq<char>>, count: nat) -> Expansion
    decreases count,
{
    let widths = net_widths(job.module.nets);
    if count == 0 {
        Some(Ok(Set::empty()))
    } else {
        let port = job.module.ports[count - 1];
        match expand_outputs(job, fuel, elements, (count - 1) as nat) {
            Some(Ok(names)) => if port.direction != LogicalPortDirection::Output {
                Some(Ok(names))
            } else if !widths.contains_key(port.net) {
                Some(Err(ErrorView::UnknownNet(port.net)))
            } else {
                expand_port(job, fuel, elements, count - 1, widths[port.net] as nat, names)
            },
            other => other,
        }
    }
}

/// The defect that an expansion meets, if it meets one.
pub open spec fn defect_of(expansion: Expansion) -> Option<ErrorView> {
    match expansion {
        Some(Err(error)) => Some(error),
        _ => None,
    }
}

/// The first defect of the logic of the data of a state cell.
pub open spec fn data_error(job: Job, cell: CellView) -> Option<ErrorView> {
    let width = net_widths(job.module.nets)[state_net(cell)] as nat;
    let fuel = choose|fuel: nat| #[trigger] expand_state(job, fuel, cell, width) is Some;
    defect_of(expand_state(job, fuel, cell, width))
}

/// The first defect of the logic of the output ports.
pub open spec fn side_error(job: Job, elements: Map<Seq<char>, Seq<char>>) -> Option<ErrorView> {
    let fuel = choose|fuel: nat| #[trigger] expand_outputs(job, fuel, elements, job.module.ports.len()) is Some;
    defect_of(expand_outputs(job, fuel, elements, job.module.ports.len()))
}

/// What an expansion comes to does not depend on how deep the logic may be.
pub proof fn expand_deeper(job: Job, fuel: nat, more: nat, net: Seq<char>, bit: usize, names: Set<Seq<char>>)
    requires
        fuel <= more,
        expand(job, fuel, net, bit, names) is Some,
    ensures
        expand(job, more, net, bit, names) == expand(job, fuel, net, bit, names),
    decreases fuel, 0nat, 0nat,
{
    if let Some(index) = driver_index(job.module.cells, net) {
        let cell = job.module.cells[index];
        if expand_inputs(job, (fuel - 1) as nat, cell, cell.inputs.len(), names) is Some {
            expand_inputs_deeper(job, (fuel - 1) as nat, (more - 1) as nat, cell, cell.inputs.len(), names);
        }
    }
}

proof fn expand_inputs_deeper(job: Job, fuel: nat, more: nat, cell: CellView, count: nat, names: Set<Seq<char>>)
    requires
        fuel <= more,
        expand_inputs(job, fuel, cell, count, names) is Some,
    ensures
        expand_inputs(job, more, cell, count, names) == expand_inputs(job, fuel, cell, count, names),
    decreases fuel, 2nat, count,
{
    if count > 0 {
        expand_inputs_deeper(job, fuel, more, cell, (count - 1) as nat, names);
        if let Some(Ok(names)) = expand_inputs(job, fuel, cell, (count - 1) as nat, names) {
            match cell.inputs[count - 1].value {
                ValueView::Constant(_, _) => {},
                ValueView::Slice(net, bit) => {
                    expand_deeper(job, fuel, more, net, bit, names);
                },
                ValueView::Net(net) => {
                    if net_widths(job.module.nets).contains_key(net) {
                        expand_bits_deeper(job, fuel, more, net, net_widths(job.module.nets)[net] as nat, names);
                    }
                },
            }
        }
    }
}

proof fn expand_bits_deeper(job: Job, fuel: nat, more: nat, net: Seq<char>, count: nat, names: Set<Seq<char>>)
    requires
        fuel <= more,
        expand_bits(job, fuel, net, count, names) is Some,
    ensures
        expand_bits(job, more, net, count, names) == expand_bits(job, fuel, net, count, names),
    decreases fuel, 1nat, count,
{
    if count > 0 {
        expand_bits_deeper(job, fuel, more, net, (count - 1) as nat, names);
        if let Some(Ok(names)) = expand_bits(job, fuel, net, (count - 1) as nat, names) {
            expand_deeper(job, fuel, more, net, (count - 1) as usize, names);
        }
    }
}

/// An earlier defect of the inputs of a cell stays.
pub proof fn expand_inputs_stops(
    job: Job,
    fuel: nat,
    cell: CellView,
    from: nat,
    to: nat,
    names: Set<Seq<char>>,
)
    requires
        from <= to,
        defect_of(expand_inputs(job, fuel, cell, from, names)) is Some,
    ensures
        expand_inputs(job, fuel, cell, to, names) == expand_inputs(job, fuel, cell, from, names),
    decreases to - from,
{
    if from < to {
        expand_inputs_stops(job, fuel, cell, from, (to - 1) as nat, names);
    }
}

/// An earlier defect of the bits of a net stays.
pub proof fn expand_bits_stops(job: Job, fuel: nat, net: Seq<char>, from: nat, to: nat, names: Set<Seq<char>>)
    requires
        from <= to,
        defect_of(expand_bits(job, fuel, net, from, names)) is Some,
    ensures
        expand_bits(job, fuel, net, to, names) == expand_bits(job, fuel, net, from, names),
    decreases to - from,
{
    if from < to {
        expand_bits_stops(job, fuel, net, from, (to - 1) as nat, names);
    }
}

/// One more bit of data, where the logic may be deeper.
pub proof fn expand_node_deeper(job: Job, fuel: nat, more: nat, net: Seq<char>, bit: usize, names: Set<Seq<char>>)
    requires
        fuel <= more,
        expand_node(job, fuel, net, bit, names) is Some,
    ensures
        expand_node(job, more, net, bit, names) == expand_node(job, fuel, net, bit, names),
{
    expand_deeper(job, fuel, more, net, bit, names);
}

proof fn expand_state_deeper(job: Job, fuel: nat, more: nat, cell: CellView, count: nat)
    requires
        fuel <= more,
        expand_state(job, fuel, cell, count) is Some,
    ensures
        expand_state(job, more, cell, count) == expand_state(job, fuel, cell, count),
    decreases count,
{
    if count > 0 {
        expand_state_deeper(job, fuel, more, cell, (count - 1) as nat);
        if let Some(Ok(names)) = expand_state(job, fuel, cell, (count - 1) as nat) {
            match state_data(cell) {
                ValueView::Constant(_, _) => {},
                ValueView::Slice(net, slice) => {
                    expand_node_deeper(job, fuel, more, net, slice, names);
                },
                ValueView::Net(net) => {
                    expand_node_deeper(job, fuel, more, net, (count - 1) as usize, names);
                },
            }
        }
    }
}

/// An earlier defect of the data of a state cell stays.
pub proof fn expand_state_stops(job: Job, fuel: nat, cell: CellView, from: nat, to: nat)
    requires
        from <= to,
        defect_of(expand_state(job, fuel, cell, from)) is Some,
    ensures
        expand_state(job, fuel, cell, to) == expand_state(job, fuel, cell, from),
    decreases to - from,
{
    if from < to {
        expand_state_stops(job, fuel, cell, from, (to - 1) as nat);
    }
}

/// Where the logic may be deeper nothing changes.
pub proof fn expand_port_deeper(
    job: Job,
    fuel: nat,
    more: nat,
    elements: Map<Seq<char>, Seq<char>>,
    port: int,
    count: nat,
    names: Set<Seq<char>>,
)
    requires
        fuel <= more,
        expand_port(job, fuel, elements, port, count, names) is Some,
    ensures
        expand_port(job, more, elements, port, count, names) == expand_port(job, fuel, elements, port, count, names),
    decreases count,
{
    if count > 0 {
        expand_port_deeper(job, fuel, more, elements, port, (count - 1) as nat, names);
        if let Some(Ok(names)) = expand_port(job, fuel, elements, port, (count - 1) as nat, names) {
            let net = job.module.ports[port].net;
            if expand_node(job, fuel, net, (count - 1) as usize, names) is Some {
                expand_node_deeper(job, fuel, more, net, (count - 1) as usize, names);
            }
        }
    }
}

/// An earlier defect of an output port stays.
pub proof fn expand_port_stops(
    job: Job,
    fuel: nat,
    elements: Map<Seq<char>, Seq<char>>,
    port: int,
    from: nat,
    to: nat,
    names: Set<Seq<char>>,
)
    requires
        from <= to,
        defect_of(expand_port(job, fuel, elements, port, from, names)) is Some,
    ensures
        expand_port(job, fuel, elements, port, to, names) == expand_port(job, fuel, elements, port, from, names),
    decreases to - from,
{
    if from < to {
        expand_port_stops(job, fuel, elements, port, from, (to - 1) as nat, names);
    }
}

/// Where the logic may be deeper nothing changes.
pub proof fn expand_outputs_deeper(job: Job, fuel: nat, more: nat, elements: Map<Seq<char>, Seq<char>>, count: nat)
    requires
        fuel <= more,
        expand_outputs(job, fuel, elements, count) is Some,
    ensures
        expand_outputs(job, more, elements, count) == expand_outputs(job, fuel, elements, count),
    decreases count,
{
    if count > 0 {
        expand_outputs_deeper(job, fuel, more, elements, (count - 1) as nat);
        if let Some(Ok(names)) = expand_outputs(job, fuel, elements, (count - 1) as nat) {
            let width = net_widths(job.module.nets)[job.module.ports[count - 1].net] as nat;
            if expand_port(job, fuel, elements, count - 1, width, names) is Some {
                expand_port_deeper(job, fuel, more, elements, count - 1, width, names);
            }
        }
    }
}

/// An earlier defect of the output ports stays.
pub proof fn expand_outputs_stops(job: Job, fuel: nat, elements: Map<Seq<char>, Seq<char>>, from: nat, to: nat)
    requires
        from <= to,
        defect_of(expand_outputs(job, fuel, elements, from)) is Some,
    ensures
        expand_outputs(job, fuel, elements, to) == expand_outputs(job, fuel, elements, from),
    decreases to - from,
{
    if from < to {
        expand_outputs_stops(job, fuel, elements, from, (to - 1) as nat);
    }
}

/// The first defect of the data of a state cell is the one that an expansion meets.
pub proof fn data_error_is(job: Job, fuel: nat, cell: CellView)
    requires
        expand_state(job, fuel, cell, net_widths(job.module.nets)[state_net(cell)] as nat) is Some,
    ensures
        data_error(job, cell) == defect_of(
            expand_state(job, fuel, cell, net_widths(job.module.nets)[state_net(cell)] as nat),
        ),
{
    let width = net_widths(job.module.nets)[state_net(cell)] as nat;
    let chosen = choose|fuel: nat| #[trigger] expand_state(job, fuel, cell, width) is Some;
    if chosen <= fuel {
        expand_state_deeper(job, chosen, fuel, cell, width);
    } else {
        expand_state_deeper(job, fuel, chosen, cell, width);
    }
}

/// The first defect of the output ports is the one that an expansion meets.
pub proof fn side_error_is(job: Job, fuel: nat, elements: Map<Seq<char>, Seq<char>>)
    requires
        expand_outputs(job, fuel, elements, job.module.ports.len()) is Some,
    ensures
        side_error(job, elements) == defect_of(expand_outputs(job, fuel, elements, job.module.ports.len())),
{
    let count = job.module.ports.len();
    let chosen = choose|fuel: nat| #[trigger] expand_outputs(job, fuel, elements, count) is Some;
    if chosen <= fuel {
        expand_outputs_deeper(job, chosen, fuel, elements, count);
    } else {
        expand_outputs_deeper(job, fuel, chosen, elements, count);
    }
}

} // verus!

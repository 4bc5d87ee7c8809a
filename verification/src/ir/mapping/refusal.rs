//! Which defect of a module is told: the first that the work meets.

use super::combinational::{cell_emitted, emit_outcome, pin_check, produced_count, Outcome};
use super::cone::drives;
use super::error::ErrorView;
use super::flat::is_input_bit;
use super::scalar::{bit_texts, net_widths, scalar_text, BuilderView};
use crate::ir::logical::{CellView, LogicalPortDirection, ModuleView, PortView};
use crate::ir::target::{MappingPolicy, TargetView};
use vstd::prelude::*;

verus! {

/// Producers for the scalar nets among `names`. Which node each is does not decide
/// whether a cell can be expanded.
pub open spec fn marked(names: Set<Seq<char>>) -> Map<Seq<char>, usize> {
    Map::new(|name: Seq<char>| names.contains(name), |name: Seq<char>| 0usize)
}

/// Whether a cell can be expanded where the scalar nets among `names` have a
/// producer.
pub open spec fn outcome_among(
    cell: CellView,
    widths: Map<Seq<char>, usize>,
    names: Set<Seq<char>>,
    target: TargetView,
    policy: MappingPolicy,
) -> Outcome {
    emit_outcome(cell, widths, marked(names), target, policy)
}

/// The scalar nets that a cell drives.
pub open spec fn driven_by(cell: CellView, widths: Map<Seq<char>, usize>) -> Set<Seq<char>> {
    Set::new(|name: Seq<char>| drives(cell, widths, name))
}

/// One pass over the first `count` of the cells that wait: each is expanded if it
/// can be, and waits on otherwise. Gives the cells that still wait and the scalar
/// nets that have a producer, or the first failure.
pub open spec fn pass(
    module: ModuleView,
    target: TargetView,
    policy: MappingPolicy,
    waiting: Seq<int>,
    names: Set<Seq<char>>,
    count: nat,
) -> Result<(Seq<int>, Set<Seq<char>>), ErrorView>
    decreases count,
{
    let widths = net_widths(module.nets);
    if count == 0 {
        Ok((Seq::empty(), names))
    } else {
        let index = waiting[count - 1];
        match pass(module, target, policy, waiting, names, (count - 1) as nat) {
            Err(error) => Err(error),
            Ok((left, names)) => match outcome_among(module.cells[index], widths, names, target, policy) {
                Outcome::Fail(error) => Err(error),
                Outcome::Wait => Ok((left.push(index), names)),
                Outcome::Emit => Ok((left, names.union(driven_by(module.cells[index], widths)))),
            },
        }
    }
}

/// Passes over the cells that wait, until none does or a pass expands none. Gives the
/// scalar nets that have a producer in the end, or the first failure.
pub open spec fn passes(
    module: ModuleView,
    target: TargetView,
    policy: MappingPolicy,
    waiting: Seq<int>,
    names: Set<Seq<char>>,
) -> Result<Set<Seq<char>>, ErrorView>
    decreases waiting.len(),
{
    if waiting.len() == 0 {
        Ok(names)
    } else {
        match pass(module, target, policy, waiting, names, waiting.len()) {
            Err(error) => Err(error),
            Ok((left, names)) => if left.len() < waiting.len() {
                passes(module, target, policy, left, names)
            } else {
                Err(ErrorView::Unresolved(left.map_values(|index: int| module.cells[index].name)))
            },
        }
    }
}

/// The first of the first `count` ports that is an input and whose net is unknown.
pub open spec fn inputs_error(
    ports: Seq<PortView>,
    widths: Map<Seq<char>, usize>,
    count: nat,
) -> Option<ErrorView>
    decreases count,
{
    if count == 0 {
        None
    } else {
        let port = ports[count - 1];
        match inputs_error(ports, widths, (count - 1) as nat) {
            Some(error) => Some(error),
            None => if port.direction == LogicalPortDirection::Input && !widths.contains_key(port.net) {
                Some(ErrorView::UnknownNet(port.net))
            } else {
                None
            },
        }
    }
}

/// The first of the first `count` ports that is an output and whose net is unknown,
/// or has a bit without a producer.
pub open spec fn outputs_error(
    ports: Seq<PortView>,
    widths: Map<Seq<char>, usize>,
    names: Set<Seq<char>>,
    count: nat,
) -> Option<ErrorView>
    decreases count,
{
    if count == 0 {
        None
    } else {
        let port = ports[count - 1];
        match outputs_error(ports, widths, names, (count - 1) as nat) {
            Some(error) => Some(error),
            None => if port.direction != LogicalPortDirection::Output {
                None
            } else if !widths.contains_key(port.net) {
                Some(ErrorView::UnknownNet(port.net))
            } else if exists|bit: nat|
                bit < widths[port.net] && !names.contains(#[trigger] scalar_text(port.net, widths[port.net], bit)) {
                Some(ErrorView::NoProducer(port.name))
            } else {
                None
            },
        }
    }
}

/// The scalar nets of the input ports.
pub open spec fn input_names(module: ModuleView) -> Set<Seq<char>> {
    Set::new(|name: Seq<char>| is_input_bit(module.ports, net_widths(module.nets), name))
}

/// The places of all cells, in order.
pub open spec fn all_cells(module: ModuleView) -> Seq<int> {
    Seq::new(module.cells.len(), |i: int| i)
}

/// The first defect of a module without state, before its logic is cut into leaves:
/// its input ports come first, then its cells, then its output ports.
pub open spec fn cone_error(module: ModuleView, target: TargetView, policy: MappingPolicy) -> Option<ErrorView> {
    let widths = net_widths(module.nets);
    match inputs_error(module.ports, widths, module.ports.len()) {
        Some(error) => Some(error),
        None => match passes(module, target, policy, all_cells(module), input_names(module)) {
            Err(error) => Some(error),
            Ok(names) => outputs_error(module.ports, widths, names, module.ports.len()),
        },
    }
}

/// Whether a cell can be expanded is decided by which scalar nets have a producer.
pub proof fn outcome_by_names(
    cell: CellView,
    widths: Map<Seq<char>, usize>,
    producers: Map<Seq<char>, usize>,
    target: TargetView,
    policy: MappingPolicy,
)
    ensures
        outcome_among(cell, widths, producers.dom(), target, policy) == emit_outcome(
            cell,
            widths,
            producers,
            target,
            policy,
        ),
{
    let names = marked(producers.dom());
    assert forall|pin: Seq<char>| #[trigger] pin_check(cell, pin, widths, names) == pin_check(
        cell,
        pin,
        widths,
        producers,
    ) by {
        assert forall|name: Seq<char>| #[trigger] names.contains_key(name) == producers.contains_key(name) by {}
    }
}

/// Expanding a cell gives producers to what it drives, and to nothing else.
pub proof fn emitted_names(
    cell: CellView,
    widths: Map<Seq<char>, usize>,
    before: BuilderView,
    after: BuilderView,
)
    requires
        cell.outputs.len() > 0,
        cell_emitted(cell, widths, before, after),
        produced_count(cell, widths) <= widths[cell.outputs[0].net],
    ensures
        after.producers.dom() == before.producers.dom().union(driven_by(cell, widths)),
{
    let net = cell.outputs[0].net;
    let names = bit_texts(net, widths[net]);
    let count = produced_count(cell, widths);
    assert forall|name: Seq<char>| after.producers.dom().contains(name) <==> before.producers.dom().union(
        driven_by(cell, widths),
    ).contains(name) by {
        if drives(cell, widths, name) {
            let bit = choose|bit: nat| bit < count && name == #[trigger] scalar_text(net, widths[net], bit);
            assert(names[bit as int] == name);
        }
        if before.producers.contains_key(name) {
            super::flat::emitted_keeps_names(cell, widths, before, after, name);
        }
        if names.take(count as int).contains(name) {
            let bit = choose|bit: int| 0 <= bit < count && names.take(count as int)[bit] == name;
            assert(name == scalar_text(net, widths[net], bit as nat));
            assert(drives(cell, widths, name));
        }
    }
    assert(after.producers.dom() =~= before.producers.dom().union(driven_by(cell, widths)));
}

/// A module whose ports have no defect knows the nets of its ports.
pub proof fn known_ports(
    ports: Seq<PortView>,
    widths: Map<Seq<char>, usize>,
    names: Set<Seq<char>>,
    count: nat,
    index: int,
)
    requires
        inputs_error(ports, widths, count) is None,
        outputs_error(ports, widths, names, count) is None,
        0 <= index < count <= ports.len(),
    ensures
        widths.contains_key(ports[index].net),
    decreases count,
{
    if index < count - 1 {
        known_ports(ports, widths, names, (count - 1) as nat, index);
    }
}

/// An earlier error of the input ports stays.
pub proof fn inputs_error_stays(ports: Seq<PortView>, widths: Map<Seq<char>, usize>, from: nat, to: nat)
    requires
        from <= to,
        inputs_error(ports, widths, from) is Some,
    ensures
        inputs_error(ports, widths, to) == inputs_error(ports, widths, from),
    decreases to - from,
{
    if from < to {
        inputs_error_stays(ports, widths, from, (to - 1) as nat);
    }
}

/// An earlier error of the output ports stays.
pub proof fn outputs_error_stays(
    ports: Seq<PortView>,
    widths: Map<Seq<char>, usize>,
    names: Set<Seq<char>>,
    from: nat,
    to: nat,
)
    requires
        from <= to,
        outputs_error(ports, widths, names, from) is Some,
    ensures
        outputs_error(ports, widths, names, to) == outputs_error(ports, widths, names, from),
    decreases to - from,
{
    if from < to {
        outputs_error_stays(ports, widths, names, from, (to - 1) as nat);
    }
}

/// An earlier failure of a pass stays.
pub proof fn pass_error_stays(
    module: ModuleView,
    target: TargetView,
    policy: MappingPolicy,
    waiting: Seq<int>,
    names: Set<Seq<char>>,
    from: nat,
    to: nat,
)
    requires
        from <= to,
        pass(module, target, policy, waiting, names, from) is Err,
    ensures
        pass(module, target, policy, waiting, names, to) == pass(module, target, policy, waiting, names, from),
    decreases to - from,
{
    if from < to {
        pass_error_stays(module, target, policy, waiting, names, from, (to - 1) as nat);
    }
}

} // verus!

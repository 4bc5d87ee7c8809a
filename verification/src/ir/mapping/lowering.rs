//! Lowering of flat logical modules.

use super::combinational::cell_fits;
use super::design::is_design_validator;
use super::error::LowerError;
use super::expansion::Job;
use super::flat::{is_cone_invalid, is_cone_refused, is_lowered_cone, lower_combinational_module};
use super::liveness::{driver_index, driver_index_drives, drivers_of, is_needed, needed_nets};
use super::refusal::cone_error;
use super::scalar::{net_widths, ScalarNets};
use super::sequential::{
    is_acyclic, is_lowered_state, is_state_invalid, is_state_refused, lower_sequential_module, reached_cells_fit,
};
use super::state_refusal::is_without_defect;
use crate::graph::GraphNode;
use crate::ir::logical::{
    kind_is_sequential, pin_value, CellView, LogicalCellKind, LogicalModule, LogicalPortDirection, LogicalValue,
    ModuleView, OutputView, ValueView,
};
use crate::ir::routable::RoutableDesign;
use crate::ir::target::{MappingPolicy, TargetSpec};
use crate::text::{same_text, texts};
use vstd::hash_set::StringHashSet;
use vstd::prelude::*;

verus! {

/// Whether a module has a state cell.
pub open spec fn has_state(cells: Seq<CellView>) -> bool {
    exists|i: int| 0 <= i < cells.len() && kind_is_sequential((#[trigger] cells[i]).kind)
}

/// Lowers one flat logical module.
///
/// `prepared_count` tells how many nodes a leaf has once it is prepared for
/// placement, and `validate` whether a design is valid.
pub fn lower_flat_module<
    F: Fn(&Vec<GraphNode>) -> Result<usize, LowerError>,
    V: Fn(&RoutableDesign) -> Result<(), String>,
>(
    module: &LogicalModule,
    target: &TargetSpec,
    policy: &MappingPolicy,
    prepared_count: &F,
    validate: &V,
) -> (result: Result<RoutableDesign, LowerError>)
    requires
        has_state(module@.cells) ==> is_acyclic(module@) && reached_cells_fit(module@),
        !has_state(module@.cells) ==> forall|i: int|
            0 <= i < module.cells.len() ==> cell_fits((#[trigger] module.cells[i])@, net_widths(module@.nets)),
        forall|nodes: Vec<GraphNode>| #[trigger] call_requires(*prepared_count, (&nodes,)),
        is_design_validator(*validate),
    ensures
        match result {
            Ok(design) => if has_state(module@.cells) {
                &&& is_without_defect((Job { module: module@, target: target@, policy: *policy }))
                &&& is_lowered_state(module@, target@, *policy, *prepared_count, design)
                &&& call_ensures(*validate, (&design,), Ok(()))
            } else {
                &&& cone_error(module@, target@, *policy) is None
                &&& is_lowered_cone(module@, target@, *policy, *prepared_count, design)
                &&& call_ensures(*validate, (&design,), Ok(()))
            },
            Err(error) => if has_state(module@.cells) {
                ||| is_state_refused(module@, target@, *policy, *prepared_count, error)
                ||| is_state_invalid(module@, target@, *policy, *prepared_count, *validate, error)
            } else {
                ||| is_cone_refused(module@, target@, *policy, *prepared_count, error)
                ||| is_cone_invalid(module@, target@, *policy, *prepared_count, *validate, error)
            },
        },
{
    let nets = ScalarNets::from_module(module);
    let ghost cells = module@.cells;
    let mut stateful = false;
    let mut index: usize = 0;
    while index < module.cells.len()
        invariant
            cells == module@.cells,
            index <= module.cells.len(),
            stateful ==> has_state(cells),
            !stateful ==> forall|i: int| 0 <= i < index ==> !kind_is_sequential((#[trigger] cells[i]).kind),
        decreases module.cells.len() - index,
    {
        assert(cells[index as int] == module.cells[index as int]@);
        if module.cells[index].kind.is_sequential() {
            stateful = true;
        }
        index += 1;
    }
    if stateful {
        lower_sequential_module(module, &nets, target, policy, prepared_count, validate)
    } else {
        proof {
            assert forall|i: int| 0 <= i < module.cells.len() implies cell_fits((#[trigger] module.cells[i])@, nets@) by {
                assert(cells[i] == module.cells[i]@);
            }
        }
        lower_combinational_module(module, &nets, target, policy, prepared_count, validate)
    }
}

/// Whether a cell kind needs more than one scalar gate or latch.
pub open spec fn is_general_kind(kind: LogicalCellKind) -> bool {
    kind is Add || kind is Inc || kind is Eq || kind is Mux || kind is Dff || kind is Register
}

/// Whether a module holds a bus, two state cells, or a cell that takes more
/// than one gate or latch.
pub open spec fn needs_general_lowering(module: ModuleView) -> bool {
    ||| exists|i: int| 0 <= i < module.nets.len() && (#[trigger] module.nets[i]).width != 1
    ||| exists|i: int, j: int|
        0 <= i < j < module.cells.len() && kind_is_sequential((#[trigger] module.cells[i]).kind) && kind_is_sequential(
            (#[trigger] module.cells[j]).kind,
        )
    ||| exists|i: int| 0 <= i < module.cells.len() && is_general_kind((#[trigger] module.cells[i]).kind)
}

/// Whether the module needs more than scalar gates and one latch.
pub fn requires_general_flat_lowering(module: &LogicalModule) -> (general: bool)
    ensures
        general == needs_general_lowering(module@),
{
    let ghost view = module@;
    let mut index: usize = 0;
    while index < module.nets.len()
        invariant
            view == module@,
            index <= module.nets.len(),
            forall|i: int| 0 <= i < index ==> (#[trigger] view.nets[i]).width == 1,
        decreases module.nets.len() - index,
    {
        assert(view.nets[index as int] == module.nets[index as int]@);
        if module.nets[index].width != 1 {
            return true;
        }
        index += 1;
    }
    let mut state: Option<usize> = None;
    let mut index: usize = 0;
    while index < module.cells.len()
        invariant
            view == module@,
            forall|i: int| 0 <= i < view.nets.len() ==> (#[trigger] view.nets[i]).width == 1,
            index <= module.cells.len(),
            forall|i: int|
                0 <= i < index ==> !is_general_kind((#[trigger] view.cells[i]).kind) && (kind_is_sequential(
                    view.cells[i].kind,
                ) ==> state == Some(i as usize)),
            state is Some ==> state->0 < index && kind_is_sequential(view.cells[state->0 as int].kind),
        decreases module.cells.len() - index,
    {
        assert(view.cells[index as int] == module.cells[index as int]@);
        let general = matches!(
            module.cells[index].kind,
            LogicalCellKind::Add | LogicalCellKind::Inc | LogicalCellKind::Eq { .. } | LogicalCellKind::Mux
                | LogicalCellKind::Dff { .. } | LogicalCellKind::Register { .. }
        );
        if general {
            assert(is_general_kind(view.cells[index as int].kind));
            return true;
        }
        if module.cells[index].kind.is_sequential() {
            if state.is_some() {
                assert(kind_is_sequential(view.cells[state->0 as int].kind));
                return true;
            }
            state = Some(index);
        }
        index += 1;
    }
    false
}

/// Whether an output of the list drives `net`.
pub open spec fn drives_net(outputs: Seq<OutputView>, net: Seq<char>) -> bool {
    exists|o: int| 0 <= o < outputs.len() && (#[trigger] outputs[o]).net == net
}

/// Whether a logic cell called `name` drives a net that the data `data` needs.
pub open spec fn is_in_cone(module: ModuleView, data: Seq<char>, name: Seq<char>) -> bool {
    exists|net: Seq<char>|
        {
            &&& #[trigger] is_needed(module.cells, false, seq![data], net)
            &&& driver_index(module.cells, net) is Some
            &&& !kind_is_sequential(module.cells[driver_index(module.cells, net)->0].kind)
            &&& module.cells[driver_index(module.cells, net)->0].name == name
        }
}

/// Whether cell `state` is the only state cell, drives every output port, and
/// all other cells compute its data.
pub open spec fn is_simple_state(module: ModuleView, state: int) -> bool {
    &&& 0 <= state < module.cells.len()
    &&& forall|i: int|
        0 <= i < module.cells.len() ==> (kind_is_sequential((#[trigger] module.cells[i]).kind) <==> i == state)
    &&& forall|p: int|
        0 <= p < module.ports.len() && (#[trigger] module.ports[p]).direction == LogicalPortDirection::Output
            ==> drives_net(module.cells[state].outputs, module.ports[p].net)
    &&& pin_value(module.cells[state].inputs, "d"@) is Some
    &&& pin_value(module.cells[state].inputs, "d"@)->0 is Net
    &&& forall|i: int|
        0 <= i < module.cells.len() && i != state ==> is_in_cone(
            module,
            pin_value(module.cells[state].inputs, "d"@)->0->Net_0,
            (#[trigger] module.cells[i]).name,
        )
}

/// Whether one state cell with its logic is the whole module.
pub fn module_is_simple_state_design(module: &LogicalModule) -> (simple: bool)
    ensures
        simple == exists|state: int| is_simple_state(module@, state),
{
    let ghost view = module@;
    let ghost cells = module@.cells;
    let mut found: Option<usize> = None;
    let mut index: usize = 0;
    while index < module.cells.len()
        invariant
            view == module@,
            cells == module@.cells,
            index <= module.cells.len(),
            forall|i: int|
                0 <= i < index ==> (kind_is_sequential((#[trigger] cells[i]).kind) <==> found == Some(i as usize)),
            found is Some ==> found->0 < index,
        decreases module.cells.len() - index,
    {
        assert(cells[index as int] == module.cells[index as int]@);
        if module.cells[index].kind.is_sequential() {
            if found.is_some() {
                proof {
                    let other = found->0 as int;
                    assert(kind_is_sequential(cells[other].kind));
                    assert forall|state: int| !is_simple_state(view, state) by {
                        assert(kind_is_sequential(cells[index as int].kind));
                    }
                }
                return false;
            }
            found = Some(index);
        }
        index += 1;
    }
    let state: usize = match found {
        Some(state) => state,
        None => {
            proof {
                assert forall|state: int| !is_simple_state(view, state) by {
                    if 0 <= state < cells.len() {
                        assert(!kind_is_sequential(cells[state].kind));
                    }
                }
            }
            return false;
        },
    };
    proof {
        assert forall|other: int| is_simple_state(view, other) implies other == state by {
            assert(kind_is_sequential(cells[state as int].kind));
        }
    }
    let cell = &module.cells[state];
    assert(cells[state as int] == cell@);
    let mut port: usize = 0;
    while port < module.ports.len()
        invariant
            view == module@,
            cells == module@.cells,
            cells[state as int] == cell@,
            state < cells.len(),
            forall|other: int| is_simple_state(view, other) ==> other == state,
            port <= module.ports.len(),
            forall|p: int|
                0 <= p < port && (#[trigger] view.ports[p]).direction == LogicalPortDirection::Output ==> drives_net(
                    cell@.outputs,
                    view.ports[p].net,
                ),
        decreases module.ports.len() - port,
    {
        assert(view.ports[port as int] == module.ports[port as int]@);
        if matches!(module.ports[port].direction, LogicalPortDirection::Output) {
            let mut output: usize = 0;
            while output < cell.outputs.len() && !same_text(
                cell.outputs[output].net.as_str(),
                module.ports[port].net.as_str(),
            )
                invariant
                    port < module.ports.len(),
                    output <= cell.outputs.len(),
                    forall|o: int|
                        0 <= o < output ==> (#[trigger] cell@.outputs[o]).net != module.ports[port as int].net@,
                decreases cell.outputs.len() - output,
            {
                assert(cell@.outputs[output as int] == cell.outputs[output as int]@);
                output += 1;
            }
            if output == cell.outputs.len() {
                assert(!drives_net(cell@.outputs, view.ports[port as int].net));
                return false;
            }
            assert(cell@.outputs[output as int] == cell.outputs[output as int]@);
            assert(drives_net(cell@.outputs, view.ports[port as int].net));
        }
        port += 1;
    }
    let data = match cell.input_value("d") {
        Some(LogicalValue::Net { net }) => net,
        _ => return false,
    };
    let driver_of = drivers_of(module);
    let starts = vec![data.clone()];
    assert(texts(starts@) =~= seq![data@]);
    let needed = needed_nets(module, &driver_of, &starts, false);
    let mut cone_cells = StringHashSet::new();
    let mut index: usize = 0;
    while index < module.cells.len()
        invariant
            view == module@,
            cells == module@.cells,
            super::liveness::lists_drivers(cells, driver_of@),
            index <= module.cells.len(),
            forall|name: Seq<char>| #[trigger]
                cone_cells@.contains(name) <==> exists|i: int|
                    0 <= i < index && #[trigger] is_cone_driver(cells, needed@, i) && cells[i].name == name,
        decreases module.cells.len() - index,
    {
        let other = &module.cells[index];
        assert(cells[index as int] == other@);
        let ghost before = cone_cells@;
        if !other.kind.is_sequential() && other.outputs.len() > 0 && needed.contains(other.outputs[0].net.as_str()) {
            assert(other@.outputs[0].net == other.outputs[0].net@);
            if let Some(driver) = driver_of.get(other.outputs[0].net.as_str()) {
                if *driver == index {
                    cone_cells.insert(other.name.clone());
                    assert(is_cone_driver(cells, needed@, index as int));
                }
            }
        }
        proof {
            assert(other.outputs.len() > 0 ==> other@.outputs[0].net == other.outputs[0].net@);
            assert forall|name: Seq<char>| #[trigger] cone_cells@.contains(name) <==> exists|i: int|
                0 <= i < index + 1 && #[trigger] is_cone_driver(cells, needed@, i) && cells[i].name == name by {
                if before.contains(name) {
                    let i = choose|i: int|
                        0 <= i < index && #[trigger] is_cone_driver(cells, needed@, i) && cells[i].name == name;
                    assert(is_cone_driver(cells, needed@, i));
                }
            }
        }
        index += 1;
    }
    proof {
        assert forall|name: Seq<char>| #[trigger] cone_cells@.contains(name) <==> is_in_cone(view, data@, name) by {
            if cone_cells@.contains(name) {
                let i = choose|i: int|
                    0 <= i < cells.len() && #[trigger] is_cone_driver(cells, needed@, i) && cells[i].name == name;
                let net = cells[i].outputs[0].net;
                assert(needed@.contains(net));
                assert(is_needed(cells, false, seq![data@], net));
            }
            if is_in_cone(view, data@, name) {
                let net = choose|net: Seq<char>|
                    {
                        &&& #[trigger] is_needed(cells, false, seq![data@], net)
                        &&& driver_index(cells, net) is Some
                        &&& !kind_is_sequential(cells[driver_index(cells, net)->0].kind)
                        &&& cells[driver_index(cells, net)->0].name == name
                    };
                driver_index_drives(cells, net);
                assert(needed@.contains(net));
                assert(is_cone_driver(cells, needed@, driver_index(cells, net)->0));
            }
        }
    }
    let mut index: usize = 0;
    while index < module.cells.len()
        invariant
            view == module@,
            cells == module@.cells,
            cells[state as int] == cell@,
            state < cells.len(),
            pin_value(cell@.inputs, "d"@) == Some(ValueView::Net(data@)),
            forall|i: int| 0 <= i < cells.len() ==> (kind_is_sequential((#[trigger] cells[i]).kind) <==> i == state),
            forall|other: int| is_simple_state(view, other) ==> other == state,
            forall|name: Seq<char>| #[trigger] cone_cells@.contains(name) <==> is_in_cone(view, data@, name),
            index <= module.cells.len(),
            forall|i: int| 0 <= i < index && i != state ==> is_in_cone(view, data@, (#[trigger] cells[i]).name),
        decreases module.cells.len() - index,
    {
        assert(cells[index as int] == module.cells[index as int]@);
        if !module.cells[index].kind.is_sequential() && !cone_cells.contains(module.cells[index].name.as_str()) {
            assert(!is_in_cone(view, data@, cells[index as int].name));
            return false;
        }
        index += 1;
    }
    assert(is_simple_state(view, state as int));
    true
}

/// Whether cell `index` is logic and drives a needed net.
spec fn is_cone_driver(cells: Seq<CellView>, needed: Set<Seq<char>>, index: int) -> bool {
    &&& !kind_is_sequential(cells[index].kind)
    &&& cells[index].outputs.len() > 0
    &&& needed.contains(cells[index].outputs[0].net)
    &&& driver_index(cells, cells[index].outputs[0].net) == Some(index)
}

} // verus!

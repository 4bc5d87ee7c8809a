//! Lowering of flat modules with state cells.
//!
//! A module with state becomes: one cone of logic per live state cell, a clock
//! inverter and two latches per register bit, one latch per latch bit, and one
//! cone for the outputs that no state cell drives. State cells that no output
//! needs are left out.

use super::combinational::{cell_fits, constant_fits};
use super::cone::{cone_inv, growth_keeps_cone, is_allowed_cone};
use super::design::{
    composite_module, composite_view, filtered_ports, finish_design, is_design_of, is_design_validator,
    is_invalid_design, is_validated, logical_ports_filtered,
};
use super::emitter::{
    are_wanted, boundary_of, inputs_known, is_cell_error, is_clean, is_clean_from, is_cone_error, is_input_net, is_live_cell, is_rank, is_reached_cell, is_read_bit,
    is_root,
    is_state_net, is_wanted, logic_cells, root_is_wanted, root_is_wanted_from, ConeEmitter,
};
use super::error::{ErrorView, LowerError};
use super::expansion::{
    expand_outputs, expand_outputs_deeper, expand_outputs_stops, expand_node_deeper, expand_port, expand_port_deeper,
    expand_port_stops, side_error, side_error_is, Job,
};
use super::flat::{is_input_bit, is_port_bit, leaf_connections, LEAF_NODE_BUDGET};
use super::leaf::{d_latch_nodes, d_latch_routable_module, leaf_module, not_clock_module, not_clock_nodes};
use super::liveness::{driver_index, drivers_of, is_live_name, live_state_cells};
use super::nets::{
    all_connected, connects, finished_nets_connect, instance_port, is_finished, net_views, self_port, Connection,
};
use super::next_state::{
    emitted_node, is_data_refused, is_next_cone, is_next_error, is_next_leaf, is_value_ranked, next_leaf, next_source, NextLeaf,
};
use super::partition::{
    is_bounded_partition, is_limited_cut, is_partition, is_partition_error, leaves_fit, outside_is_input, pieces_sized,
    PartitionedLeaf, Plan,
};
use super::refusal::{input_names, inputs_error, inputs_error_stays};
use super::scalar::{
    bit_texts, builder_wf, extends_nodes, net_widths, scalar_name, scalar_text, BuilderView, LeafBuilder, ScalarNets,
};
use super::state_plan::{
    elements_of, is_plan, live_cells, live_cells_are_live, plan_cells, plan_error, planned_cells, scalar_driver,
    state_bit, state_data, state_edge, state_net, Elements, Link, StatePlan, Wiring,
};
use super::state_refusal::{
    are_wires_before, is_cell_leaf, is_expanded_before, is_first_state_defect, is_linked_before, is_logic_refused, is_wire_cone, is_wire_refused,
    is_without_defect, link_error, reaches_output, repeats_source,
};
use super::wiring::{
    leaf_unresolved, source_error, wire_error, element_connections, element_links, is_leaf_unresolved, is_net_error,
    is_source_unresolved, leaf_links, self_driven, uses_explained, wire_elements, wire_leaf,
};
use crate::graph::{GraphNode, KindView};
use crate::ir::logical::{
    kind_is_sequential, CellView, LogicalModule, LogicalPortDirection, ModuleView, PortView,
};
use crate::ir::routable::{
    module_views, Endpoint, EndpointView, NetClass, RoutableDesign, RoutableModule, RoutableModuleView, RoutableNetView,
};
use crate::ir::target::{MappingPolicy, TargetOp, TargetSpec, TargetView};
use crate::text::{join2, texts};
use vstd::hash_set::StringHashSet;
use vstd::prelude::*;

verus! {

/// The nets of the input ports.
fn input_net_names(module: &LogicalModule) -> (names: StringHashSet)
    ensures
        forall|net: Seq<char>| #[trigger] names@.contains(net) <==> is_input_net(module@.ports, net),
{
    let ghost ports = module@.ports;
    let mut names = StringHashSet::new();
    let mut index: usize = 0;
    while index < module.ports.len()
        invariant
            ports == module@.ports,
            index <= module.ports.len(),
            forall|net: Seq<char>| #[trigger]
                names@.contains(net) <==> exists|i: int|
                    0 <= i < index && (#[trigger] ports[i]).direction == LogicalPortDirection::Input && ports[i].net == net,
        decreases module.ports.len() - index,
    {
        assert(ports[index as int] == module.ports[index as int]@);
        let ghost before = names@;
        if matches!(module.ports[index].direction, LogicalPortDirection::Input) {
            names.insert(module.ports[index].net.clone());
        }
        proof {
            assert forall|net: Seq<char>| #[trigger] names@.contains(net) <==> exists|i: int|
                0 <= i < index + 1 && (#[trigger] ports[i]).direction == LogicalPortDirection::Input && ports[i].net == net by {
                if before.contains(net) {
                    let i = choose|i: int|
                        0 <= i < index && (#[trigger] ports[i]).direction == LogicalPortDirection::Input && ports[i].net
                            == net;
                    assert(ports[i].net == net);
                }
            }
        }
        index += 1;
    }
    names
}

/// The bits of the input ports.
fn input_bit_names(module: &LogicalModule, nets: &ScalarNets) -> (result: Result<StringHashSet, LowerError>)
    requires
        nets@ == net_widths(module@.nets),
    ensures
        match result {
            Ok(names) => {
                &&& inputs_error(module@.ports, nets@, module@.ports.len()) is None
                &&& forall|name: Seq<char>| #[trigger]
                    names@.contains(name) <==> is_input_bit(module@.ports, nets@, name)
            },
            Err(error) => {
                &&& inputs_error(module@.ports, nets@, module@.ports.len()) == Some(error@)
                &&& exists|index: int|
                    {
                        &&& 0 <= index < module@.ports.len()
                        &&& !nets@.contains_key((#[trigger] module@.ports[index]).net)
                        &&& error@ == ErrorView::UnknownNet(module@.ports[index].net)
                    }
            },
        },
{
    let ghost ports = module@.ports;
    let ghost widths = nets@;
    let mut names = StringHashSet::new();
    let mut index: usize = 0;
    while index < module.ports.len()
        invariant
            ports == module@.ports,
            widths == nets@,
            index <= module.ports.len(),
            inputs_error(ports, widths, index as nat) is None,
            forall|name: Seq<char>| #[trigger]
                names@.contains(name) <==> exists|port: int, bit: nat|
                    port < index && #[trigger] is_port_bit(ports, widths, LogicalPortDirection::Input, port, bit, name),
        decreases module.ports.len() - index,
    {
        let port = &module.ports[index];
        assert(ports[index as int] == port@);
        let ghost before = names@;
        if matches!(port.direction, LogicalPortDirection::Input) {
            let bits = match nets.bits(port.net.as_str()) {
                Ok(bits) => bits,
                Err(error) => {
                    proof {
                        inputs_error_stays(ports, widths, (index + 1) as nat, ports.len());
                    }
                    return Err(error);
                },
            };
            let ghost width = widths[port.net@];
            assert(bits.len() == width) by {
                assert(texts(bits@).len() == bit_texts(port.net@, width).len());
            }
            let mut bit: usize = 0;
            while bit < bits.len()
                invariant
                    bit <= bits.len(),
                    bits.len() == width,
                    texts(bits@) == bit_texts(port.net@, width),
                    forall|name: Seq<char>| #[trigger]
                        names@.contains(name) <==> before.contains(name) || exists|lower: nat|
                            lower < bit && name == #[trigger] scalar_text(port.net@, width, lower),
                decreases bits.len() - bit,
            {
                assert(texts(bits@)[bit as int] == scalar_text(port.net@, width, bit as nat));
                let ghost middle = names@;
                names.insert(bits[bit].clone());
                proof {
                    assert forall|name: Seq<char>| #[trigger] names@.contains(name) <==> before.contains(name)
                        || exists|lower: nat| lower < bit + 1 && name == #[trigger] scalar_text(port.net@, width, lower) by {
                        if middle.contains(name) && !before.contains(name) {
                            let lower = choose|lower: nat|
                                lower < bit && name == #[trigger] scalar_text(port.net@, width, lower);
                            assert(name == scalar_text(port.net@, width, lower));
                        }
                    }
                }
                bit += 1;
            }
        }
        proof {
            assert forall|name: Seq<char>| #[trigger] names@.contains(name) <==> exists|port: int, bit: nat|
                port < index + 1 && #[trigger] is_port_bit(ports, widths, LogicalPortDirection::Input, port, bit, name) by {
                if before.contains(name) {
                    let (p, b) = choose|p: int, b: nat|
                        p < index && #[trigger] is_port_bit(ports, widths, LogicalPortDirection::Input, p, b, name);
                    assert(is_port_bit(ports, widths, LogicalPortDirection::Input, p, b, name));
                } else if names@.contains(name) {
                    let lower = choose|lower: nat|
                        lower < widths[port.net@] && name == #[trigger] scalar_text(port.net@, widths[port.net@], lower);
                    assert(is_port_bit(ports, widths, LogicalPortDirection::Input, index as int, lower, name));
                }
                if exists|p: int, b: nat|
                    p < index + 1 && #[trigger] is_port_bit(ports, widths, LogicalPortDirection::Input, p, b, name) {
                    let (p, b) = choose|p: int, b: nat|
                        p < index + 1 && #[trigger] is_port_bit(ports, widths, LogicalPortDirection::Input, p, b, name);
                    if p == index {
                        assert(name == scalar_text(port.net@, widths[port.net@], b));
                    }
                }
            }
        }
        index += 1;
    }
    proof {
        assert forall|name: Seq<char>| #[trigger] names@.contains(name) <==> is_input_bit(ports, widths, name) by {
            if is_input_bit(ports, widths, name) {
                let (p, b) = choose|p: int, b: nat| #[trigger]
                    is_port_bit(ports, widths, LogicalPortDirection::Input, p, b, name);
                assert(is_port_bit(ports, widths, LogicalPortDirection::Input, p, b, name));
            }
        }
    }
    Ok(names)
}

/// The nets that state cells drive.
fn state_net_names(module: &LogicalModule) -> (names: StringHashSet)
    ensures
        forall|net: Seq<char>| #[trigger] names@.contains(net) <==> is_state_net(module@.cells, net),
{
    let ghost cells = module@.cells;
    let mut names = StringHashSet::new();
    let mut index: usize = 0;
    while index < module.cells.len()
        invariant
            cells == module@.cells,
            index <= module.cells.len(),
            forall|net: Seq<char>| #[trigger] names@.contains(net) <==> state_net_before(cells, index as int, 0, net),
        decreases module.cells.len() - index,
    {
        let cell = &module.cells[index];
        assert(cells[index as int] == cell@);
        if cell.kind.is_sequential() {
            let mut output: usize = 0;
            while output < cell.outputs.len()
                invariant
                    index < cells.len(),
                    cells[index as int] == cell@,
                    kind_is_sequential(cell.kind),
                    output <= cell.outputs.len(),
                    forall|net: Seq<char>| #[trigger]
                        names@.contains(net) <==> state_net_before(cells, index as int, output as int, net),
                decreases cell.outputs.len() - output,
            {
                assert(cell@.outputs[output as int] == cell.outputs[output as int]@);
                let ghost before = names@;
                names.insert(cell.outputs[output].net.clone());
                proof {
                    assert forall|net: Seq<char>| #[trigger] names@.contains(net) <==> state_net_before(
                        cells,
                        index as int,
                        output + 1,
                        net,
                    ) by {
                        assert(before.contains(net) <==> state_net_before(cells, index as int, output as int, net));
                        assert(cells[index as int].outputs[output as int].net == cell.outputs[output as int].net@);
                    }
                }
                output += 1;
            }
        }
        proof {
            assert forall|net: Seq<char>| #[trigger] names@.contains(net) <==> state_net_before(
                cells,
                index + 1,
                0,
                net,
            ) by {
                let passed: int = if kind_is_sequential(cell.kind) { cell.outputs.len() as int } else { 0 };
                assert(names@.contains(net) <==> state_net_before(cells, index as int, passed, net));
            }
        }
        index += 1;
    }
    names
}

/// Whether a state cell before cell `count`, or one of the first `outputs`
/// outputs of that cell, drives `net`.
spec fn state_net_before(cells: Seq<CellView>, count: int, outputs: int, net: Seq<char>) -> bool {
    exists|i: int, o: int|
        {
            &&& 0 <= i < cells.len()
            &&& 0 <= o < cells[i].outputs.len()
            &&& i < count || i == count && o < outputs
            &&& kind_is_sequential(cells[i].kind)
            &&& (#[trigger] cells[i].outputs[o]).net == net
        }
}

/// The modules of the elements of the first `count` bits of a state cell.
pub open spec fn element_modules(
    cell: CellView,
    widths: Map<Seq<char>, usize>,
    count: nat,
) -> Seq<RoutableModuleView>
    decreases count,
{
    if count == 0 {
        Seq::empty()
    } else {
        let name = state_bit(cell, widths, (count - 1) as nat);
        element_modules(cell, widths, (count - 1) as nat) + (if state_edge(cell.kind) is Some {
            seq![
                leaf_module(name + "_clk_inv"@, not_clock_nodes()),
                leaf_module(name + "_master"@, d_latch_nodes()),
                leaf_module(name + "_slave"@, d_latch_nodes()),
            ]
        } else {
            seq![leaf_module(name + "_latch"@, d_latch_nodes())]
        })
    }
}

/// The modules of the elements of the first `count` state cells.
pub open spec fn all_element_modules(
    cells: Seq<CellView>,
    widths: Map<Seq<char>, usize>,
    live: Seq<int>,
    count: nat,
) -> Seq<RoutableModuleView>
    decreases count,
{
    if count == 0 {
        Seq::empty()
    } else {
        let cell = cells[live[count - 1]];
        all_element_modules(cells, widths, live, (count - 1) as nat) + element_modules(
            cell,
            widths,
            widths[state_net(cell)] as nat,
        )
    }
}

/// The leaves of the first `count` state cells.
pub open spec fn next_modules(leaves: Seq<NextLeaf>, count: nat) -> Seq<RoutableModuleView>
    decreases count,
{
    if count == 0 {
        Seq::empty()
    } else {
        next_modules(leaves, (count - 1) as nat) + module_views(leaves[count - 1].leaf.modules@)
    }
}

/// The names of some modules.
pub open spec fn module_names(modules: Seq<RoutableModuleView>) -> Seq<Seq<char>> {
    modules.map_values(|module: RoutableModuleView| module.name)
}

/// The links of the first `count` state cells.
pub open spec fn state_links(
    cells: Seq<CellView>,
    widths: Map<Seq<char>, usize>,
    live: Seq<int>,
    elements: Map<Seq<char>, Seq<char>>,
    leaves: Seq<NextLeaf>,
    count: nat,
) -> Set<Link>
    decreases count,
{
    if count == 0 {
        Set::empty()
    } else {
        let cell = cells[live[count - 1]];
        let next = leaves[count - 1];
        state_links(cells, widths, live, elements, leaves, (count - 1) as nat).union(
            leaf_links(next.leaf, elements, next.leaf.instances@.len()),
        ).union(element_links(cell, widths, elements, next.sources@, widths[state_net(cell)] as nat))
    }
}

/// The output side of a module with state: the cone of the outputs that no state
/// bit drives, its leaves, and what drives each output bit.
pub struct OutputSide {
    pub cone: BuilderView,
    pub leaf: Option<PartitionedLeaf>,
    pub wires: Seq<(Seq<char>, EndpointView)>,
}

/// What drives an output bit: a state element, a leaf of the output cone, or the
/// driver of a boundary net that the output repeats.
pub open spec fn is_output_wire(
    module: ModuleView,
    elements: Map<Seq<char>, Seq<char>>,
    side: OutputSide,
    wire: (Seq<char>, EndpointView),
) -> bool {
    let name = wire.0;
    if elements.contains_key(name) {
        wire.1 == EndpointView::InstancePort(elements[name], "q"@)
    } else {
        ||| {
            &&& side.leaf is Some
            &&& side.leaf->0.output_sources@.contains_key(name)
            &&& wire.1 == EndpointView::InstancePort(
                side.leaf->0.output_sources@[name].0@,
                side.leaf->0.output_sources@[name].1@,
            )
            &&& exists|j: int| is_requested_output(module, side.cone, name, j)
        }
        ||| exists|source: Seq<char>| #[trigger]
            scalar_driver(elements, source) == wire.1 && (is_clean_from(module, output_roots(module)) ==> side.cone.producers.contains_key(name)
                && side.cone.nodes[side.cone.producers[name] as int].kind == KindView::Input(source))
    }
}

/// Whether output `j` of the cone is the output bit `name`.
pub open spec fn is_requested_output(module: ModuleView, cone: BuilderView, name: Seq<char>, j: int) -> bool {
    &&& 0 <= j < cone.outputs.len()
    &&& cone.outputs[j].0 == name
    &&& is_clean_from(module, output_roots(module)) ==> cone.producers.contains_key(name) && cone.producers[name] == cone.outputs[j].1
}

/// What holds of the output side of a module with state.
pub open spec fn is_output_side<F: Fn(&Vec<GraphNode>) -> Result<usize, LowerError>>(
    module: ModuleView,
    elements: Map<Seq<char>, Seq<char>>,
    prepared_count: F,
    side: OutputSide,
) -> bool {
    let widths = net_widths(module.nets);
    &&& builder_wf(side.cone)
    &&& is_clean_from(module, output_roots(module)) ==> exists|emitted: Set<int>|
        cone_inv(logic_cells(module, output_roots(module)), widths, boundary_of(module), side.cone, emitted)
    &&& side.leaf is None <==> side.cone.outputs.len() == 0
    &&& side.leaf is Some ==> is_bounded_partition(
        side.cone,
        module.name + "_out"@,
        LEAF_NODE_BUDGET,
        prepared_count,
        side.leaf->0,
    )
    &&& forall|i: int|
        0 <= i < side.wires.len() ==> is_output_wire(module, elements, side, #[trigger] side.wires[i])
    &&& forall|index: int, bit: nat, name: Seq<char>| #[trigger]
        is_port_bit(module.ports, widths, LogicalPortDirection::Output, index, bit, name) ==> exists|i: int|
            0 <= i < side.wires.len() && (#[trigger] side.wires[i]).0 == name
    &&& forall|i: int|
        0 <= i < side.wires.len() ==> is_output_bit(module.ports, widths, (#[trigger] side.wires[i]).0)
}

/// The links of the first `count` output wires.
pub open spec fn wire_links(wires: Seq<(Seq<char>, EndpointView)>, count: nat) -> Set<Link>
    decreases count,
{
    if count == 0 {
        Set::empty()
    } else {
        wire_links(wires, (count - 1) as nat).insert(
            (wires[count - 1].1, EndpointView::SelfPort(wires[count - 1].0)),
        )
    }
}

/// The connections of the logic and the elements of the first `count` live state
/// cells.
pub open spec fn state_connections(
    cells: Seq<CellView>,
    widths: Map<Seq<char>, usize>,
    live: Seq<int>,
    elements: Map<Seq<char>, Seq<char>>,
    leaves: Seq<NextLeaf>,
    count: nat,
) -> Seq<Connection>
    decreases count,
{
    if count == 0 {
        Seq::empty()
    } else {
        let cell = cells[live[count - 1]];
        let next = leaves[count - 1];
        state_connections(cells, widths, live, elements, leaves, (count - 1) as nat) + leaf_connections(
            next.leaf,
            elements,
            next.leaf.instances@.len(),
        ) + element_connections(cell, widths, elements, next.sources@, widths[state_net(cell)] as nat)
    }
}

/// The connections to the output bits.
pub open spec fn wire_connections(wires: Seq<(Seq<char>, EndpointView)>, count: nat) -> Seq<Connection>
    decreases count,
{
    if count == 0 {
        Seq::empty()
    } else {
        wire_connections(wires, (count - 1) as nat).push(
            Connection {
                name: wires[count - 1].0,
                class: NetClass::Io,
                driver: wires[count - 1].1,
                sink: EndpointView::SelfPort(wires[count - 1].0),
            },
        )
    }
}

/// The connections to the inputs of the leaves of the output logic, if there is
/// any.
pub open spec fn side_connections(
    leaf: Option<PartitionedLeaf>,
    elements: Map<Seq<char>, Seq<char>>,
) -> Seq<Connection> {
    match leaf {
        Some(leaf) => leaf_connections(leaf, elements, leaf.instances@.len()),
        None => Seq::empty(),
    }
}

/// The connections of a module with state, in order.
pub open spec fn all_connections(module: ModuleView, parts: StateParts) -> Seq<Connection> {
    let widths = net_widths(module.nets);
    let live = live_cells(module, module.cells.len());
    let elements = elements_of(module.cells, widths, live, live.len());
    state_connections(module.cells, widths, live, elements, parts.leaves, live.len()) + side_connections(
        parts.side.leaf,
        elements,
    ) + wire_connections(parts.side.wires, parts.side.wires.len())
}

/// A module with state, taken apart.
pub struct StateParts {
    pub cones: Seq<BuilderView>,
    pub bits: Seq<Seq<usize>>,
    pub leaves: Seq<NextLeaf>,
    pub side: OutputSide,
}

/// The links of a module with state.
pub open spec fn all_links(module: ModuleView, parts: StateParts) -> Set<Link> {
    let widths = net_widths(module.nets);
    let live = live_cells(module, module.cells.len());
    let elements = elements_of(module.cells, widths, live, live.len());
    state_links(module.cells, widths, live, elements, parts.leaves, live.len()).union(
        match parts.side.leaf {
            Some(leaf) => leaf_links(leaf, elements, leaf.instances@.len()),
            None => Set::empty(),
        },
    ).union(wire_links(parts.side.wires, parts.side.wires.len()))
}

/// The leaves of a module with state: those of the logic of each state cell,
/// the elements, and those of the output logic.
pub open spec fn all_leaves(module: ModuleView, parts: StateParts) -> Seq<RoutableModuleView> {
    let widths = net_widths(module.nets);
    let live = live_cells(module, module.cells.len());
    next_modules(parts.leaves, live.len()) + all_element_modules(module.cells, widths, live, live.len()) + (
    match parts.side.leaf {
        Some(leaf) => module_views(leaf.modules@),
        None => Seq::empty(),
    })
}

/// The parts belong to the live state cells and the outputs of the module.
pub open spec fn are_parts<F: Fn(&Vec<GraphNode>) -> Result<usize, LowerError>>(
    module: ModuleView,
    policy: MappingPolicy,
    prepared_count: F,
    parts: StateParts,
) -> bool {
    let widths = net_widths(module.nets);
    let live = live_cells(module, module.cells.len());
    &&& parts.cones.len() == live.len()
    &&& parts.bits.len() == live.len()
    &&& parts.leaves.len() == live.len()
    &&& forall|i: int|
        0 <= i < live.len() ==> {
            let cell = module.cells[live[i]];
            &&& plan_error(cell, widths) is None
            &&& is_next_cone(module, widths, cell, #[trigger] parts.cones[i], parts.bits[i])
            &&& is_next_leaf(prepared_count, cell, parts.cones[i], parts.bits[i], parts.leaves[i])
            &&& is_allowed_cone(parts.cones[i].nodes, policy)
            &&& wire_error(
                cell,
                widths,
                elements_of(module.cells, widths, live, live.len()),
                input_names(module),
                parts.leaves[i],
            ) is None
        }
    &&& is_allowed_cone(parts.side.cone.nodes, policy)
    &&& parts.side.leaf matches Some(leaf) ==> leaf_unresolved(
        leaf,
        elements_of(module.cells, widths, live, live.len()),
        input_names(module),
        leaf.instances@.len(),
    ) is None
    &&& is_output_side(
        module,
        elements_of(module.cells, widths, live, live.len()),
        prepared_count,
        parts.side,
    )
}

/// Whether an input bit is there for a reason: it drives something, or a cone
/// declares it.
pub open spec fn is_use_explained(parts: StateParts, links: Set<Link>, name: Seq<char>) -> bool {
    ||| self_driven(links, name)
    ||| exists|i: int| 0 <= i < parts.cones.len() && (#[trigger] parts.cones[i]).producers.contains_key(name)
    ||| parts.side.cone.producers.contains_key(name)
}

/// `design` is what a module with state is lowered to.
pub open spec fn is_lowered_state<F: Fn(&Vec<GraphNode>) -> Result<usize, LowerError>>(
    module: ModuleView,
    target: TargetView,
    policy: MappingPolicy,
    prepared_count: F,
    design: RoutableDesign,
) -> bool {
    exists|parts: StateParts, used: Set<Seq<char>>, nets: Seq<RoutableNetView>| #[trigger]
        is_state_design(module, target, policy, prepared_count, design, parts, used, nets)
}

/// `design` is a composite of the leaves of a module with state, whose nets make
/// the module's links.
pub open spec fn is_state_design<F: Fn(&Vec<GraphNode>) -> Result<usize, LowerError>>(
    module: ModuleView,
    target: TargetView,
    policy: MappingPolicy,
    prepared_count: F,
    design: RoutableDesign,
    parts: StateParts,
    used: Set<Seq<char>>,
    nets: Seq<RoutableNetView>,
) -> bool {
    let widths = net_widths(module.nets);
    let leaves = all_leaves(module, parts);
    let top = composite_view(module.name, filtered_ports(module.ports, widths, used), module_names(leaves), nets);
    &&& are_parts(module, policy, prepared_count, parts)
    &&& forall|driver: EndpointView, sink: EndpointView| #[trigger]
        connects(nets, driver, sink) <==> all_links(module, parts).contains((driver, sink))
    &&& forall|i: int, j: int| 0 <= i < j < nets.len() ==> (#[trigger] nets[i]).name != (#[trigger] nets[j]).name
    &&& is_finished(all_connected(all_connections(module, parts)), nets)
    &&& forall|name: Seq<char>| #[trigger] self_driven(all_links(module, parts), name) ==> used.contains(name)
    &&& forall|name: Seq<char>| #[trigger]
        used.contains(name) ==> is_use_explained(parts, all_links(module, parts), name)
    &&& is_design_of(module.name, target.name, leaves.push(top), design)
}

/// Why a module with state cannot be lowered: the first of its defects.
pub open spec fn is_state_refused<F: Fn(&Vec<GraphNode>) -> Result<usize, LowerError>>(
    module: ModuleView,
    target: TargetView,
    policy: MappingPolicy,
    prepared_count: F,
    error: LowerError,
) -> bool {
    &&& is_state_defect(module, target, policy, prepared_count, error)
    &&& is_first_state_defect(Job { module, target, policy }, prepared_count, error)
}

/// Whether a module with state is lowered to a design that is not valid.
pub open spec fn is_state_invalid<
    F: Fn(&Vec<GraphNode>) -> Result<usize, LowerError>,
    V: Fn(&RoutableDesign) -> Result<(), String>,
>(
    module: ModuleView,
    target: TargetView,
    policy: MappingPolicy,
    prepared_count: F,
    validate: V,
    error: LowerError,
) -> bool {
    &&& is_without_defect((Job { module, target, policy }))
    &&& exists|design: RoutableDesign| #[trigger]
        is_lowered_state(module, target, policy, prepared_count, design) && is_invalid_design(validate, design, error)
}

/// What can be wrong with a module with state.
pub open spec fn is_state_defect<F: Fn(&Vec<GraphNode>) -> Result<usize, LowerError>>(
    module: ModuleView,
    target: TargetView,
    policy: MappingPolicy,
    prepared_count: F,
    error: LowerError,
) -> bool {
    let widths = net_widths(module.nets);
    let live = live_cells(module, module.cells.len());
    ||| !target.ops.contains(TargetOp::DLatch) && error@ == ErrorView::Unsupported(target.name, TargetOp::DLatch)
    ||| is_next_error(module, target, policy, prepared_count, error)
    ||| exists|index: int|
        {
            &&& 0 <= index < module.cells.len()
            &&& kind_is_sequential(module.cells[index].kind)
            &&& is_live_name(module, module.cells[index].name)
            &&& #[trigger] plan_error(module.cells[index], widths) == Some(error@)
        }
    ||| is_net_error(module, error@)
    ||| is_output_error(module, elements_of(module.cells, widths, live, live.len()), error@)
    ||| exists|cone: BuilderView| #[trigger]
        is_output_cone(module, elements_of(module.cells, widths, live, live.len()), cone) && is_partition_error(cone, LEAF_NODE_BUDGET, prepared_count, error)
}

/// The nets of the output ports.
pub open spec fn output_roots(module: ModuleView) -> Set<Seq<char>> {
    Set::new(
        |net: Seq<char>|
            exists|i: int|
                0 <= i < module.ports.len() && (#[trigger] module.ports[i]).direction is Output
                    && module.ports[i].net == net,
    )
}

/// The nets of the output ports are asked for.
proof fn outputs_are_wanted(module: ModuleView)
    ensures
        are_wanted(module, output_roots(module)),
{
    assert forall|net: Seq<char>| #[trigger] output_roots(module).contains(net) implies is_wanted(module, net) by {
        assert(is_root(module, net));
        root_is_wanted(module, net);
    }
}

/// Whether a cone is the logic of the outputs of a module that are not state bits:
/// it reads only what logic reads from outside, and where every net has one driver
/// each of its nodes is what a cell of the module comes to.
pub open spec fn is_output_cone(module: ModuleView, elements: Map<Seq<char>, Seq<char>>, cone: BuilderView) -> bool {
    let widths = net_widths(module.nets);
    &&& builder_wf(cone)
    &&& inputs_known(module, cone.nodes)
    &&& is_clean_from(module, output_roots(module)) ==> exists|emitted: Set<int>|
        super::cone::cone_inv(logic_cells(module, output_roots(module)), widths, boundary_of(module), cone, emitted)
    &&& exists|names: Seq<Seq<char>>| #[trigger]
        are_leaf_outputs(module, cone, names) && forall|i: int|
            0 <= i < names.len() ==> is_output_bit(module.ports, widths, #[trigger] names[i])
                && !elements.contains_key(names[i])
}

/// Whether a bit of the output port of some name is not a lowered state bit.
pub open spec fn is_missing_output(
    module: ModuleView,
    elements: Map<Seq<char>, Seq<char>>,
    index: int,
    bit: nat,
    name: Seq<char>,
    port: Seq<char>,
) -> bool {
    &&& is_port_bit(module.ports, net_widths(module.nets), LogicalPortDirection::Output, index, bit, name)
    &&& module.ports[index].name == port
    &&& !elements.contains_key(name)
}

/// Whether what drives an output or is read from outside is not there: a state bit
/// that is not lowered, or a net without a driver.
pub open spec fn is_output_error(module: ModuleView, elements: Map<Seq<char>, Seq<char>>, error: ErrorView) -> bool {
    match error {
        ErrorView::UnresolvedSource(name) => {
            &&& is_read_bit(module, name)
            &&& !elements.contains_key(name)
            &&& !is_input_bit(module.ports, net_widths(module.nets), name)
        },
        ErrorView::NoProducer(port) => is_output_undriven(module, elements, port),
        ErrorView::StateNotLowered(port) => is_output_dead(module, elements, port),
        _ => false,
    }
}

/// Whether no cell drives an output port of some name.
pub open spec fn is_output_undriven(
    module: ModuleView,
    elements: Map<Seq<char>, Seq<char>>,
    port: Seq<char>,
) -> bool {
    exists|index: int, bit: nat, name: Seq<char>|
        {
            &&& #[trigger] is_missing_output(module, elements, index, bit, name, port)
            &&& driver_index(module.cells, module.ports[index].net) is None
        }
}

/// Whether a state cell that is not lowered drives an output port of some name.
pub open spec fn is_output_dead(module: ModuleView, elements: Map<Seq<char>, Seq<char>>, port: Seq<char>) -> bool {
    exists|index: int, bit: nat, name: Seq<char>|
        {
            &&& #[trigger] is_missing_output(module, elements, index, bit, name, port)
            &&& driver_index(module.cells, module.ports[index].net) is Some
            &&& kind_is_sequential(module.cells[driver_index(module.cells, module.ports[index].net)->0].kind)
        }
}

/// What drives an output bit.
struct OutputWire {
    name: String,
    driver: Endpoint,
}

/// The contents of a list of wires.
spec fn wire_views(wires: Seq<OutputWire>) -> Seq<(Seq<char>, EndpointView)> {
    wires.map_values(|wire: OutputWire| (wire.name@, wire.driver@))
}

/// Wires that need no leaf: each carries a state bit, or repeats the boundary
/// net `sources[i]`.
spec fn are_direct_wires(
    module: ModuleView,
    elements: Map<Seq<char>, Seq<char>>,
    cone: BuilderView,
    wires: Seq<(Seq<char>, EndpointView)>,
    sources: Seq<Seq<char>>,
) -> bool {
    &&& sources.len() == wires.len()
    &&& forall|i: int|
        0 <= i < wires.len() ==> if elements.contains_key((#[trigger] wires[i]).0) {
            wires[i].1 == EndpointView::InstancePort(elements[wires[i].0], "q"@)
        } else {
            &&& wires[i].1 == scalar_driver(elements, sources[i])
            &&& is_clean_from(module, output_roots(module)) ==> cone.producers.contains_key(wires[i].0) && cone.producers[wires[i].0]
                < cone.nodes.len() && cone.nodes[cone.producers[wires[i].0] as int].kind == KindView::Input(sources[i])
        }
}

/// Whether the boundary nets that wires repeat are state bits or input bits.
spec fn are_sources_known(
    elements: Map<Seq<char>, Seq<char>>,
    input_scalars: Set<Seq<char>>,
    wires: Seq<(Seq<char>, EndpointView)>,
    sources: Seq<Seq<char>>,
) -> bool {
    forall|i: int|
        0 <= i < wires.len() && !elements.contains_key((#[trigger] wires[i]).0) ==> source_error(
            elements,
            input_scalars,
            sources[i],
        ) is None
}

/// Outputs that a leaf will drive.
pub open spec fn are_leaf_outputs(module: ModuleView, cone: BuilderView, names: Seq<Seq<char>>) -> bool {
    &&& cone.outputs.len() == names.len()
    &&& forall|j: int|
        0 <= j < names.len() ==> {
            &&& (#[trigger] cone.outputs[j]).0 == names[j]
            &&& cone.outputs[j].1 < cone.nodes.len()
            &&& !(cone.nodes[cone.outputs[j].1 as int].kind is Input)
            &&& is_clean_from(module, output_roots(module)) ==> cone.producers.contains_key(names[j]) && cone.producers[names[j]]
                == cone.outputs[j].1
        }
}

/// Direct wires and leaf outputs stay right while the cone grows.
proof fn outputs_stay(
    module: ModuleView,
    elements: Map<Seq<char>, Seq<char>>,
    before: BuilderView,
    after: BuilderView,
    wires: Seq<(Seq<char>, EndpointView)>,
    sources: Seq<Seq<char>>,
    names: Seq<Seq<char>>,
)
    requires
        are_direct_wires(module, elements, before, wires, sources),
        are_leaf_outputs(module, before, names),
        extends_nodes(before.nodes, after.nodes),
        after.outputs == before.outputs,
        is_clean_from(module, output_roots(module)) ==> forall|name: Seq<char>| #[trigger]
            before.producers.contains_key(name) ==> after.producers.contains_key(name) && after.producers[name]
                == before.producers[name],
    ensures
        are_direct_wires(module, elements, after, wires, sources),
        are_leaf_outputs(module, after, names),
{
    assert forall|i: int| 0 <= i < wires.len() implies if elements.contains_key((#[trigger] wires[i]).0) {
        wires[i].1 == EndpointView::InstancePort(elements[wires[i].0], "q"@)
    } else {
        &&& wires[i].1 == scalar_driver(elements, sources[i])
        &&& is_clean_from(module, output_roots(module)) ==> after.producers.contains_key(wires[i].0) && after.producers[wires[i].0]
            < after.nodes.len() && after.nodes[after.producers[wires[i].0] as int].kind == KindView::Input(sources[i])
    } by {
        if is_clean_from(module, output_roots(module)) && !elements.contains_key(wires[i].0) {
            assert(before.producers.contains_key(wires[i].0));
        }
    }
}

/// The name of a bit is among the wires or the leaf outputs.
spec fn is_covered(wires: Seq<(Seq<char>, EndpointView)>, names: Seq<Seq<char>>, name: Seq<char>) -> bool {
    ||| exists|i: int| 0 <= i < wires.len() && (#[trigger] wires[i]).0 == name
    ||| exists|j: int| 0 <= j < names.len() && #[trigger] names[j] == name
}

/// Whether every wire and leaf output is an output bit.
spec fn are_output_bits(
    ports: Seq<PortView>,
    widths: Map<Seq<char>, usize>,
    wires: Seq<(Seq<char>, EndpointView)>,
    names: Seq<Seq<char>>,
) -> bool {
    &&& forall|i: int|
        0 <= i < wires.len() ==> is_output_bit(ports, widths, (#[trigger] wires[i]).0)
    &&& forall|j: int| 0 <= j < names.len() ==> is_output_bit(ports, widths, #[trigger] names[j])
}

/// Whether `name` is a bit of an output port.
pub open spec fn is_output_bit(ports: Seq<PortView>, widths: Map<Seq<char>, usize>, name: Seq<char>) -> bool {
    exists|index: int, bit: nat| #[trigger]
        is_port_bit(ports, widths, LogicalPortDirection::Output, index, bit, name)
}

/// Whether the uses of input bits come from the cone or from waiting wires.
spec fn uses_follow(
    before: Set<Seq<char>>,
    after: Set<Seq<char>>,
    cone: BuilderView,
    wires: Seq<(Seq<char>, EndpointView)>,
) -> bool {
    &&& forall|name: Seq<char>| #[trigger] before.contains(name) ==> after.contains(name)
    &&& forall|name: Seq<char>| #[trigger]
        after.contains(name) ==> {
            ||| before.contains(name)
            ||| cone.producers.contains_key(name)
            ||| exists|i: int| 0 <= i < wires.len() && (#[trigger] wires[i]).1 == EndpointView::SelfPort(name)
        }
    &&& forall|i: int|
        0 <= i < wires.len() && (#[trigger] wires[i]).1 is SelfPort ==> after.contains(wires[i].1->SelfPort_0)
}

/// Adding wires covers more.
proof fn covered_stays(
    wires: Seq<(Seq<char>, EndpointView)>,
    names: Seq<Seq<char>>,
    more_wires: Seq<(Seq<char>, EndpointView)>,
    more_names: Seq<Seq<char>>,
)
    requires
        wires.len() <= more_wires.len(),
        names.len() <= more_names.len(),
        forall|i: int| 0 <= i < wires.len() ==> #[trigger] more_wires[i] == wires[i],
        forall|j: int| 0 <= j < names.len() ==> #[trigger] more_names[j] == names[j],
    ensures
        forall|name: Seq<char>| #[trigger] is_covered(wires, names, name) ==> is_covered(more_wires, more_names, name),
{
    assert forall|name: Seq<char>| #[trigger] is_covered(wires, names, name) implies is_covered(
        more_wires,
        more_names,
        name,
    ) by {
        if exists|i: int| 0 <= i < wires.len() && (#[trigger] wires[i]).0 == name {
            let i = choose|i: int| 0 <= i < wires.len() && (#[trigger] wires[i]).0 == name;
            assert(more_wires[i].0 == name);
        } else {
            let j = choose|j: int| 0 <= j < names.len() && #[trigger] names[j] == name;
            assert(more_names[j] == name);
        }
    }
}

/// What the output ports need: wires that are ready, and a cone whose outputs
/// leaves will drive.
struct PendingOutputs {
    wires: Vec<OutputWire>,
    names: Vec<String>,
    builder: LeafBuilder,
}

/// Finds what drives each output bit and expands the logic of those that no
/// state bit drives.
fn collect_outputs<'a>(
    emitter: &ConeEmitter<'a>,
    elements: &Elements,
    input_scalars: &StringHashSet,
    wiring: &mut Wiring,
    Ghost(rank): Ghost<spec_fn(Seq<char>) -> Option<nat>>,
) -> (result: Result<(PendingOutputs, Ghost<Seq<Seq<char>>>, Ghost<Set<int>>), LowerError>)
    requires
        emitter.wf(),
        is_rank(emitter.module@, rank),
        is_reaching(emitter.module@, rank),
        old(wiring).wf(),
        forall|name: Seq<char>| #[trigger]
            input_scalars@.contains(name) <==> is_input_bit(emitter.module@.ports, emitter.nets@, name),
    ensures
        match result {
            Ok((pending, sources, emitted)) => {
                let wires = wire_views(pending.wires@);
                let names = texts(pending.names@);
                &&& side_error(emitter.job(), elements@) is None
                &&& forall|i: int|
                    0 <= i < emitter.module@.ports.len() && (#[trigger] emitter.module@.ports[i]).direction is Output
                        ==> emitter.nets@.contains_key(emitter.module@.ports[i].net)
                &&& final(wiring).wf()
                &&& final(wiring).links() == old(wiring).links()
                &&& final(wiring).asked@ == old(wiring).asked@
                &&& pending.builder.wf()
                &&& inputs_known(emitter.module@, pending.builder@.nodes)
                &&& is_allowed_cone(pending.builder@.nodes, *emitter.policy)
                &&& emitter.cone_holds(output_roots(emitter.module@), pending.builder@, emitted@)
                &&& are_direct_wires(emitter.module@, elements@, pending.builder@, wires, sources@)
                &&& are_leaf_outputs(emitter.module@, pending.builder@, names)
                &&& are_output_bits(emitter.module@.ports, emitter.nets@, wires, names)
                &&& forall|name: Seq<char>| #[trigger]
                    is_output_bit(emitter.module@.ports, emitter.nets@, name) ==> is_covered(wires, names, name)
                &&& uses_follow(old(wiring).used@, final(wiring).used@, pending.builder@, wires)
                &&& forall|j: int| 0 <= j < names.len() ==> !elements@.contains_key(#[trigger] names[j])
            },
            Err(error) => {
                &&& side_error(emitter.job(), elements@) == Some(error@) || is_wire_refused(
                    emitter.job(),
                    elements@,
                    error@,
                )
                &&& {
                    ||| is_cone_error(emitter.module@, emitter.target@, *emitter.policy, error@)
                    ||| is_cell_error(emitter.module@, emitter.target@, *emitter.policy, error@)
                    ||| error@ is LostNet && !is_clean(emitter.module@)
                    ||| is_net_error(emitter.module@, error@)
                    ||| is_output_error(emitter.module@, elements@, error@)
                }
            },
        },
{
    let ghost module = emitter.module@;
    let ghost ports = module.ports;
    let ghost widths = emitter.nets@;
    let ghost start = wiring.used@;
    let mut builder = LeafBuilder::new();
    let mut wires: Vec<OutputWire> = Vec::new();
    let mut names: Vec<String> = Vec::new();
    let ghost mut sources = Seq::<Seq<char>>::empty();
    let ghost mut emitted = Set::<int>::empty();
    let ghost job = emitter.job();
    let ghost mut fuel = 0nat;
    assert(builder@.producers.dom() =~= Set::empty());
    let mut index: usize = 0;
    while index < emitter.module.ports.len()
        invariant
            emitter.wf(),
            module == emitter.module@,
            ports == module.ports,
            widths == emitter.nets@,
            job == emitter.job(),
            expand_outputs(job, fuel, elements@, index as nat) == Some(
                Ok::<Set<Seq<char>>, ErrorView>(builder@.producers.dom()),
            ),
            forall|i: int|
                0 <= i < index && (#[trigger] ports[i]).direction is Output ==> widths.contains_key(ports[i].net),
            is_rank(module, rank),
            is_reaching(module, rank),
            start == old(wiring).used@,
            wiring.wf(),
            wiring.links() == old(wiring).links(),
            wiring.asked@ == old(wiring).asked@,
            forall|name: Seq<char>| #[trigger] input_scalars@.contains(name) <==> is_input_bit(ports, widths, name),
            index <= emitter.module.ports.len(),
            builder.wf(),
            inputs_known(module, builder@.nodes),
            is_allowed_cone(builder@.nodes, *emitter.policy),
            emitter.cone_holds(output_roots(emitter.module@), builder@, emitted),
            are_direct_wires(module, elements@, builder@, wire_views(wires@), sources),
            are_leaf_outputs(module, builder@, texts(names@)),
            are_sources_known(elements@, input_scalars@, wire_views(wires@), sources),
            are_output_bits(ports, widths, wire_views(wires@), texts(names@)),
            uses_follow(start, wiring.used@, builder@, wire_views(wires@)),
            forall|j: int| 0 <= j < names.len() ==> !elements@.contains_key(#[trigger] texts(names@)[j]),
            forall|port: int, bit: nat, name: Seq<char>|
                port < index && #[trigger] is_port_bit(ports, widths, LogicalPortDirection::Output, port, bit, name)
                    ==> is_covered(wire_views(wires@), texts(names@), name),
        decreases emitter.module.ports.len() - index,
    {
        let port = &emitter.module.ports[index];
        assert(ports[index as int] == port@);
        if matches!(port.direction, LogicalPortDirection::Output) {
            assert(is_root(module, ports[index as int].net));
            proof {
                root_is_wanted(module, ports[index as int].net);
            }
            let width: usize = match emitter.nets.width(port.net.as_str()) {
                Ok(width) => width,
                Err(error) => {
                    proof {
                        expand_outputs_stops(job, fuel, elements@, (index + 1) as nat, ports.len());
                        side_error_is(job, fuel, elements@);
                    }
                    return Err(error);
                },
            };
            let ghost earlier = builder@.producers.dom();
            let mut bit: usize = 0;
            while bit < width
                invariant
                    emitter.wf(),
                    module == emitter.module@,
                    ports == module.ports,
                    widths == emitter.nets@,
                    job == emitter.job(),
                    expand_outputs(job, fuel, elements@, index as nat) == Some(
                        Ok::<Set<Seq<char>>, ErrorView>(earlier),
                    ),
                    expand_port(job, fuel, elements@, index as int, bit as nat, earlier) == Some(
                        Ok::<Set<Seq<char>>, ErrorView>(builder@.producers.dom()),
                    ),
                    is_rank(module, rank),
                    is_reaching(module, rank),
                    start == old(wiring).used@,
                    wiring.wf(),
                    wiring.links() == old(wiring).links(),
                    wiring.asked@ == old(wiring).asked@,
                    forall|name: Seq<char>| #[trigger]
                        input_scalars@.contains(name) <==> is_input_bit(ports, widths, name),
                    index < ports.len(),
                    ports[index as int] == port@,
                    port.direction == LogicalPortDirection::Output,
                    widths.contains_key(port.net@),
                    width == widths[port.net@],
                    bit <= width,
                    builder.wf(),
                    inputs_known(module, builder@.nodes),
                    is_allowed_cone(builder@.nodes, *emitter.policy),
                    is_wanted(module, port.net@),
                    emitter.cone_holds(output_roots(emitter.module@), builder@, emitted),
                    are_direct_wires(module, elements@, builder@, wire_views(wires@), sources),
                    are_leaf_outputs(module, builder@, texts(names@)),
                    are_sources_known(elements@, input_scalars@, wire_views(wires@), sources),
                    are_output_bits(ports, widths, wire_views(wires@), texts(names@)),
                    uses_follow(start, wiring.used@, builder@, wire_views(wires@)),
                    forall|j: int| 0 <= j < names.len() ==> !elements@.contains_key(#[trigger] texts(names@)[j]),
                    forall|port: int, bit: nat, name: Seq<char>|
                        port < index && #[trigger] is_port_bit(ports, widths, LogicalPortDirection::Output, port, bit, name)
                            ==> is_covered(wire_views(wires@), texts(names@), name),
                    forall|lower: nat|
                        lower < bit ==> is_covered(
                            wire_views(wires@),
                            texts(names@),
                            #[trigger] scalar_text(port.net@, width, lower),
                        ),
                decreases width - bit,
            {
                let scalar = scalar_name(port.net.as_str(), width, bit);
                let ghost name = scalar@;
                let ghost wires_before = wire_views(wires@);
                let ghost names_before = texts(names@);
                let ghost sources_before = sources;
                assert(is_port_bit(ports, widths, LogicalPortDirection::Output, index as int, bit as nat, name));
                assert(is_output_bit(ports, widths, name));
                match elements.get(scalar.as_str()) {
                    Some(element) => {
                        let driver = instance_port(element.as_str(), "q");
                        wires.push(OutputWire { name: scalar, driver });
                        proof {
                            sources = sources.push(name);
                            assert(wire_views(wires@) =~= wires_before.push((name, scalar_driver(elements@, name))));
                            assert forall|i: int| 0 <= i < wires_before.len() implies #[trigger] wire_views(wires@)[i]
                                == wires_before[i] by {}
                        }
                    },
                    None => {
                        assert(is_missing_output(module, elements@, index as int, bit as nat, name, port.name@));
                        let driver_cell: usize = match emitter.driver_of.get(port.net.as_str()) {
                            Some(driver_cell) => *driver_cell,
                            None => {
                                assert(is_output_undriven(module, elements@, port.name@));
                                proof {
                                    expand_port_stops(
                                        job,
                                        fuel,
                                        elements@,
                                        index as int,
                                        (bit + 1) as nat,
                                        width as nat,
                                        earlier,
                                    );
                                    expand_outputs_stops(job, fuel, elements@, (index + 1) as nat, ports.len());
                                    side_error_is(job, fuel, elements@);
                                }
                                return Err(LowerError::NoProducer(port.name.clone()));
                            },
                        };
                        proof {
                            super::liveness::driver_index_drives(module.cells, port.net@);
                            assert(module.cells[driver_cell as int] == emitter.module.cells[driver_cell as int]@);
                        }
                        if emitter.module.cells[driver_cell].kind.is_sequential() {
                            assert(is_output_dead(module, elements@, port.name@));
                            proof {
                                expand_port_stops(
                                    job,
                                    fuel,
                                    elements@,
                                    index as int,
                                    (bit + 1) as nat,
                                    width as nat,
                                    earlier,
                                );
                                expand_outputs_stops(job, fuel, elements@, (index + 1) as nat, ports.len());
                                side_error_is(job, fuel, elements@);
                            }
                            return Err(LowerError::StateNotLowered(port.name.clone()));
                        }
                        let ghost before = builder@;
                        let ghost used_before = wiring.used@;
                        let ghost names_now = builder@.producers.dom();
                        proof {
                            outputs_are_wanted(module);
                            root_is_wanted_from(module, output_roots(module), port.net@);
                        }
                        let (result, Ghost(after)) = emitted_node(
                            emitter,
                            &port.net,
                            bit,
                            &mut builder,
                            &mut wiring.used,
                            Ghost(output_roots(module)),
                            Ghost(rank),
                            Ghost(emitted),
                        );
                        proof {
                            let own = rank(port.net@)->0 + 1;
                            let more = if fuel < own { own } else { fuel };
                            expand_outputs_deeper(job, fuel, more, elements@, index as nat);
                            expand_port_deeper(job, fuel, more, elements@, index as int, bit as nat, earlier);
                            expand_node_deeper(job, own, more, port.net@, bit, names_now);
                            fuel = more;
                        }
                        let producer: usize = match result {
                            Ok(producer) => producer,
                            Err(error) => {
                                proof {
                                    expand_port_stops(
                                        job,
                                        fuel,
                                        elements@,
                                        index as int,
                                        (bit + 1) as nat,
                                        width as nat,
                                        earlier,
                                    );
                                    expand_outputs_stops(job, fuel, elements@, (index + 1) as nat, ports.len());
                                    side_error_is(job, fuel, elements@);
                                }
                                return Err(error);
                            },
                        };
                        proof {
                            assert(wiring.links() =~= old(wiring).links());
                            emitted = after;
                            outputs_stay(module, elements@, before, builder@, wires_before, sources, names_before);
                            builder.wf_gives();
                        }
                        let ghost middle = builder@;
                        match builder.input_name(producer) {
                            Some(source) => {
                                let ghost source_view = source@;
                                assert(builder@.nodes[producer as int].kind == KindView::Input(source_view));
                                assert(is_read_bit(module, source_view));
                                let driver = match wiring.endpoint_for_scalar(source, elements, input_scalars) {
                                    Ok(driver) => driver,
                                    Err(error) => {
                                        proof {
                                            assert(reaches_output(job, fuel, elements@, index as int, bit as nat));
                                            assert(input_scalars@ =~= input_names(module));
                                            assert(repeats_source(middle, name, source_view));
                                            assert(are_wires_before(job, elements@, index as int, bit as nat, middle) || !is_clean_from(module, output_roots(module))) by {
                                                if is_clean_from(module, output_roots(module)) {
                                                    earlier_wires_hold(
                                                        job,
                                                        elements@,
                                                        middle,
                                                        wires_before,
                                                        sources,
                                                        names_before,
                                                        index as int,
                                                        bit as nat,
                                                    );
                                                }
                                            }
                                            assert(is_wire_cone(
                                                job,
                                                elements@,
                                                index as int,
                                                bit as nat,
                                                middle,
                                                source_view,
                                            ));
                                        }
                                        return Err(error);
                                    },
                                };
                                wires.push(OutputWire { name: scalar, driver });
                                proof {
                                    sources = sources.push(source_view);
                                    assert(wire_views(wires@) =~= wires_before.push(
                                        (name, scalar_driver(elements@, source_view)),
                                    ));
                                    assert forall|i: int| 0 <= i < wires_before.len() implies #[trigger] wire_views(wires@)[i]
                                        == wires_before[i] by {}
                                    assert(wire_views(wires@)[wires_before.len() as int].1 == scalar_driver(
                                        elements@,
                                        source_view,
                                    ));
                                }
                            },
                            None => {
                                builder.add_output(scalar.as_str(), producer);
                                names.push(scalar);
                                proof {
                                    assert(texts(names@) =~= names_before.push(name));
                                    assert forall|j: int| 0 <= j < names_before.len() implies #[trigger] texts(names@)[j]
                                        == names_before[j] by {}
                                    assert forall|j: int| 0 <= j < texts(names@).len() implies {
                                        &&& (#[trigger] builder@.outputs[j]).0 == texts(names@)[j]
                                        &&& builder@.outputs[j].1 < builder@.nodes.len()
                                        &&& !(builder@.nodes[builder@.outputs[j].1 as int].kind is Input)
                                        &&& is_clean_from(module, output_roots(module)) ==> builder@.producers.contains_key(texts(names@)[j])
                                            && builder@.producers[texts(names@)[j]] == builder@.outputs[j].1
                                    } by {
                                        if j < names_before.len() {
                                            assert(middle.outputs[j] == builder@.outputs[j]);
                                        }
                                    }
                                    if is_clean_from(module, output_roots(module)) {
                                        growth_keeps_cone(
                                            logic_cells(module, output_roots(module)),
                                            widths,
                                            boundary_of(module),
                                            middle,
                                            builder@,
                                            emitted,
                                        );
                                    }
                                }
                            },
                        }
                    },
                }
                proof {
                    let now_wires = wire_views(wires@);
                    let now_names = texts(names@);
                    covered_stays(wires_before, names_before, now_wires, now_names);
                    assert(is_covered(now_wires, now_names, name)) by {
                        if now_wires.len() > wires_before.len() {
                            assert(now_wires[wires_before.len() as int].0 == name);
                        } else {
                            assert(now_names[names_before.len() as int] == name);
                        }
                    }
                    assert forall|i: int| 0 <= i < now_wires.len() implies is_output_bit(
                        ports,
                        widths,
                        (#[trigger] now_wires[i]).0,
                    ) by {
                        if i < wires_before.len() {
                            assert(now_wires[i] == wires_before[i]);
                        }
                    }
                    assert forall|j: int| 0 <= j < now_names.len() implies is_output_bit(
                        ports,
                        widths,
                        #[trigger] now_names[j],
                    ) by {
                        if j < names_before.len() {
                            assert(now_names[j] == names_before[j]);
                        }
                    }
                    assert forall|j: int| 0 <= j < now_names.len() implies !elements@.contains_key(#[trigger] now_names[j]) by {
                        if j < names_before.len() {
                            assert(now_names[j] == names_before[j]);
                        }
                    }
                    assert forall|lower: nat| lower < bit + 1 implies is_covered(
                        now_wires,
                        now_names,
                        #[trigger] scalar_text(port.net@, width, lower),
                    ) by {
                        if lower < bit {
                            assert(is_covered(wires_before, names_before, scalar_text(port.net@, width, lower)));
                        }
                    }
                    assert forall|other: int, bit: nat, name: Seq<char>|
                        other < index && #[trigger] is_port_bit(ports, widths, LogicalPortDirection::Output, other, bit, name)
                        implies is_covered(now_wires, now_names, name) by {
                        assert(is_covered(wires_before, names_before, name));
                    }
                    assert forall|name: Seq<char>| #[trigger] wiring.used@.contains(name) implies {
                        ||| start.contains(name)
                        ||| builder@.producers.contains_key(name)
                        ||| exists|i: int| 0 <= i < now_wires.len() && (#[trigger] now_wires[i]).1 == EndpointView::SelfPort(name)
                    } by {
                        if exists|i: int|
                            0 <= i < wires_before.len() && (#[trigger] wires_before[i]).1 == EndpointView::SelfPort(name) {
                            let i = choose|i: int|
                                0 <= i < wires_before.len() && (#[trigger] wires_before[i]).1 == EndpointView::SelfPort(name);
                            assert(now_wires[i].1 == EndpointView::SelfPort(name));
                        }
                    }
                    assert forall|i: int| 0 <= i < now_wires.len() && (#[trigger] now_wires[i]).1 is SelfPort implies wiring.used@.contains(
                        now_wires[i].1->SelfPort_0,
                    ) by {
                        if i < wires_before.len() {
                            assert(now_wires[i] == wires_before[i]);
                        }
                    }
                }
                bit += 1;
            }
        }
        proof {
            assert forall|other: int, bit: nat, name: Seq<char>|
                other < index + 1 && #[trigger] is_port_bit(
                    ports,
                    widths,
                    LogicalPortDirection::Output,
                    other,
                    bit,
                    name,
                ) implies is_covered(wire_views(wires@), texts(names@), name) by {
                if other == index {
                    assert(is_covered(
                        wire_views(wires@),
                        texts(names@),
                        scalar_text(port.net@, widths[port.net@], bit),
                    ));
                }
            }
        }
        index += 1;
    }
    proof {
        side_error_is(job, fuel, elements@);
        assert forall|name: Seq<char>| #[trigger] is_output_bit(ports, widths, name) implies is_covered(
            wire_views(wires@),
            texts(names@),
            name,
        ) by {
            let (port, bit) = choose|port: int, bit: nat| #[trigger]
                is_port_bit(ports, widths, LogicalPortDirection::Output, port, bit, name);
            assert(is_port_bit(ports, widths, LogicalPortDirection::Output, port, bit, name));
        }
    }
    Ok((PendingOutputs { wires, names, builder }, Ghost(sources), Ghost(emitted)))
}

/// Where the outputs before a bit are covered, and the sources of their wires known,
/// no earlier bit repeats an unknown source.
proof fn earlier_wires_hold(
    job: Job,
    elements: Map<Seq<char>, Seq<char>>,
    cone: BuilderView,
    wires: Seq<(Seq<char>, EndpointView)>,
    sources: Seq<Seq<char>>,
    names: Seq<Seq<char>>,
    port: int,
    bit: nat,
)
    requires
        is_clean_from(job.module, output_roots(job.module)),
        are_direct_wires(job.module, elements, cone, wires, sources),
        are_leaf_outputs(job.module, cone, names),
        are_sources_known(elements, input_names(job.module), wires, sources),
        forall|p: int, b: nat, name: Seq<char>|
            #[trigger] is_port_bit(
                job.module.ports,
                net_widths(job.module.nets),
                LogicalPortDirection::Output,
                p,
                b,
                name,
            ) && (p < port || p == port && b < bit) ==> is_covered(wires, names, name),
    ensures
        are_wires_before(job, elements, port, bit, cone),
{
    let widths = net_widths(job.module.nets);
    let ports = job.module.ports;
    assert forall|p: int, b: nat, name: Seq<char>, source: Seq<char>|
        #![trigger is_port_bit(ports, widths, LogicalPortDirection::Output, p, b, name), repeats_source(cone, name, source)]
        is_port_bit(ports, widths, LogicalPortDirection::Output, p, b, name) && (p < port || p == port && b < bit)
            && !elements.contains_key(name) && repeats_source(cone, name, source) implies source_error(
        elements,
        input_names(job.module),
        source,
    ) is None by {
        assert(is_covered(wires, names, name));
        if exists|i: int| 0 <= i < wires.len() && (#[trigger] wires[i]).0 == name {
            let i = choose|i: int| 0 <= i < wires.len() && (#[trigger] wires[i]).0 == name;
            assert(cone.nodes[cone.producers[name] as int].kind == KindView::Input(sources[i]));
        } else {
            let j = choose|j: int| 0 <= j < names.len() && #[trigger] names[j] == name;
            assert(cone.outputs[j].0 == names[j]);
        }
    }
}

/// Copies a list of modules behind another, and their names behind a list of
/// names.
fn append_modules(modules: &mut Vec<RoutableModule>, names: &mut Vec<String>, more: &Vec<RoutableModule>)
    requires
        texts(old(names)@) == module_names(module_views(old(modules)@)),
    ensures
        module_views(final(modules)@) == module_views(old(modules)@) + module_views(more@),
        texts(final(names)@) == module_names(module_views(final(modules)@)),
{
    let ghost before = module_views(modules@);
    let mut index: usize = 0;
    assert(before + module_views(more@).take(0) =~= before);
    while index < more.len()
        invariant
            index <= more.len(),
            before == module_views(old(modules)@),
            module_views(modules@) == before + module_views(more@).take(index as int),
            texts(names@) == module_names(module_views(modules@)),
        decreases more.len() - index,
    {
        let ghost middle = module_views(modules@);
        let ghost middle_names = texts(names@);
        names.push(more[index].name.clone());
        modules.push(more[index].copy());
        proof {
            let added = module_views(more@);
            assert(added.take(index + 1) =~= added.take(index as int).push(added[index as int]));
            assert(module_views(modules@) =~= middle.push(added[index as int]));
            assert(texts(names@) =~= middle_names.push(more[index as int].name@));
            assert(module_names(module_views(modules@)) =~= module_names(middle).push(more[index as int].name@));
            assert(module_views(modules@) =~= before + added.take(index + 1));
        }
        index += 1;
    }
    assert(module_views(more@).take(more.len() as int) =~= module_views(more@));
}

/// Adds one module and its name.
fn push_module(modules: &mut Vec<RoutableModule>, names: &mut Vec<String>, module: RoutableModule)
    requires
        texts(old(names)@) == module_names(module_views(old(modules)@)),
    ensures
        module_views(final(modules)@) == module_views(old(modules)@).push(module@),
        texts(final(names)@) == module_names(module_views(final(modules)@)),
{
    let ghost before = module_views(modules@);
    let ghost before_names = texts(names@);
    let ghost added = module@;
    names.push(module.name.clone());
    modules.push(module);
    proof {
        assert(module_views(modules@) =~= before.push(added));
        assert(texts(names@) =~= before_names.push(added.name));
        assert(module_names(module_views(modules@)) =~= module_names(before).push(added.name));
    }
}

/// Adds the modules of the elements of one state cell.
fn push_elements(
    modules: &mut Vec<RoutableModule>,
    names: &mut Vec<String>,
    plan: &StatePlan,
    Ghost(cells): Ghost<Seq<CellView>>,
    Ghost(widths): Ghost<Map<Seq<char>, usize>>,
)
    requires
        texts(old(names)@) == module_names(module_views(old(modules)@)),
        is_plan(cells, widths, *plan),
    ensures
        module_views(final(modules)@) == module_views(old(modules)@) + element_modules(
            cells[plan.cell as int],
            widths,
            plan.width as nat,
        ),
        texts(final(names)@) == module_names(module_views(final(modules)@)),
{
    let ghost before = module_views(modules@);
    let ghost cell = cells[plan.cell as int];
    let mut bit: usize = 0;
    assert(before + element_modules(cell, widths, 0) =~= before);
    while bit < plan.width
        invariant
            bit <= plan.width,
            before == module_views(old(modules)@),
            is_plan(cells, widths, *plan),
            cell == cells[plan.cell as int],
            module_views(modules@) == before + element_modules(cell, widths, bit as nat),
            texts(names@) == module_names(module_views(modules@)),
        decreases plan.width - bit,
    {
        let output = scalar_name(plan.output.as_str(), plan.width, bit);
        assert(output@ == state_bit(cell, widths, bit as nat));
        if plan.edge.is_some() {
            let clock_inverter = join2(output.as_str(), "_clk_inv");
            let master = join2(output.as_str(), "_master");
            let slave = join2(output.as_str(), "_slave");
            push_module(modules, names, not_clock_module(clock_inverter.as_str()));
            push_module(modules, names, d_latch_routable_module(master.as_str()));
            push_module(modules, names, d_latch_routable_module(slave.as_str()));
        } else {
            let latch = join2(output.as_str(), "_latch");
            push_module(modules, names, d_latch_routable_module(latch.as_str()));
        }
        assert(module_views(modules@) =~= before + element_modules(cell, widths, (bit + 1) as nat));
        bit += 1;
    }
}

/// What the live state cells are lowered to.
struct StateLogic {
    leaves: Vec<NextLeaf>,
    modules: Vec<RoutableModule>,
    names: Vec<String>,
}

/// The logic of the first `count` planned cells.
spec fn is_state_logic<F: Fn(&Vec<GraphNode>) -> Result<usize, LowerError>>(
    module: ModuleView,
    prepared_count: F,
    live: Seq<int>,
    leaves: Seq<NextLeaf>,
    cones: Seq<BuilderView>,
    bits: Seq<Seq<usize>>,
    count: int,
) -> bool {
    &&& leaves.len() == count
    &&& cones.len() == count
    &&& bits.len() == count
    &&& forall|i: int|
        0 <= i < count ==> {
            let cell = module.cells[live[i]];
            &&& is_next_cone(module, net_widths(module.nets), cell, #[trigger] cones[i], bits[i])
            &&& is_next_leaf(prepared_count, cell, cones[i], bits[i], leaves[i])
        }
}

/// Whether all cones are made of nodes that a policy allows.
spec fn all_allowed(cones: Seq<BuilderView>, policy: MappingPolicy) -> bool {
    forall|i: int| 0 <= i < cones.len() ==> is_allowed_cone((#[trigger] cones[i]).nodes, policy)
}

/// Whether all cones read only what logic reads from outside.
spec fn all_inputs_known(module: ModuleView, cones: Seq<BuilderView>) -> bool {
    forall|i: int| 0 <= i < cones.len() ==> inputs_known(module, (#[trigger] cones[i]).nodes)
}

/// An input of a leaf that no leaf produces is a bit that logic reads from outside.
proof fn leaf_input_is_boundary<F: Fn(&Vec<GraphNode>) -> Result<usize, LowerError>>(
    module: ModuleView,
    cone: BuilderView,
    base: Seq<char>,
    prepared_count: F,
    leaf: PartitionedLeaf,
    elements: Map<Seq<char>, Seq<char>>,
    input_scalars: Set<Seq<char>>,
    error: ErrorView,
)
    requires
        inputs_known(module, cone.nodes),
        is_bounded_partition(cone, base, LEAF_NODE_BUDGET, prepared_count, leaf),
        is_leaf_unresolved(leaf, elements, input_scalars, error),
    ensures
        error is UnresolvedSource,
        is_read_bit(module, error->UnresolvedSource_0),
{
    let (k, i) = choose|k: int, i: int|
        {
            &&& 0 <= k < leaf.instances.len()
            &&& 0 <= i < leaf.instances[k].inputs.len()
            &&& !leaf.intermediates@.contains_key((#[trigger] leaf.instances[k].inputs[i])@)
            &&& error == ErrorView::UnresolvedSource(leaf.instances[k].inputs[i]@)
        };
    let (cut, pieces) = choose|cut: Plan, pieces: Seq<BuilderView>|
        {
            &&& #[trigger] is_partition(cone.nodes, cone.outputs, base, cut, pieces, leaf)
            &&& is_limited_cut(cone, LEAF_NODE_BUDGET, prepared_count, cut)
            &&& pieces_sized(cut, LEAF_NODE_BUDGET)
            &&& leaves_fit(prepared_count, cut, pieces)
        };
    let id = outside_is_input(cone.nodes, cone.outputs, base, cut, pieces, leaf, k, i);
    assert(cone.nodes[id].kind == KindView::Input(leaf.instances[k].inputs[i]@));
}

/// Whether some cone declares the input bit `name`.
spec fn is_declared(cones: Seq<BuilderView>, name: Seq<char>) -> bool {
    exists|i: int| 0 <= i < cones.len() && (#[trigger] cones[i]).producers.contains_key(name)
}

proof fn declared_stays(cones: Seq<BuilderView>, cone: BuilderView, name: Seq<char>)
    ensures
        is_declared(cones, name) || cone.producers.contains_key(name) ==> is_declared(cones.push(cone), name),
{
    let more = cones.push(cone);
    if is_declared(cones, name) {
        let i = choose|i: int| 0 <= i < cones.len() && (#[trigger] cones[i]).producers.contains_key(name);
        assert(more[i] == cones[i]);
    }
    assert(more[cones.len() as int] == cone);
}

/// Builds the logic and the elements of the planned state cells.
fn build_logic<'a, F: Fn(&Vec<GraphNode>) -> Result<usize, LowerError>>(
    emitter: &ConeEmitter<'a>,
    plans: &Vec<StatePlan>,
    wiring: &mut Wiring,
    prepared_count: &F,
    Ghost(rank): Ghost<spec_fn(Seq<char>) -> Option<nat>>,
) -> (result: Result<(StateLogic, Ghost<Seq<BuilderView>>, Ghost<Seq<Seq<usize>>>), LowerError>)
    requires
        emitter.wf(),
        is_rank(emitter.module@, rank),
        is_reaching(emitter.module@, rank),
        forall|i: int| 0 <= i < plans.len() ==> is_plan(emitter.module@.cells, emitter.nets@, #[trigger] plans[i]),
        forall|i: int|
            0 <= i < plans.len() ==> is_live_name(
                emitter.module@,
                emitter.module@.cells[(#[trigger] plans[i]).cell as int].name,
            ),
        reached_cells_fit(emitter.module@),
        forall|nodes: Vec<GraphNode>| #[trigger] call_requires(*prepared_count, (&nodes,)),
        old(wiring).wf(),
        old(wiring).links() == Set::<Link>::empty(),
        old(wiring).used@ == Set::<Seq<char>>::empty(),
        old(wiring).asked@ == Seq::<Connection>::empty(),
    ensures
        match result {
            Ok((logic, cones, bits)) => {
                let live = planned_cells(plans@);
                &&& is_expanded_before(emitter.job(), live, live.len() as int)
                &&& final(wiring).wf()
                &&& final(wiring).links() == Set::<Link>::empty()
                &&& final(wiring).asked@ == Seq::<Connection>::empty()
                &&& is_state_logic(
                    emitter.module@,
                    *prepared_count,
                    live,
                    logic.leaves@,
                    cones@,
                    bits@,
                    plans@.len() as int,
                )
                &&& all_inputs_known(emitter.module@, cones@)
                &&& all_allowed(cones@, *emitter.policy)
                &&& forall|name: Seq<char>| #[trigger]
                    final(wiring).used@.contains(name) ==> is_declared(cones@, name)
                &&& module_views(logic.modules@) == next_modules(logic.leaves@, live.len()) + all_element_modules(
                    emitter.module@.cells,
                    emitter.nets@,
                    live,
                    live.len(),
                )
                &&& texts(logic.names@) == module_names(module_views(logic.modules@))
            },
            Err(error) => {
                &&& is_next_error(emitter.module@, emitter.target@, *emitter.policy, *prepared_count, error)
                &&& is_logic_refused(emitter.job(), *prepared_count, planned_cells(plans@), error)
            },
        },
{
    let ghost view = emitter.module@;
    let ghost cells = view.cells;
    let ghost widths = emitter.nets@;
    let ghost live = planned_cells(plans@);
    let mut leaves: Vec<NextLeaf> = Vec::new();
    let ghost mut cones = Seq::<BuilderView>::empty();
    let ghost mut bits = Seq::<Seq<usize>>::empty();
    let mut modules: Vec<RoutableModule> = Vec::new();
    let mut names: Vec<String> = Vec::new();
    proof {
        assert(module_views(modules@) =~= Seq::empty());
        assert(texts(names@) =~= module_names(module_views(modules@)));
        assert(next_modules(leaves@, 0) =~= Seq::empty());
    }
    let mut index: usize = 0;
    while index < plans.len()
        invariant
            emitter.wf(),
            view == emitter.module@,
            widths == emitter.nets@,
            cells == view.cells,
            is_rank(view, rank),
            is_reaching(view, rank),
            forall|i: int| 0 <= i < plans.len() ==> is_live_name(view, cells[(#[trigger] plans[i]).cell as int].name),
            forall|nodes: Vec<GraphNode>| #[trigger] call_requires(*prepared_count, (&nodes,)),
            reached_cells_fit(view),
            live == planned_cells(plans@),
            forall|i: int| 0 <= i < plans.len() ==> is_plan(cells, widths, #[trigger] plans[i]),
            index <= plans.len(),
            is_expanded_before(emitter.job(), live, index as int),
            is_state_logic(view, *prepared_count, live, leaves@, cones, bits, index as int),
            all_inputs_known(view, cones),
            all_allowed(cones, *emitter.policy),
            wiring.wf(),
            wiring.links() == Set::<Link>::empty(),
            wiring.asked@ == Seq::<Connection>::empty(),
            forall|name: Seq<char>| #[trigger] wiring.used@.contains(name) ==> is_declared(cones, name),
            module_views(modules@) == next_modules(leaves@, index as nat),
            texts(names@) == module_names(module_views(modules@)),
        decreases plans.len() - index,
    {
        assert(is_plan(cells, widths, plans[index as int]));
        assert(live[index as int] == plans[index as int].cell);
        assert(cells[plans[index as int].cell as int] == emitter.module.cells[plans[index as int].cell as int]@);
        proof {
            assert(is_live_cell(view, plans[index as int].cell as int));
            assert(is_reached_cell(view, plans[index as int].cell as int));
        }
        match next_leaf(emitter, &plans[index], &mut wiring.used, prepared_count, Ghost(rank)) {
            Ok((next, next_cone, next_bits)) => {
                append_modules(&mut modules, &mut names, &next.leaf.modules);
                let ghost leaves_before = leaves@;
                let ghost cones_before = cones;
                let ghost bits_before = bits;
                proof {
                    assert(wiring.links() =~= Set::<Link>::empty());
                    cones = cones.push(next_cone@);
                    bits = bits.push(next_bits@);
                    assert forall|name: Seq<char>| #[trigger] wiring.used@.contains(name) implies is_declared(cones, name) by {
                        declared_stays(cones_before, next_cone@, name);
                    }
                }
                leaves.push(next);
                proof {
                    assert forall|i: int| 0 <= i < cones.len() implies is_allowed_cone(
                        (#[trigger] cones[i]).nodes,
                        *emitter.policy,
                    ) by {
                        if i < index {
                            assert(cones[i] == cones_before[i]);
                        }
                    }
                    assert forall|i: int| 0 <= i < cones.len() implies inputs_known(view, (#[trigger] cones[i]).nodes) by {
                        if i < index {
                            assert(cones[i] == cones_before[i]);
                        }
                    }
                    next_modules_stable(leaves_before, leaves@, index as nat);
                    assert forall|i: int| 0 <= i < index + 1 implies {
                        let cell = cells[live[i]];
                        &&& is_next_cone(view, net_widths(view.nets), cell, #[trigger] cones[i], bits[i])
                        &&& is_next_leaf(*prepared_count, cell, cones[i], bits[i], leaves[i])
                    } by {
                        if i < index {
                            assert(cones[i] == cones_before[i] && bits[i] == bits_before[i] && leaves[i] == leaves_before[i]);
                        }
                    }
                }
            },
            Err(error) => {
                assert(is_data_refused(emitter.job(), *prepared_count, cells[live[index as int]], error));
                return Err(error);
            },
        }
        index += 1;
    }
    let ghost logic_modules = module_views(modules@);
    let mut index: usize = 0;
    assert(logic_modules + all_element_modules(cells, widths, live, 0) =~= logic_modules);
    while index < plans.len()
        invariant
            live == planned_cells(plans@),
            forall|i: int| 0 <= i < plans.len() ==> is_plan(cells, widths, #[trigger] plans[i]),
            index <= plans.len(),
            module_views(modules@) == logic_modules + all_element_modules(cells, widths, live, index as nat),
            texts(names@) == module_names(module_views(modules@)),
        decreases plans.len() - index,
    {
        assert(is_plan(cells, widths, plans[index as int]));
        push_elements(&mut modules, &mut names, &plans[index], Ghost(cells), Ghost(widths));
        assert(module_views(modules@) =~= logic_modules + all_element_modules(cells, widths, live, (index + 1) as nat));
        index += 1;
    }
    Ok((StateLogic { leaves, modules, names }, Ghost(cones), Ghost(bits)))
}

/// Links the planned state cells and their logic.
fn wire_state<F: Fn(&Vec<GraphNode>) -> Result<usize, LowerError>>(
    module: &LogicalModule,
    nets: &ScalarNets,
    plans: &Vec<StatePlan>,
    leaves: &Vec<NextLeaf>,
    elements: &Elements,
    input_scalars: &StringHashSet,
    wiring: &mut Wiring,
    prepared_count: &F,
    Ghost(cones): Ghost<Seq<BuilderView>>,
    Ghost(bits): Ghost<Seq<Seq<usize>>>,
) -> (result: Result<(), LowerError>)
    requires
        nets@ == net_widths(module@.nets),
        forall|i: int| 0 <= i < plans.len() ==> is_plan(module@.cells, nets@, #[trigger] plans[i]),
        forall|i: int|
            0 <= i < plans.len() ==> is_live_name(module@, module@.cells[(#[trigger] plans[i]).cell as int].name),
        is_state_logic(
            module@,
            *prepared_count,
            planned_cells(plans@),
            leaves@,
            cones,
            bits,
            plans@.len() as int,
        ),
        all_inputs_known(module@, cones),
        forall|name: Seq<char>| #[trigger]
            input_scalars@.contains(name) <==> is_input_bit(module@.ports, nets@, name),
        old(wiring).wf(),
        old(wiring).links() == Set::<Link>::empty(),
        old(wiring).asked@ == Seq::<Connection>::empty(),
        forall|name: Seq<char>| #[trigger] old(wiring).used@.contains(name) ==> is_declared(cones, name),
    ensures
        match result {
            Ok(_) => {
                &&& final(wiring).wf()
                &&& final(wiring).asked@ == state_connections(
                    module@.cells,
                    nets@,
                    planned_cells(plans@),
                    elements@,
                    leaves@,
                    plans@.len(),
                )
                &&& final(wiring).links() == state_links(
                    module@.cells,
                    nets@,
                    planned_cells(plans@),
                    elements@,
                    leaves@,
                    plans@.len(),
                )
                &&& forall|name: Seq<char>| #[trigger]
                    final(wiring).used@.contains(name) ==> self_driven(final(wiring).links(), name) || is_declared(
                        cones,
                        name,
                    )
                &&& forall|i: int|
                    0 <= i < leaves.len() ==> wire_error(
                        module@.cells[planned_cells(plans@)[i]],
                        nets@,
                        elements@,
                        input_scalars@,
                        #[trigger] leaves[i],
                    ) is None
            },
            Err(error) => {
                &&& is_output_error(module@, elements@, error@) || is_net_error(module@, error@)
                &&& exists|k: int|
                    {
                        &&& 0 <= k < leaves.len()
                        &&& wire_error(
                            module@.cells[planned_cells(plans@)[k]],
                            nets@,
                            elements@,
                            input_scalars@,
                            #[trigger] leaves[k],
                        ) == Some(error@)
                        &&& forall|i: int|
                            0 <= i < k ==> wire_error(
                                module@.cells[planned_cells(plans@)[i]],
                                nets@,
                                elements@,
                                input_scalars@,
                                #[trigger] leaves[i],
                            ) is None
                    }
            },
        },
{
    let ghost cells = module@.cells;
    let ghost widths = nets@;
    let ghost live = planned_cells(plans@);
    let mut index: usize = 0;
    while index < plans.len()
        invariant
            cells == module@.cells,
            widths == nets@,
            widths == net_widths(module@.nets),
            live == planned_cells(plans@),
            forall|i: int| 0 <= i < plans.len() ==> is_plan(cells, widths, #[trigger] plans[i]),
            forall|i: int|
                0 <= i < plans.len() ==> is_live_name(module@, cells[(#[trigger] plans[i]).cell as int].name),
            index <= plans.len(),
            is_state_logic(module@, *prepared_count, live, leaves@, cones, bits, plans@.len() as int),
            all_inputs_known(module@, cones),
            forall|name: Seq<char>| #[trigger]
                input_scalars@.contains(name) <==> is_input_bit(module@.ports, widths, name),
            wiring.wf(),
            wiring.links() == state_links(cells, widths, live, elements@, leaves@, index as nat),
            wiring.asked@ == state_connections(cells, widths, live, elements@, leaves@, index as nat),
            forall|i: int|
                0 <= i < index ==> wire_error(
                    cells[live[i]],
                    widths,
                    elements@,
                    input_scalars@,
                    #[trigger] leaves[i],
                ) is None,
            forall|name: Seq<char>| #[trigger]
                wiring.used@.contains(name) ==> self_driven(wiring.links(), name) || is_declared(cones, name),
        decreases plans.len() - index,
    {
        let next = &leaves[index];
        assert(is_plan(cells, widths, plans[index as int]));
        assert(live[index as int] == plans[index as int].cell);
        assert(is_next_cone(module@, widths, cells[live[index as int]], cones[index as int], bits[index as int]));
        let ghost before = *wiring;
        let ghost cell = cells[live[index as int]];
        let ghost cone = cones[index as int];
        let ghost own_bits = bits[index as int];
        if let Err(error) = wire_leaf(wiring, &next.leaf, elements, input_scalars) {
            proof {
                assert(wire_error(cell, widths, elements@, input_scalars@, leaves[index as int]) == Some(error@));
                leaf_input_is_boundary(
                    module@,
                    cone,
                    state_net(cell) + "_next"@,
                    *prepared_count,
                    next.leaf,
                    elements@,
                    input_scalars@,
                    error@,
                );
            }
            return Err(error);
        }
        let ghost middle = *wiring;
        if let Err(error) = wire_elements(
            wiring,
            module,
            nets,
            &plans[index],
            &next.sources,
            elements,
            input_scalars,
        ) {
            proof {
                assert(wire_error(cell, widths, elements@, input_scalars@, leaves[index as int]) == Some(error@));
                if is_source_unresolved(next.sources@, elements@, input_scalars@, error@) {
                    let i = choose|i: int|
                        0 <= i < next.sources@.len() && (#[trigger] next.sources@[i])@ is Direct && error@
                            == ErrorView::UnresolvedSource(next.sources@[i]@->Direct_0);
                    assert(next.sources@[i]@ == next_source(cone, own_bits, next.leaf, i as nat));
                    let node = own_bits[i] as int;
                    assert(cone.nodes[node].kind is Input);
                    assert(is_read_bit(module@, cone.nodes[node].kind->Input_0));
                }
            }
            return Err(error);
        }
        proof {
            assert(wiring.links() =~= state_links(cells, widths, live, elements@, leaves@, (index + 1) as nat));
            assert(wiring.asked@ =~= state_connections(cells, widths, live, elements@, leaves@, (index + 1) as nat));
            assert forall|name: Seq<char>| #[trigger] wiring.used@.contains(name) implies self_driven(wiring.links(), name)
                || is_declared(cones, name) by {
                driven_stays(before, middle, name);
                driven_stays(middle, *wiring, name);
            }
        }
        index += 1;
    }
    Ok(())
}

/// Splits the output logic into leaves, links them, and finds the wire of every
/// output that they drive.
fn finish_outputs<F: Fn(&Vec<GraphNode>) -> Result<usize, LowerError>>(
    module: &LogicalModule,
    pending: PendingOutputs,
    logic: &mut StateLogic,
    elements: &Elements,
    input_scalars: &StringHashSet,
    wiring: &mut Wiring,
    prepared_count: &F,
    Ghost(sources): Ghost<Seq<Seq<char>>>,
    Ghost(emitted): Ghost<Set<int>>,
) -> (result: Result<(Vec<OutputWire>, Ghost<OutputSide>), LowerError>)
    requires
        pending.builder.wf(),
        inputs_known(module@, pending.builder@.nodes),
        forall|name: Seq<char>| #[trigger]
            input_scalars@.contains(name) <==> is_input_bit(module@.ports, net_widths(module@.nets), name),
        is_clean_from(module@, output_roots(module@)) ==> cone_inv(
            logic_cells(module@, output_roots(module@)),
            net_widths(module@.nets),
            boundary_of(module@),
            pending.builder@,
            emitted,
        ),
        are_direct_wires(module@, elements@, pending.builder@, wire_views(pending.wires@), sources),
        are_leaf_outputs(module@, pending.builder@, texts(pending.names@)),
        are_output_bits(
            module@.ports,
            net_widths(module@.nets),
            wire_views(pending.wires@),
            texts(pending.names@),
        ),
        forall|name: Seq<char>| #[trigger]
            is_output_bit(module@.ports, net_widths(module@.nets), name) ==> is_covered(
                wire_views(pending.wires@),
                texts(pending.names@),
                name,
            ),
        forall|j: int| 0 <= j < pending.names.len() ==> !elements@.contains_key(#[trigger] texts(pending.names@)[j]),
        forall|nodes: Vec<GraphNode>| #[trigger] call_requires(*prepared_count, (&nodes,)),
        old(wiring).wf(),
        texts(old(logic).names@) == module_names(module_views(old(logic).modules@)),
    ensures
        match result {
            Ok((wires, side)) => {
                &&& is_output_side(module@, elements@, *prepared_count, side@)
                &&& side@.cone == pending.builder@
                &&& side@.wires == wire_views(wires@)
                &&& wire_views(pending.wires@).len() <= side@.wires.len()
                &&& forall|i: int|
                    0 <= i < wire_views(pending.wires@).len() ==> #[trigger] side@.wires[i] == wire_views(
                        pending.wires@,
                    )[i]
                &&& forall|i: int|
                    wire_views(pending.wires@).len() <= i < side@.wires.len() ==> (#[trigger] side@.wires[i]).1 is InstancePort
                &&& final(wiring).wf()
                &&& uses_explained(*old(wiring), *final(wiring))
                &&& final(wiring).asked@ == old(wiring).asked@ + side_connections(side@.leaf, elements@)
                &&& final(wiring).links() == old(wiring).links().union(
                    match side@.leaf {
                        Some(leaf) => leaf_links(leaf, elements@, leaf.instances@.len()),
                        None => Set::empty(),
                    },
                )
                &&& module_views(final(logic).modules@) == module_views(old(logic).modules@) + (match side@.leaf {
                    Some(leaf) => module_views(leaf.modules@),
                    None => Seq::empty(),
                })
                &&& texts(final(logic).names@) == module_names(module_views(final(logic).modules@))
                &&& side@.leaf matches Some(leaf) ==> leaf_unresolved(
                    leaf,
                    elements@,
                    input_scalars@,
                    leaf.instances@.len(),
                ) is None
            },
            Err(error) => {
                ||| is_partition_error(pending.builder@, LEAF_NODE_BUDGET, *prepared_count, error)
                ||| is_output_error(module@, elements@, error@) && exists|leaf: PartitionedLeaf|
                    {
                        &&& #[trigger] is_bounded_partition(
                            pending.builder@,
                            module@.name + "_out"@,
                            LEAF_NODE_BUDGET,
                            *prepared_count,
                            leaf,
                        )
                        &&& leaf_unresolved(leaf, elements@, input_scalars@, leaf.instances@.len()) == Some(error@)
                    }
            },
        },
{
    let ghost view = module@;
    let ghost start = *wiring;
    let PendingOutputs { wires: direct_wires, names: leaf_names, builder } = pending;
    let mut wires = direct_wires;
    let ghost cone = builder@;
    let ghost direct = wire_views(wires@);
    let ghost requested = texts(leaf_names@);
    proof {
        builder.wf_gives();
        assert(direct == wire_views(pending.wires@));
        assert(requested.len() == cone.outputs.len());
        assert(wiring.links().union(Set::empty()) =~= wiring.links());
        assert(wiring.asked@ + Seq::<Connection>::empty() =~= wiring.asked@);
    }
    if !builder.has_outputs() {
        let ghost side = OutputSide { cone, leaf: None, wires: direct };
        proof {
            output_side_holds(view, elements@, *prepared_count, side, direct, sources, requested, emitted);
            assert(module_views(logic.modules@) + Seq::<RoutableModuleView>::empty() =~= module_views(logic.modules@));
        }
        return Ok((wires, Ghost(side)));
    }
    let base = join2(module.name.as_str(), "_out");
    let leaf = match builder.partition(base.as_str(), LEAF_NODE_BUDGET, prepared_count) {
        Ok(leaf) => leaf,
        Err(error) => return Err(error),
    };
    let ghost (cut, pieces) = choose|cut: Plan, pieces: Seq<BuilderView>|
        {
            &&& #[trigger] is_partition(cone.nodes, cone.outputs, base@, cut, pieces, leaf)
            &&& pieces_sized(cut, LEAF_NODE_BUDGET)
            &&& leaves_fit(*prepared_count, cut, pieces)
        };
    append_modules(&mut logic.modules, &mut logic.names, &leaf.modules);
    if let Err(error) = wire_leaf(wiring, &leaf, elements, input_scalars) {
        proof {
            leaf_input_is_boundary(
                view,
                cone,
                base@,
                *prepared_count,
                leaf,
                elements@,
                input_scalars@,
                error@,
            );
            assert(base@ == module@.name + "_out"@);
            assert(is_bounded_partition(
                pending.builder@,
                module@.name + "_out"@,
                LEAF_NODE_BUDGET,
                *prepared_count,
                leaf,
            ));
        }
        return Err(error);
    }
    let mut index: usize = 0;
    while index < leaf_names.len()
        invariant
            requested == texts(leaf_names@),
            are_leaf_outputs(view, cone, requested),
            is_partition(cone.nodes, cone.outputs, base@, cut, pieces, leaf),
            index <= leaf_names.len(),
            wires.len() == direct.len() + index,
            forall|i: int| 0 <= i < direct.len() ==> #[trigger] wire_views(wires@)[i] == direct[i],
            forall|j: int|
                0 <= j < index ==> {
                    let name = requested[j];
                    &&& (#[trigger] wire_views(wires@)[direct.len() + j]).0 == name
                    &&& leaf.output_sources@.contains_key(name)
                    &&& wire_views(wires@)[direct.len() + j].1 == EndpointView::InstancePort(
                        leaf.output_sources@[name].0@,
                        leaf.output_sources@[name].1@,
                    )
                },
        decreases leaf_names.len() - index,
    {
        let ghost wires_before = wire_views(wires@);
        proof {
            assert(requested[index as int] == leaf_names[index as int]@);
            assert(cone.outputs[index as int].0 == requested[index as int]);
        }
        let driver = match leaf.output_sources.get(leaf_names[index].as_str()) {
            Some(source) => instance_port(source.0.as_str(), source.1.as_str()),
            None => {
                proof {
                    assert(false);
                }
                return Err(LowerError::LostNet(leaf_names[index].clone()));
            },
        };
        let ghost driver_view = driver@;
        wires.push(OutputWire { name: leaf_names[index].clone(), driver });
        proof {
            let now = wire_views(wires@);
            assert(now =~= wires_before.push((requested[index as int], driver_view)));
            assert forall|j: int| 0 <= j < index + 1 implies {
                let name = requested[j];
                &&& (#[trigger] now[direct.len() + j]).0 == name
                &&& leaf.output_sources@.contains_key(name)
                &&& now[direct.len() + j].1 == EndpointView::InstancePort(
                    leaf.output_sources@[name].0@,
                    leaf.output_sources@[name].1@,
                )
            } by {
                if j < index {
                    assert(now[direct.len() + j] == wires_before[direct.len() + j]);
                }
            }
        }
        index += 1;
    }
    let ghost side = OutputSide { cone, leaf: Some(leaf), wires: wire_views(wires@) };
    proof {
        output_side_holds(view, elements@, *prepared_count, side, direct, sources, requested, emitted);
        assert forall|i: int| direct.len() <= i < side.wires.len() implies (#[trigger] side.wires[i]).1 is InstancePort by {
            assert(side.wires[direct.len() + (i - direct.len())] == side.wires[i]);
        }
    }
    Ok((wires, Ghost(side)))
}

/// Whether the operands of all cells that are reached are wide enough, and the
/// constants among them short enough.
pub open spec fn reached_cells_fit(module: ModuleView) -> bool {
    let widths = net_widths(module.nets);
    forall|i: int| #[trigger]
        is_reached_cell(module, i) ==> if kind_is_sequential(module.cells[i].kind) {
            constant_fits(module.cells[i], "d"@, widths[state_net(module.cells[i])] as nat)
        } else {
            cell_fits(module.cells[i], widths)
        }
}

/// Whether all nets that are put out or stored by a live state cell have a rank.
pub open spec fn is_reaching(module: ModuleView, rank: spec_fn(Seq<char>) -> Option<nat>) -> bool {
    &&& forall|i: int|
        0 <= i < module.ports.len() && module.ports[i].direction is Output ==> rank(
            (#[trigger] module.ports[i]).net,
        ) is Some
    &&& forall|i: int|
        0 <= i < module.cells.len() && kind_is_sequential((#[trigger] module.cells[i]).kind) && is_live_name(
            module,
            module.cells[i].name,
        ) ==> is_value_ranked(rank, state_data(module.cells[i]))
}

/// Whether no logic that is reached from outputs and live state cells feeds itself.
pub open spec fn is_acyclic(module: ModuleView) -> bool {
    exists|rank: spec_fn(Seq<char>) -> Option<nat>| is_rank(module, rank) && is_reaching(module, rank)
}

/// Lowers a flat module that has state cells.
///
/// `prepared_count` tells how many nodes a leaf has once it is prepared for
/// placement, and `validate` whether a design is valid.
pub fn lower_sequential_module<
    F: Fn(&Vec<GraphNode>) -> Result<usize, LowerError>,
    V: Fn(&RoutableDesign) -> Result<(), String>,
>(
    module: &LogicalModule,
    nets: &ScalarNets,
    target: &TargetSpec,
    policy: &MappingPolicy,
    prepared_count: &F,
    validate: &V,
) -> (result: Result<RoutableDesign, LowerError>)
    requires
        nets@ == net_widths(module@.nets),
        reached_cells_fit(module@),
        is_acyclic(module@),
        forall|nodes: Vec<GraphNode>| #[trigger] call_requires(*prepared_count, (&nodes,)),
        is_design_validator(*validate),
    ensures
        match result {
            Ok(design) => {
                &&& is_without_defect((Job { module: module@, target: target@, policy: *policy }))
                &&& is_lowered_state(module@, target@, *policy, *prepared_count, design)
                &&& call_ensures(*validate, (&design,), Ok(()))
            },
            Err(error) => {
                ||| is_state_refused(module@, target@, *policy, *prepared_count, error)
                ||| is_state_invalid(module@, target@, *policy, *prepared_count, *validate, error)
            },
        },
{
    let ghost view = module@;
    let ghost cells = view.cells;
    let ghost widths = nets@;
    let ghost rank = choose|rank: spec_fn(Seq<char>) -> Option<nat>| is_rank(view, rank) && is_reaching(view, rank);
    if let Err(error) = target.require(TargetOp::DLatch) {
        return Err(LowerError::Unsupported(error));
    }
    let driver_of = drivers_of(module);
    let input_nets = input_net_names(module);
    let input_scalars = match input_bit_names(module, nets) {
        Ok(input_scalars) => input_scalars,
        Err(error) => {
            proof {
                let bad = choose|bad: int|
                    {
                        &&& 0 <= bad < view.ports.len()
                        &&& !widths.contains_key((#[trigger] view.ports[bad]).net)
                        &&& error@ == ErrorView::UnknownNet(view.ports[bad].net)
                    };
                root_is_wanted(view, view.ports[bad].net);
            }
            return Err(error);
        },
    };
    assert(input_scalars@ =~= input_names(view));
    let state_outputs = state_net_names(module);
    let live_names = live_state_cells(module, &driver_of);
    let emitter = ConeEmitter {
        module,
        nets,
        driver_of: &driver_of,
        state_outputs: &state_outputs,
        input_nets: &input_nets,
        target,
        policy,
    };
    assert(emitter.wf());
    let ghost job = emitter.job();
    assert(job == (Job { module: view, target: target@, policy: *policy }));
    let plans = match plan_cells(module, nets, &live_names) {
        Ok(plans) => plans,
        Err(error) => return Err(error),
    };
    let ghost live = live_cells(view, cells.len());
    assert(live.len() == plans@.len());
    proof {
        live_cells_are_live(view, cells.len());
        assert forall|i: int| 0 <= i < plans.len() implies is_live_name(
            view,
            cells[(#[trigger] plans[i]).cell as int].name,
        ) by {
            assert(live[i] == plans[i].cell);
        }
    }
    let elements = Elements::of_plans(&plans, Ghost(cells), Ghost(widths));
    let ghost element_map = elements_of(cells, widths, live, live.len());
    assert(elements@ == element_map);
    let mut wiring = Wiring::new();
    let (mut logic, logic_cones, logic_bits) = match build_logic(
        &emitter,
        &plans,
        &mut wiring,
        prepared_count,
        Ghost(rank),
    ) {
        Ok(logic) => logic,
        Err(error) => return Err(error),
    };
    let ghost cones = logic_cones@;
    let ghost bits = logic_bits@;
    match wire_state(
        module,
        nets,
        &plans,
        &logic.leaves,
        &elements,
        &input_scalars,
        &mut wiring,
        prepared_count,
        Ghost(cones),
        Ghost(bits),
    ) {
        Ok(_) => {},
        Err(error) => {
            proof {
                let leaves = logic.leaves@;
                let k = choose|k: int|
                    {
                        &&& 0 <= k < leaves.len()
                        &&& wire_error(cells[live[k]], widths, element_map, input_scalars@, #[trigger] leaves[k])
                            == Some(error@)
                        &&& forall|i: int|
                            0 <= i < k ==> wire_error(
                                cells[live[i]],
                                widths,
                                element_map,
                                input_scalars@,
                                #[trigger] leaves[i],
                            ) is None
                    };
                leaves_are_linked(job, *prepared_count, live, element_map, leaves, cones, bits, k);
                assert(link_error(job, live, element_map, leaves, k) == Some(error@));
            }
            return Err(error);
        },
    }
    proof {
        leaves_are_linked(
            job,
            *prepared_count,
            live,
            element_map,
            logic.leaves@,
            cones,
            bits,
            live.len() as int,
        );
    }
    let ghost with_state = wiring;
    let (pending, wire_sources, output_emitted) = match collect_outputs(
        &emitter,
        &elements,
        &input_scalars,
        &mut wiring,
        Ghost(rank),
    ) {
        Ok(pending) => pending,
        Err(error) => return Err(error),
    };
    let ghost direct = wire_views(pending.wires@);
    let ghost with_outputs = wiring;
    let ghost leaves = logic.leaves@;
    let ghost output_cone = pending.builder@;
    proof {
        pending.builder.wf_gives();
        assert(are_leaf_outputs(view, output_cone, texts(pending.names@)));
        assert(is_output_cone(view, element_map, output_cone));
    }
    let (wires, output_side) = match finish_outputs(
        module,
        pending,
        &mut logic,
        &elements,
        &input_scalars,
        &mut wiring,
        prepared_count,
        Ghost(wire_sources@),
        Ghost(output_emitted@),
    ) {
        Ok(wires) => wires,
        Err(error) => return Err(error),
    };
    let ghost side = output_side@;
    let ghost all_wires = side.wires;
    let ghost parts = StateParts { cones, bits, leaves, side };
    let ghost with_leaf = wiring;
    proof {
        assert forall|i: int| 0 <= i < all_wires.len() && (#[trigger] all_wires[i]).1 is SelfPort implies wiring.used@.contains(
            all_wires[i].1->SelfPort_0,
        ) by {
            assert(i < direct.len());
            assert(direct[i] == all_wires[i]);
            assert(with_outputs.used@.contains(all_wires[i].1->SelfPort_0));
        }
    }
    link_outputs(&mut wiring, &wires);
    let ghost links = all_links(view, parts);
    proof {
        assert(wiring.links() =~= links);
        assert(wiring.asked@ =~= all_connections(view, parts));
        assert forall|name: Seq<char>| #[trigger] wiring.used@.contains(name) implies is_use_explained(parts, links, name) by {
            use_explained(parts, with_state.links(), with_state.used@, with_outputs, with_leaf, links, direct, name);
        }
    }
    let port_list = match logical_ports_filtered(module, nets, &wiring.used) {
        Ok(port_list) => port_list,
        Err(error) => {
            proof {
                let bad = choose|bad: int|
                    {
                        &&& 0 <= bad < module.ports.len()
                        &&& !nets@.contains_key((#[trigger] module.ports[bad]).net@)
                        &&& error@ == ErrorView::UnknownNet(module.ports[bad].net@)
                    };
                assert(view.ports[bad] == module.ports[bad]@);
                if view.ports[bad].direction is Input {
                    known_input(view.ports, widths, view.ports.len(), bad);
                }
                root_is_wanted(view, view.ports[bad].net);
            }
            return Err(error);
        },
    };
    let ghost used = wiring.used@;
    let Wiring { connections, used: _, asked: _ } = wiring;
    let ghost collected = connections@;
    let finished = connections.finish();
    let ghost net_list = net_views(finished@);
    assert(collected.len() == finished.len());
    let StateLogic { leaves: _, modules: leaf_modules, names } = logic;
    let mut modules = leaf_modules;
    let top = composite_module(module.name.as_str(), port_list, &names, finished);
    let ghost leaf_list = module_views(modules@);
    let ghost top_view = top@;
    modules.push(top);
    let result = finish_design(module.name.as_str(), target.name(), &modules, validate);
    proof {
        let design = choose|design: RoutableDesign| #[trigger]
            is_design_of(view.name, target@.name, module_views(modules@), design) && is_validated(
                *validate,
                design,
                result,
            );
        assert(module_views(modules@) =~= leaf_list.push(top_view));
        assert(leaf_list =~= all_leaves(view, parts));
        finished_nets_connect(
            collected,
            net_list,
            EndpointView::SelfPort(Seq::empty()),
            EndpointView::SelfPort(Seq::empty()),
        );
        assert forall|driver: EndpointView, sink: EndpointView| #[trigger]
            connects(net_list, driver, sink) <==> links.contains((driver, sink)) by {
            finished_nets_connect(collected, net_list, driver, sink);
        }
        assert forall|name: Seq<char>| #[trigger] self_driven(links, name) implies used.contains(name) by {
            let sink = choose|sink: EndpointView| links.contains((EndpointView::SelfPort(name), sink));
            assert(links.contains((EndpointView::SelfPort(name), sink)));
        }
        assert(are_parts(view, *policy, *prepared_count, parts)) by {
            assert forall|i: int| 0 <= i < live.len() implies {
                let cell = cells[live[i]];
                &&& plan_error(cell, widths) is None
                &&& is_next_cone(view, widths, cell, #[trigger] parts.cones[i], parts.bits[i])
                &&& is_next_leaf(*prepared_count, cell, parts.cones[i], parts.bits[i], parts.leaves[i])
                &&& is_allowed_cone(parts.cones[i].nodes, *policy)
                &&& wire_error(cell, widths, element_map, input_names(view), parts.leaves[i]) is None
            } by {
                assert(is_plan(cells, widths, plans[i]));
                assert(live[i] == plans[i].cell);
            }
        }
        assert(is_state_design(view, target@, *policy, *prepared_count, design, parts, used, net_list));
        assert(is_lowered_state(view, target@, *policy, *prepared_count, design));
    }
    result
}

/// Leaves of which the first `count` can be linked.
proof fn leaves_are_linked<F: Fn(&Vec<GraphNode>) -> Result<usize, LowerError>>(
    job: Job,
    prepared_count: F,
    live: Seq<int>,
    elements: Map<Seq<char>, Seq<char>>,
    leaves: Seq<NextLeaf>,
    cones: Seq<BuilderView>,
    bits: Seq<Seq<usize>>,
    count: int,
)
    requires
        is_state_logic(job.module, prepared_count, live, leaves, cones, bits, live.len() as int),
        0 <= count <= live.len(),
        forall|i: int|
            0 <= i < count ==> wire_error(
                job.module.cells[live[i]],
                net_widths(job.module.nets),
                elements,
                input_names(job.module),
                #[trigger] leaves[i],
            ) is None,
    ensures
        is_linked_before(job, prepared_count, live, elements, leaves, count),
{
    assert forall|i: int| 0 <= i < live.len() implies is_cell_leaf(
        job,
        prepared_count,
        job.module.cells[live[i]],
        #[trigger] leaves[i],
    ) by {
        assert(is_next_cone(
            job.module,
            net_widths(job.module.nets),
            job.module.cells[live[i]],
            cones[i],
            bits[i],
        ));
    }
    assert forall|i: int| 0 <= i < count implies #[trigger] link_error(job, live, elements, leaves, i) is None by {
        assert(wire_error(
            job.module.cells[live[i]],
            net_widths(job.module.nets),
            elements,
            input_names(job.module),
            leaves[i],
        ) is None);
    }
}

/// Where the input ports have no defect, their nets are known.
proof fn known_input(ports: Seq<PortView>, widths: Map<Seq<char>, usize>, count: nat, index: int)
    requires
        inputs_error(ports, widths, count) is None,
        0 <= index < count <= ports.len(),
        ports[index].direction is Input,
    ensures
        widths.contains_key(ports[index].net),
    decreases count,
{
    if index < count - 1 {
        known_input(ports, widths, (count - 1) as nat, index);
    }
}

/// Links every output bit to its driver.
fn link_outputs(wiring: &mut Wiring, wires: &Vec<OutputWire>)
    requires
        old(wiring).wf(),
        forall|i: int|
            0 <= i < wires.len() && (#[trigger] wire_views(wires@)[i]).1 is SelfPort ==> old(wiring).used@.contains(
                wire_views(wires@)[i].1->SelfPort_0,
            ),
    ensures
        final(wiring).wf(),
        final(wiring).used@ == old(wiring).used@,
        final(wiring).links() == old(wiring).links().union(wire_links(wire_views(wires@), wires@.len())),
        final(wiring).asked@ == old(wiring).asked@ + wire_connections(wire_views(wires@), wires@.len()),
{
    let ghost all_wires = wire_views(wires@);
    let ghost start = wiring.links();
    let mut index: usize = 0;
    assert(start.union(wire_links(all_wires, 0)) =~= start);
    assert(wiring.asked@ + Seq::<Connection>::empty() =~= wiring.asked@);
    while index < wires.len()
        invariant
            all_wires == wire_views(wires@),
            index <= wires.len(),
            wiring.wf(),
            wiring.used@ == old(wiring).used@,
            wiring.links() == start.union(wire_links(all_wires, index as nat)),
            wiring.asked@ == old(wiring).asked@ + wire_connections(all_wires, index as nat),
            forall|i: int|
                0 <= i < all_wires.len() && (#[trigger] all_wires[i]).1 is SelfPort ==> wiring.used@.contains(
                    all_wires[i].1->SelfPort_0,
                ),
        decreases wires.len() - index,
    {
        let wire = &wires[index];
        assert(all_wires[index as int] == (wire.name@, wire.driver@));
        let driver = wire.driver.copy();
        let sink = self_port(wire.name.as_str());
        wiring.link(wire.name.as_str(), NetClass::Io, driver, sink);
        assert(wiring.links() =~= start.union(wire_links(all_wires, (index + 1) as nat)));
        assert(wiring.asked@ =~= old(wiring).asked@ + wire_connections(all_wires, (index + 1) as nat));
        index += 1;
    }
}

/// Modules of earlier leaves do not depend on later ones.
proof fn next_modules_stable(leaves: Seq<NextLeaf>, more: Seq<NextLeaf>, count: nat)
    requires
        count <= leaves.len() <= more.len(),
        forall|i: int| 0 <= i < count ==> #[trigger] leaves[i] == more[i],
    ensures
        next_modules(leaves, count) == next_modules(more, count),
    decreases count,
{
    if count > 0 {
        next_modules_stable(leaves, more, (count - 1) as nat);
        assert(leaves[count - 1] == more[count - 1]);
    }
}

/// What drives something goes on doing so.
proof fn driven_stays(before: Wiring, after: Wiring, name: Seq<char>)
    requires
        uses_explained(before, after),
    ensures
        self_driven(before.links(), name) ==> self_driven(after.links(), name),
        after.used@.contains(name) && !before.used@.contains(name) ==> self_driven(after.links(), name),
{
    if self_driven(before.links(), name) {
        let sink = choose|sink: EndpointView| before.links().contains((EndpointView::SelfPort(name), sink));
        assert(after.links().contains((EndpointView::SelfPort(name), sink)));
    }
}

/// Every wire is among the links of the wires.
proof fn wire_links_contains(wires: Seq<(Seq<char>, EndpointView)>, count: nat, index: int)
    requires
        0 <= index < count <= wires.len(),
    ensures
        wire_links(wires, count).contains((wires[index].1, EndpointView::SelfPort(wires[index].0))),
    decreases count,
{
    if index < count - 1 {
        wire_links_contains(wires, (count - 1) as nat, index);
    }
}

/// Every input bit that is used in the end is there for a reason.
proof fn use_explained(
    parts: StateParts,
    state_links: Set<Link>,
    state_used: Set<Seq<char>>,
    with_outputs: Wiring,
    with_leaf: Wiring,
    links: Set<Link>,
    direct: Seq<(Seq<char>, EndpointView)>,
    name: Seq<char>,
)
    requires
        forall|other: Seq<char>| #[trigger]
            state_used.contains(other) ==> self_driven(state_links, other) || is_declared(parts.cones, other),
        uses_follow(state_used, with_outputs.used@, parts.side.cone, direct),
        uses_explained(with_outputs, with_leaf),
        direct.len() <= parts.side.wires.len(),
        forall|i: int| 0 <= i < direct.len() ==> #[trigger] direct[i] == parts.side.wires[i],
        links == with_leaf.links().union(wire_links(parts.side.wires, parts.side.wires.len())),
        state_links.subset_of(with_leaf.links()),
        with_leaf.used@.contains(name),
    ensures
        is_use_explained(parts, links, name),
{
    driven_stays(with_outputs, with_leaf, name);
    if self_driven(with_leaf.links(), name) {
        let sink = choose|sink: EndpointView| with_leaf.links().contains((EndpointView::SelfPort(name), sink));
        assert(links.contains((EndpointView::SelfPort(name), sink)));
    } else {
        assert(with_outputs.used@.contains(name));
        if state_used.contains(name) {
            if self_driven(state_links, name) {
                let sink = choose|sink: EndpointView| state_links.contains((EndpointView::SelfPort(name), sink));
                assert(with_leaf.links().contains((EndpointView::SelfPort(name), sink)));
            }
        } else if !parts.side.cone.producers.contains_key(name) {
            let i = choose|i: int| 0 <= i < direct.len() && (#[trigger] direct[i]).1 == EndpointView::SelfPort(name);
            wire_links_contains(parts.side.wires, parts.side.wires.len(), i);
            assert(parts.side.wires[i] == direct[i]);
            assert(links.contains((EndpointView::SelfPort(name), EndpointView::SelfPort(direct[i].0))));
        }
    }
}

/// Direct wires and leaf outputs make up the output side.
proof fn output_side_holds<F: Fn(&Vec<GraphNode>) -> Result<usize, LowerError>>(
    module: ModuleView,
    elements: Map<Seq<char>, Seq<char>>,
    prepared_count: F,
    side: OutputSide,
    direct: Seq<(Seq<char>, EndpointView)>,
    sources: Seq<Seq<char>>,
    requested: Seq<Seq<char>>,
    emitted: Set<int>,
)
    requires
        builder_wf(side.cone),
        is_clean_from(module, output_roots(module)) ==> cone_inv(
            logic_cells(module, output_roots(module)),
            net_widths(module.nets),
            boundary_of(module),
            side.cone,
            emitted,
        ),
        are_direct_wires(module, elements, side.cone, direct, sources),
        are_leaf_outputs(module, side.cone, requested),
        are_output_bits(module.ports, net_widths(module.nets), direct, requested),
        forall|name: Seq<char>| #[trigger]
            is_output_bit(module.ports, net_widths(module.nets), name) ==> is_covered(direct, requested, name),
        side.leaf is Some <==> requested.len() > 0,
        side.leaf is Some ==> is_bounded_partition(
            side.cone,
            module.name + "_out"@,
            LEAF_NODE_BUDGET,
            prepared_count,
            side.leaf->0,
        ),
        side.wires.len() == direct.len() + requested.len(),
        forall|i: int| 0 <= i < direct.len() ==> #[trigger] side.wires[i] == direct[i],
        forall|j: int|
            0 <= j < requested.len() ==> {
                let name = requested[j];
                let leaf = side.leaf->0;
                &&& (#[trigger] side.wires[direct.len() + j]).0 == name
                &&& leaf.output_sources@.contains_key(name)
                &&& side.wires[direct.len() + j].1 == EndpointView::InstancePort(
                    leaf.output_sources@[name].0@,
                    leaf.output_sources@[name].1@,
                )
            },
        forall|j: int| 0 <= j < requested.len() ==> !elements.contains_key(#[trigger] requested[j]),
    ensures
        is_output_side(module, elements, prepared_count, side),
{
    let widths = net_widths(module.nets);
    assert forall|i: int| 0 <= i < side.wires.len() implies is_output_wire(
        module,
        elements,
        side,
        #[trigger] side.wires[i],
    ) && is_output_bit(module.ports, widths, side.wires[i].0) by {
        if i < direct.len() {
            assert(side.wires[i] == direct[i]);
            if !elements.contains_key(direct[i].0) {
                assert(scalar_driver(elements, sources[i]) == side.wires[i].1);
            }
        } else {
            let j = i - direct.len();
            assert(side.wires[direct.len() + j].0 == requested[j]);
            assert(side.cone.outputs[j].0 == requested[j]);
            assert(is_requested_output(module, side.cone, side.wires[i].0, j));
            assert(!elements.contains_key(requested[j]));
        }
    }
    assert forall|index: int, bit: nat, name: Seq<char>| #[trigger]
        is_port_bit(module.ports, widths, LogicalPortDirection::Output, index, bit, name) implies exists|i: int|
        0 <= i < side.wires.len() && (#[trigger] side.wires[i]).0 == name by {
        assert(is_output_bit(module.ports, widths, name));
        assert(is_covered(direct, requested, name));
        if exists|i: int| 0 <= i < direct.len() && (#[trigger] direct[i]).0 == name {
            let i = choose|i: int| 0 <= i < direct.len() && (#[trigger] direct[i]).0 == name;
            assert(side.wires[i].0 == name);
        } else {
            let j = choose|j: int| 0 <= j < requested.len() && #[trigger] requested[j] == name;
            assert(side.wires[direct.len() + j].0 == name);
        }
    }
}

} // verus!

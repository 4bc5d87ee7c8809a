//! What lowered state does: how the outputs of a design follow clocks, enables and
//! data over time.

use super::error::LowerError;
use super::leaf::{d_latch_nodes, leaf_module, leaf_node, not_clock_nodes};
use super::nets::connects;
use super::scalar::{net_widths, scalar_text};
use super::sequential::{
    all_element_modules, all_leaves, all_links, element_modules, is_state_design, state_links, StateParts,
};
use super::state_plan::{elements_of, live_cells, live_cells_are_live, state_bit, state_edge, state_net, Link};
use super::wiring::{bit_links, control_bit, element_links, source_driver};
use crate::graph::{GraphNode, NodeView};
use crate::ir::logical::{
    kind_is_sequential, pin_net, pin_value, CellView, ClockEdge, LogicalCellKind, ModuleView, ValueView,
};
use crate::ir::routable::{
    BodyView, EndpointView, RoutableDesign, RoutableKindView, RoutableModuleView, RoutableNetView, RoutableNodeView,
};
use crate::ir::target::{MappingPolicy, TargetView};
use crate::logic::{logic_value, LogicType};
use crate::sequential::SequentialType;
use vstd::prelude::*;

verus! {

// ---------------------------------------------------------------------------
// Runs
// ---------------------------------------------------------------------------
/// What every end of a net carries at every moment.
pub type Run = spec_fn(nat, EndpointView) -> bool;

/// The values of the nodes of a leaf at every moment.
pub type NodeValues = spec_fn(nat, int) -> bool;

/// The place of a port among the inputs of a storage node.
pub open spec fn is_pin(ports: Seq<Seq<char>>, port: Seq<char>, pin: int) -> bool {
    0 <= pin < ports.len() && ports[pin] == port
}

/// Whether the value of a latch is its data while its enable is on, and what it was
/// before while the enable is off.
pub open spec fn latch_holds(ports: Seq<Seq<char>>, read: Seq<bool>, own: bool, before: Option<bool>) -> bool {
    forall|data: int, enable: int| #[trigger]
        is_pin(ports, "d"@, data) && #[trigger] is_pin(ports, "en"@, enable) && ports.len() == read.len() ==> {
            &&& read[enable] ==> own == read[data]
            &&& !read[enable] && before is Some ==> before == Some(own)
        }
}

/// Whether a node of a leaf of some instance does what it is for at a moment: an input
/// shows what arrives at its port, an output what goes out there, logic computes, and a
/// latch is open while its enable is on and holds its value otherwise.
pub open spec fn node_runs(
    instance: Seq<char>,
    nodes: Seq<RoutableNodeView>,
    id: int,
    run: Run,
    values: NodeValues,
    now: nat,
) -> bool {
    let node = nodes[id];
    let read = Seq::new(node.inputs.len(), |pin: int| values(now, node.inputs[pin] as int));
    let own = values(now, id);
    match node.kind {
        RoutableKindView::Input(name) => own == run(now, EndpointView::InstancePort(instance, name)),
        RoutableKindView::Constant(value) => own == value,
        RoutableKindView::Output(name) => node.inputs.len() == 1 ==> own == read[0] && run(
            now,
            EndpointView::InstancePort(instance, name),
        ) == read[0],
        RoutableKindView::Not => own == logic_value(LogicType::Not, read),
        RoutableKindView::And => own == logic_value(LogicType::And, read),
        RoutableKindView::Or => own == logic_value(LogicType::Or, read),
        RoutableKindView::Xor => own == logic_value(LogicType::Xor, read),
        RoutableKindView::Sequential(SequentialType::DLatch, ports, _) => latch_holds(
            ports,
            read,
            own,
            if now > 0 {
                Some(values((now - 1) as nat, id))
            } else {
                None
            },
        ),
        RoutableKindView::Sequential(_, _, _) => true,
    }
}

/// Whether all nodes of a leaf do what they are for, all the time.
pub open spec fn nodes_run(
    instance: Seq<char>,
    nodes: Seq<RoutableNodeView>,
    run: Run,
    values: NodeValues,
) -> bool {
    forall|id: int, now: nat|
        0 <= id < nodes.len() ==> #[trigger] node_runs(instance, nodes, id, run, values, now)
}

/// Whether an instance of a leaf runs as the leaf asks. It has the leaf's name.
pub open spec fn leaf_runs(leaf: RoutableModuleView, run: Run) -> bool {
    match leaf.body {
        BodyView::Leaf(nodes) => exists|values: NodeValues| #[trigger] nodes_run(leaf.name, nodes, run, values),
        BodyView::Composite(_, _) => true,
    }
}

/// Whether nets carry at their sinks what they do at their drivers.
pub open spec fn nets_run(nets: Seq<RoutableNetView>, run: Run) -> bool {
    forall|driver: EndpointView, sink: EndpointView, now: nat|
        #![trigger connects(nets, driver, sink), run(now, sink)]
        connects(nets, driver, sink) ==> run(now, sink) == run(now, driver)
}

/// Whether leaves and the nets between them run as they ask.
pub open spec fn all_run(leaves: Seq<RoutableModuleView>, nets: Seq<RoutableNetView>, run: Run) -> bool {
    &&& nets_run(nets, run)
    &&& forall|k: int| 0 <= k < leaves.len() ==> leaf_runs(#[trigger] leaves[k], run)
}

/// Bits over time.
pub type Bits = spec_fn(nat) -> bool;

/// What one end of a net carries over time.
pub open spec fn at_end(run: Run, end: EndpointView) -> Bits {
    |now: nat| run(now, end)
}

/// Whether a clock has its edge between a moment and the one before.
pub open spec fn fires(edge: ClockEdge, before: bool, now: bool) -> bool {
    match edge {
        ClockEdge::Posedge => !before && now,
        ClockEdge::Negedge => before && !now,
    }
}

/// Whether a bit changes at edges of a clock only, and then to what the data was just
/// before.
pub open spec fn follows_edge(edge: ClockEdge, clock: Bits, data: Bits, stored: Bits) -> bool {
    forall|now: nat|
        now > 0 ==> #[trigger] stored(now) == (if fires(edge, clock((now - 1) as nat), clock(now)) {
            data((now - 1) as nat)
        } else {
            stored((now - 1) as nat)
        })
}

/// Whether a bit is what the data is while an enable is on, and stays as it is while
/// the enable is off.
pub open spec fn follows_level(enable: Bits, data: Bits, stored: Bits) -> bool {
    forall|now: nat|
        {
            &&& enable(now) ==> #[trigger] stored(now) == data(now)
            &&& !enable(now) && now > 0 ==> stored(now) == stored((now - 1) as nat)
        }
}

/// Whether a bit follows the control of a state cell as its kind asks.
pub open spec fn follows(kind: LogicalCellKind, control: Bits, data: Bits, stored: Bits) -> bool {
    match kind {
        LogicalCellKind::Dff { edge } => follows_edge(edge, control, data, stored),
        LogicalCellKind::Register { edge, .. } => follows_edge(edge, control, data, stored),
        _ => follows_level(control, data, stored),
    }
}

/// The net on the pin that controls a state cell.
pub open spec fn control_of(cell: CellView) -> Option<ValueView> {
    pin_value(
        cell.inputs,
        if cell.kind is DLatch {
            "enable"@
        } else {
            "clock"@
        },
    )
}

/// What controls a state cell, over time: the first bit of its clock or enable.
pub open spec fn control_bits(cell: CellView, widths: Map<Seq<char>, usize>, run: Run) -> Bits {
    let net = control_of(cell)->0->Net_0;
    at_end(run, EndpointView::SelfPort(scalar_text(net, widths[net], 0)))
}

// ---------------------------------------------------------------------------
// Latches and inverters
// ---------------------------------------------------------------------------
proof fn latch_follows(name: Seq<char>, run: Run)
    requires
        leaf_runs(leaf_module(name, d_latch_nodes()), run),
    ensures
        follows_level(
            at_end(run, EndpointView::InstancePort(name, "en"@)),
            at_end(run, EndpointView::InstancePort(name, "d"@)),
            at_end(run, EndpointView::InstancePort(name, "q"@)),
        ),
{
    let nodes = d_latch_nodes().map_values(|node: NodeView| leaf_node(node));
    let values = choose|values: NodeValues| #[trigger] nodes_run(name, nodes, run, values);
    let enable = at_end(run, EndpointView::InstancePort(name, "en"@));
    let data = at_end(run, EndpointView::InstancePort(name, "d"@));
    let stored = at_end(run, EndpointView::InstancePort(name, "q"@));
    let ports = seq!["d"@, "en"@];
    assert(nodes[0].kind == RoutableKindView::Input("d"@));
    assert(nodes[1].kind == RoutableKindView::Input("en"@));
    assert(nodes[2].kind == RoutableKindView::Sequential(SequentialType::DLatch, ports, seq!["q"@]));
    assert(nodes[3].kind == RoutableKindView::Output("q"@));
    assert forall|now: nat|
        {
            &&& values(now, 0) == data(now)
            &&& values(now, 1) == enable(now)
            &&& stored(now) == #[trigger] values(now, 2)
            &&& enable(now) ==> values(now, 2) == data(now)
            &&& !enable(now) && now > 0 ==> values(now, 2) == values((now - 1) as nat, 2)
        } by {
        assert(node_runs(name, nodes, 0, run, values, now));
        assert(node_runs(name, nodes, 1, run, values, now));
        assert(node_runs(name, nodes, 2, run, values, now));
        assert(node_runs(name, nodes, 3, run, values, now));
        assert(nodes[2].inputs == seq![0usize, 1usize]);
        assert(nodes[3].inputs == seq![2usize]);
        let read = Seq::new(nodes[2].inputs.len(), |pin: int| values(now, nodes[2].inputs[pin] as int));
        assert(nodes[2].inputs[0] == 0 && nodes[2].inputs[1] == 1);
        assert(read[0] == values(now, 0) && read[1] == values(now, 1));
        assert(is_pin(ports, "d"@, 0) && is_pin(ports, "en"@, 1) && ports.len() == read.len());
        assert(nodes[3].inputs[0] == 2);
        let out = Seq::new(nodes[3].inputs.len(), |pin: int| values(now, nodes[3].inputs[pin] as int));
        assert(out[0] == values(now, 2));
        assert(values(now, 0) == data(now));
        assert(values(now, 1) == enable(now));
        assert(stored(now) == values(now, 2));
        let before = if now > 0 {
            Some(values((now - 1) as nat, 2))
        } else {
            None
        };
        assert(latch_holds(ports, read, values(now, 2), before));
    }
    assert forall|now: nat|
        {
            &&& enable(now) ==> #[trigger] stored(now) == data(now)
            &&& !enable(now) && now > 0 ==> stored(now) == stored((now - 1) as nat)
        } by {
        assert(stored(now) == values(now, 2));
        if now > 0 {
            assert(stored((now - 1) as nat) == values((now - 1) as nat, 2));
        }
    }
}

proof fn inverter_inverts(name: Seq<char>, run: Run, now: nat)
    requires
        leaf_runs(leaf_module(name, not_clock_nodes()), run),
    ensures
        run(now, EndpointView::InstancePort(name, "clk_n"@)) == !run(now, EndpointView::InstancePort(name, "clk"@)),
{
    let nodes = not_clock_nodes().map_values(|node: NodeView| leaf_node(node));
    let values = choose|values: NodeValues| #[trigger] nodes_run(name, nodes, run, values);
    assert(nodes[0].kind == RoutableKindView::Input("clk"@));
    assert(nodes[1].kind == RoutableKindView::Not);
    assert(nodes[2].kind == RoutableKindView::Output("clk_n"@));
    assert(node_runs(name, nodes, 0, run, values, now));
    assert(node_runs(name, nodes, 1, run, values, now));
    assert(node_runs(name, nodes, 2, run, values, now));
    assert(nodes[1].inputs == seq![0usize]);
    assert(nodes[2].inputs == seq![1usize]);
    let read = Seq::new(nodes[1].inputs.len(), |pin: int| values(now, nodes[1].inputs[pin] as int));
    assert(read =~= seq![values(now, 0)]);
}

/// A latch behind a latch that is open while the first is closed takes the data of the
/// first when the first closes.
proof fn pair_follows(opens: Bits, first: Bits, data: Bits, second: Bits)
    requires
        follows_level(|now: nat| !opens(now), data, first),
        follows_level(opens, first, second),
    ensures
        follows_edge(ClockEdge::Posedge, opens, data, second),
{
    let closed = |now: nat| !opens(now);
    assert forall|now: nat| now > 0 implies #[trigger] second(now) == (if fires(
        ClockEdge::Posedge,
        opens((now - 1) as nat),
        opens(now),
    ) {
        data((now - 1) as nat)
    } else {
        second((now - 1) as nat)
    }) by {
        let before = (now - 1) as nat;
        assert(closed(now) == !opens(now) && closed(before) == !opens(before));
        assert(first(now) == first(now) && first(before) == first(before));
        assert(second(before) == second(before));
        if opens(now) {
            assert(second(now) == first(now));
            assert(first(now) == first(before));
            if opens(before) {
                assert(second(before) == first(before));
            } else {
                assert(first(before) == data(before));
            }
        }
    }
}

// ---------------------------------------------------------------------------
// Elements
// ---------------------------------------------------------------------------
proof fn element_is_there(cell: CellView, widths: Map<Seq<char>, usize>, count: nat, bit: nat)
    requires
        bit < count,
    ensures
        ({
            let name = state_bit(cell, widths, bit);
            let modules = element_modules(cell, widths, count);
            if state_edge(cell.kind) is Some {
                &&& modules.contains(leaf_module(name + "_clk_inv"@, not_clock_nodes()))
                &&& modules.contains(leaf_module(name + "_master"@, d_latch_nodes()))
                &&& modules.contains(leaf_module(name + "_slave"@, d_latch_nodes()))
            } else {
                modules.contains(leaf_module(name + "_latch"@, d_latch_nodes()))
            }
        }),
    decreases count,
{
    let name = state_bit(cell, widths, bit);
    let modules = element_modules(cell, widths, count);
    let before = element_modules(cell, widths, (count - 1) as nat);
    let start = before.len() as int;
    if bit == count - 1 {
        if state_edge(cell.kind) is Some {
            assert(modules[start] == leaf_module(name + "_clk_inv"@, not_clock_nodes()));
            assert(modules[start + 1] == leaf_module(name + "_master"@, d_latch_nodes()));
            assert(modules[start + 2] == leaf_module(name + "_slave"@, d_latch_nodes()));
        } else {
            assert(modules[start] == leaf_module(name + "_latch"@, d_latch_nodes()));
        }
    } else {
        element_is_there(cell, widths, (count - 1) as nat, bit);
        assert forall|module: RoutableModuleView| before.contains(module) implies #[trigger] modules.contains(module) by {
            let i = choose|i: int| 0 <= i < before.len() && before[i] == module;
            assert(modules[i] == module);
        }
    }
}

proof fn elements_are_there(
    cells: Seq<CellView>,
    widths: Map<Seq<char>, usize>,
    live: Seq<int>,
    count: nat,
    i: int,
    module: RoutableModuleView,
)
    requires
        0 <= i < count <= live.len(),
        element_modules(cells[live[i]], widths, widths[state_net(cells[live[i]])] as nat).contains(module),
    ensures
        all_element_modules(cells, widths, live, count).contains(module),
    decreases count,
{
    let all = all_element_modules(cells, widths, live, count);
    let before = all_element_modules(cells, widths, live, (count - 1) as nat);
    if i == count - 1 {
        let own = element_modules(cells[live[i]], widths, widths[state_net(cells[live[i]])] as nat);
        let k = choose|k: int| 0 <= k < own.len() && own[k] == module;
        assert(all[before.len() + k] == module);
    } else {
        elements_are_there(cells, widths, live, (count - 1) as nat, i, module);
        let k = choose|k: int| 0 <= k < before.len() && before[k] == module;
        assert(all[k] == module);
    }
}

proof fn element_runs(module: ModuleView, parts: StateParts, run: Run, i: int, element: RoutableModuleView)
    requires
        forall|k: int| 0 <= k < all_leaves(module, parts).len() ==> leaf_runs(#[trigger] all_leaves(module, parts)[k], run),
        0 <= i < live_cells(module, module.cells.len()).len(),
        ({
            let cell = module.cells[live_cells(module, module.cells.len())[i]];
            element_modules(cell, net_widths(module.nets), net_widths(module.nets)[state_net(cell)] as nat).contains(
                element,
            )
        }),
    ensures
        leaf_runs(element, run),
{
    let widths = net_widths(module.nets);
    let live = live_cells(module, module.cells.len());
    let first = super::sequential::next_modules(parts.leaves, live.len());
    let elements = all_element_modules(module.cells, widths, live, live.len());
    let all = all_leaves(module, parts);
    elements_are_there(module.cells, widths, live, live.len(), i, element);
    let k = choose|k: int| 0 <= k < elements.len() && elements[k] == element;
    assert(all[first.len() + k] == element);
}

proof fn bit_is_linked(
    cell: CellView,
    widths: Map<Seq<char>, usize>,
    elements: Map<Seq<char>, Seq<char>>,
    sources: Seq<super::next_state::NextSource>,
    count: nat,
    bit: nat,
    link: Link,
)
    requires
        bit < count,
        bit_links(
            cell,
            state_bit(cell, widths, bit),
            control_bit(cell, widths),
            source_driver(elements, sources[bit as int]@),
        ).contains(link),
    ensures
        element_links(cell, widths, elements, sources, count).contains(link),
    decreases count,
{
    if bit < count - 1 {
        bit_is_linked(cell, widths, elements, sources, (count - 1) as nat, bit, link);
    }
}

proof fn cell_is_linked(
    cells: Seq<CellView>,
    widths: Map<Seq<char>, usize>,
    live: Seq<int>,
    elements: Map<Seq<char>, Seq<char>>,
    leaves: Seq<super::next_state::NextLeaf>,
    count: nat,
    i: int,
    link: Link,
)
    requires
        0 <= i < count,
        element_links(
            cells[live[i]],
            widths,
            elements,
            leaves[i].sources@,
            widths[state_net(cells[live[i]])] as nat,
        ).contains(link),
    ensures
        state_links(cells, widths, live, elements, leaves, count).contains(link),
    decreases count,
{
    if i < count - 1 {
        cell_is_linked(cells, widths, live, elements, leaves, (count - 1) as nat, i, link);
    }
}

/// What a link of a state bit carries.
proof fn link_carries<F: Fn(&Vec<GraphNode>) -> Result<usize, LowerError>>(
    module: ModuleView,
    target: TargetView,
    policy: MappingPolicy,
    prepared_count: F,
    design: RoutableDesign,
    parts: StateParts,
    used: Set<Seq<char>>,
    nets: Seq<RoutableNetView>,
    run: Run,
    i: int,
    bit: nat,
    driver: EndpointView,
    sink: EndpointView,
)
    requires
        is_state_design(module, target, policy, prepared_count, design, parts, used, nets),
        nets_run(nets, run),
        0 <= i < live_cells(module, module.cells.len()).len(),
        ({
            let widths = net_widths(module.nets);
            let live = live_cells(module, module.cells.len());
            let cell = module.cells[live[i]];
            let elements = elements_of(module.cells, widths, live, live.len());
            &&& bit < widths[state_net(cell)]
            &&& bit_links(
                cell,
                state_bit(cell, widths, bit),
                control_bit(cell, widths),
                source_driver(elements, parts.leaves[i].sources@[bit as int]@),
            ).contains((driver, sink))
        }),
    ensures
        forall|now: nat| #[trigger] run(now, sink) == run(now, driver),
{
    let widths = net_widths(module.nets);
    let live = live_cells(module, module.cells.len());
    let cell = module.cells[live[i]];
    let elements = elements_of(module.cells, widths, live, live.len());
    let count = widths[state_net(cell)] as nat;
    bit_is_linked(cell, widths, elements, parts.leaves[i].sources@, count, bit, (driver, sink));
    cell_is_linked(module.cells, widths, live, elements, parts.leaves, live.len(), i, (driver, sink));
    assert(all_links(module, parts).contains((driver, sink)));
    assert(connects(nets, driver, sink));
}

/// The end that shows a bit of a state cell: the slave of a register, or the latch.
pub open spec fn stored_end(cell: CellView, name: Seq<char>) -> EndpointView {
    EndpointView::InstancePort(
        if cell.kind is DLatch {
            name + "_latch"@
        } else {
            name + "_slave"@
        },
        "q"@,
    )
}

/// A lowered state cell behaves as its kind says. In every run of the design, each bit
/// of a register changes only when its clock has the register's edge, and then to what
/// its data was just before; each bit of a latch is its data while the enable is on, and
/// stays as it is while the enable is off.
pub proof fn lowered_state_follows_its_control<F: Fn(&Vec<GraphNode>) -> Result<usize, LowerError>>(
    module: ModuleView,
    target: TargetView,
    policy: MappingPolicy,
    prepared_count: F,
    design: RoutableDesign,
    parts: StateParts,
    used: Set<Seq<char>>,
    nets: Seq<RoutableNetView>,
    run: Run,
    i: int,
    bit: nat,
)
    requires
        is_state_design(module, target, policy, prepared_count, design, parts, used, nets),
        all_run(all_leaves(module, parts), nets, run),
        0 <= i < live_cells(module, module.cells.len()).len(),
        bit < net_widths(module.nets)[pin_net(
            module.cells[live_cells(module, module.cells.len())[i]].outputs,
            "q"@,
        )->0],
    ensures
        ({
            let widths = net_widths(module.nets);
            let live = live_cells(module, module.cells.len());
            let cell = module.cells[live[i]];
            let net = pin_net(cell.outputs, "q"@)->0;
            let elements = elements_of(module.cells, widths, live, live.len());
            follows(
                cell.kind,
                control_bits(cell, widths, run),
                at_end(run, source_driver(elements, parts.leaves[i].sources@[bit as int]@)),
                at_end(run, stored_end(cell, scalar_text(net, widths[net], bit))),
            )
        }),
{
    let widths = net_widths(module.nets);
    let live = live_cells(module, module.cells.len());
    let cell = module.cells[live[i]];
    let net = pin_net(cell.outputs, "q"@)->0;
    let name = scalar_text(net, widths[net], bit);
    let elements = elements_of(module.cells, widths, live, live.len());
    let source = source_driver(elements, parts.leaves[i].sources@[bit as int]@);
    let control = control_bits(cell, widths, run);
    let data = at_end(run, source);
    let clock_end = EndpointView::SelfPort(control_bit(cell, widths));
    live_cells_are_live(module, module.cells.len());
    assert(kind_is_sequential(cell.kind));
    assert(name == state_bit(cell, widths, bit));
    element_is_there(cell, widths, widths[net] as nat, bit);
    assert(control =~= at_end(run, clock_end));
    if cell.kind is DLatch {
        let latch = name + "_latch"@;
        let element = leaf_module(latch, d_latch_nodes());
        element_runs(module, parts, run, i, element);
        latch_follows(latch, run);
        let enable_end = EndpointView::InstancePort(latch, "en"@);
        let data_end = EndpointView::InstancePort(latch, "d"@);
        link_carries(
            module,
            target,
            policy,
            prepared_count,
            design,
            parts,
            used,
            nets,
            run,
            i,
            bit,
            clock_end,
            enable_end,
        );
        link_carries(module, target, policy, prepared_count, design, parts, used, nets, run, i, bit, source, data_end);
        assert(at_end(run, enable_end) =~= control);
        assert(at_end(run, data_end) =~= data);
    } else {
        let inverter = name + "_clk_inv"@;
        let master = name + "_master"@;
        let slave = name + "_slave"@;
        let edge = state_edge(cell.kind)->0;
        element_runs(module, parts, run, i, leaf_module(inverter, not_clock_nodes()));
        element_runs(module, parts, run, i, leaf_module(master, d_latch_nodes()));
        element_runs(module, parts, run, i, leaf_module(slave, d_latch_nodes()));
        latch_follows(master, run);
        latch_follows(slave, run);
        let inverted = |now: nat| !control(now);
        let in_end = EndpointView::InstancePort(inverter, "clk"@);
        let out_end = EndpointView::InstancePort(inverter, "clk_n"@);
        let (low, high) = match edge {
            ClockEdge::Posedge => (master, slave),
            ClockEdge::Negedge => (slave, master),
        };
        let low_end = EndpointView::InstancePort(low, "en"@);
        let high_end = EndpointView::InstancePort(high, "en"@);
        let data_end = EndpointView::InstancePort(master, "d"@);
        let master_end = EndpointView::InstancePort(master, "q"@);
        let slave_end = EndpointView::InstancePort(slave, "d"@);
        link_carries(module, target, policy, prepared_count, design, parts, used, nets, run, i, bit, clock_end, in_end);
        link_carries(module, target, policy, prepared_count, design, parts, used, nets, run, i, bit, out_end, low_end);
        link_carries(
            module,
            target,
            policy,
            prepared_count,
            design,
            parts,
            used,
            nets,
            run,
            i,
            bit,
            clock_end,
            high_end,
        );
        link_carries(module, target, policy, prepared_count, design, parts, used, nets, run, i, bit, source, data_end);
        link_carries(
            module,
            target,
            policy,
            prepared_count,
            design,
            parts,
            used,
            nets,
            run,
            i,
            bit,
            master_end,
            slave_end,
        );
        assert forall|now: nat| #[trigger] at_end(run, low_end)(now) == inverted(now) by {
            inverter_inverts(inverter, run, now);
            assert(run(now, low_end) == run(now, out_end));
            assert(run(now, in_end) == run(now, clock_end));
        }
        assert(at_end(run, low_end) =~= inverted);
        assert(at_end(run, high_end) =~= control);
        assert(at_end(run, data_end) =~= data);
        assert(at_end(run, slave_end) =~= at_end(run, master_end));
        let first = at_end(run, master_end);
        let second = at_end(run, stored_end(cell, name));
        match edge {
            ClockEdge::Posedge => {
                pair_follows(control, first, data, second);
            },
            ClockEdge::Negedge => {
                assert((|now: nat| !inverted(now)) =~= control);
                pair_follows(inverted, first, data, second);
                assert forall|now: nat| now > 0 implies #[trigger] second(now) == (if fires(
                    ClockEdge::Negedge,
                    control((now - 1) as nat),
                    control(now),
                ) {
                    data((now - 1) as nat)
                } else {
                    second((now - 1) as nat)
                }) by {
                    assert(inverted(now) == !control(now));
                    assert(inverted((now - 1) as nat) == !control((now - 1) as nat));
                }
            },
        }
    }
}

} // verus!

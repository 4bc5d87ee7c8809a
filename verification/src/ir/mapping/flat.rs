//! Lowering of flat modules without state.

use super::combinational::{cell_fits, emit_cell, emit_outcome, Outcome};
use super::cone::{
    cone_inv, drivers_unique, drives, emit_keeps_cone, emitted_is_ready, growth_keeps_cone, grown_stays_allowed,
    is_allowed_cone,
};
use super::design::{
    composite_module, composite_view, filtered_ports, finish_design, is_design_of, is_design_validator,
    is_invalid_design, is_validated, logical_ports_filtered,
};
use super::error::{ErrorView, LowerError};
use super::nets::{
    all_connected, classify_logical_net, connecting_next, connects, drivers_differ, finished_nets_connect,
    instance_port, is_finished, net_class, net_views, self_port, Connection, NetConnections,
};
use super::partition::{is_bounded_partition, is_partition, is_partition_error, PartitionedLeaf};
use super::refusal::{
    all_cells, cone_error, emitted_names, input_names, inputs_error, inputs_error_stays, known_ports, outcome_by_names,
    outputs_error, outputs_error_stays, pass, pass_error_stays, passes,
};
use super::scalar::{bit_texts, builder_wf, net_widths, scalar_text, BuilderView, LeafBuilder, ScalarNets};
use super::wiring::leaf_source;
use crate::graph::{GraphNode, KindView};
use crate::ir::logical::{CellView, LogicalModule, LogicalPortDirection, ModuleView, PortView};
use crate::ir::routable::{
    module_views, EndpointView, NetClass, RoutableDesign, RoutableModuleView, RoutableNetView,
};
use crate::ir::target::{MappingPolicy, TargetSpec, TargetView};
use crate::text::texts;
use vstd::hash_set::StringHashSet;
use vstd::prelude::*;

verus! {

/// Node budget for one leaf.
pub const LEAF_NODE_BUDGET: usize = 28;

/// Whether `name` is bit `bit` of port `index`.
pub open spec fn is_port_bit(
    ports: Seq<PortView>,
    widths: Map<Seq<char>, usize>,
    direction: LogicalPortDirection,
    index: int,
    bit: nat,
    name: Seq<char>,
) -> bool {
    &&& 0 <= index < ports.len()
    &&& ports[index].direction == direction
    &&& bit < widths[ports[index].net]
    &&& name == scalar_text(ports[index].net, widths[ports[index].net], bit)
}

/// Whether `name` is a bit of an input port.
pub open spec fn is_input_bit(ports: Seq<PortView>, widths: Map<Seq<char>, usize>, name: Seq<char>) -> bool {
    exists|index: int, bit: nat| #[trigger]
        is_port_bit(ports, widths, LogicalPortDirection::Input, index, bit, name)
}

/// The outputs of the ports among `ports`: each bit and its producer.
pub open spec fn port_outputs(
    ports: Seq<PortView>,
    widths: Map<Seq<char>, usize>,
    producers: Map<Seq<char>, usize>,
) -> Seq<(Seq<char>, usize)>
    decreases ports.len(),
{
    if ports.len() == 0 {
        Seq::empty()
    } else {
        let port = ports.last();
        port_outputs(ports.drop_last(), widths, producers) + (match port.direction {
            LogicalPortDirection::Input => Seq::empty(),
            LogicalPortDirection::Output => bit_texts(port.net, widths[port.net]).map_values(
                |name: Seq<char>| (name, producers[name]),
            ),
        })
    }
}

/// `cone` is the logic of a module without state: boundary inputs for the input
/// ports, every cell expanded, and a requested output for each output bit.
pub open spec fn is_module_cone(module: ModuleView, cone: BuilderView) -> bool {
    &&& is_cell_cone(module, cone)
    &&& cone.outputs == port_outputs(module.ports, net_widths(module.nets), cone.producers)
}

/// Whether what the cells `emitted` drive has producers.
pub open spec fn all_driven(
    cells: Seq<CellView>,
    widths: Map<Seq<char>, usize>,
    emitted: Set<int>,
    producers: Map<Seq<char>, usize>,
) -> bool {
    forall|i: int, name: Seq<char>|
        emitted.contains(i) && #[trigger] drives(cells[i], widths, name) ==> producers.contains_key(name)
}

/// Whether `name` is neither an input bit nor driven by a cell.
pub open spec fn is_undriven(module: ModuleView, name: Seq<char>) -> bool {
    &&& !is_input_bit(module.ports, net_widths(module.nets), name)
    &&& forall|i: int|
        0 <= i < module.cells.len() ==> !#[trigger] drives(module.cells[i], net_widths(module.nets), name)
}

/// `cone` holds boundary inputs for the input ports, and every cell expanded.
pub open spec fn is_cell_cone(module: ModuleView, cone: BuilderView) -> bool {
    let widths = net_widths(module.nets);
    let boundary = |name: Seq<char>| is_input_bit(module.ports, widths, name);
    &&& builder_wf(cone)
    &&& forall|name: Seq<char>| #[trigger] is_input_bit(module.ports, widths, name) ==> cone.producers.contains_key(name)
    &&& all_driven(module.cells, widths, Set::new(|i: int| 0 <= i < module.cells.len()), cone.producers)
    &&& drivers_unique(module.cells, widths, boundary) ==> cone_inv(
        module.cells,
        widths,
        boundary,
        cone,
        Set::new(|i: int| 0 <= i < module.cells.len()),
    )
}

/// Whether the leaves of a partition read `driver` at `sink`.
pub open spec fn leaf_reads(leaf: PartitionedLeaf, driver: EndpointView, sink: EndpointView) -> bool {
    exists|k: int, i: int|
        {
            let input = (#[trigger] leaf.instances[k].inputs[i])@;
            &&& 0 <= k < leaf.instances.len()
            &&& 0 <= i < leaf.instances[k].inputs.len()
            &&& sink == EndpointView::InstancePort(leaf.instances[k].instance@, input)
            &&& driver == (if leaf.intermediates@.contains_key(input) {
                EndpointView::InstancePort(leaf.intermediates@[input]@, input)
            } else {
                EndpointView::SelfPort(input)
            })
        }
}

/// The driver of output bit `name` of a partitioned cone.
pub open spec fn output_driver(leaf: PartitionedLeaf, name: Seq<char>) -> EndpointView {
    if leaf.output_sources@.contains_key(name) {
        EndpointView::InstancePort(leaf.output_sources@[name].0@, leaf.output_sources@[name].1@)
    } else {
        EndpointView::SelfPort(leaf.direct_outputs@[name]@)
    }
}

/// Whether `sink` is an output bit of the module and `driver` drives it.
pub open spec fn output_driven(
    ports: Seq<PortView>,
    widths: Map<Seq<char>, usize>,
    leaf: PartitionedLeaf,
    driver: EndpointView,
    sink: EndpointView,
) -> bool {
    exists|index: int, bit: nat, name: Seq<char>|
        {
            &&& #[trigger] is_port_bit(ports, widths, LogicalPortDirection::Output, index, bit, name)
            &&& sink == EndpointView::SelfPort(name)
            &&& driver == output_driver(leaf, name)
        }
}

/// Whether the composite reads the input bit `name`: a leaf does, or an output
/// repeats it.
pub open spec fn input_used(
    ports: Seq<PortView>,
    widths: Map<Seq<char>, usize>,
    leaf: PartitionedLeaf,
    name: Seq<char>,
) -> bool {
    ||| exists|k: int, i: int|
        {
            &&& 0 <= k < leaf.instances.len()
            &&& 0 <= i < leaf.instances[k].inputs.len()
            &&& (#[trigger] leaf.instances[k].inputs[i])@ == name
            &&& !leaf.intermediates@.contains_key(name)
        }
    ||| exists|index: int, bit: nat, output: Seq<char>|
        {
            &&& #[trigger] is_port_bit(ports, widths, LogicalPortDirection::Output, index, bit, output)
            &&& !leaf.output_sources@.contains_key(output)
            &&& leaf.direct_outputs@[output]@ == name
        }
}

/// The names of the leaves of a partition.
pub open spec fn instance_names(leaf: PartitionedLeaf) -> Seq<Seq<char>> {
    Seq::new(leaf.instances@.len(), |k: int| leaf.instances@[k].instance@)
}

/// `top` wires the leaves of a partition to each other and to the ports of the
/// module.
pub open spec fn is_composite_of(module: ModuleView, leaf: PartitionedLeaf, top: RoutableModuleView) -> bool {
    let widths = net_widths(module.nets);
    exists|nets: Seq<RoutableNetView>, used: Set<Seq<char>>|
        {
            &&& top == #[trigger] composite_view(
                module.name,
                filtered_ports(module.ports, widths, used),
                instance_names(leaf),
                nets,
            )
            &&& forall|name: Seq<char>| #[trigger] used.contains(name) <==> input_used(module.ports, widths, leaf, name)
            &&& forall|driver: EndpointView, sink: EndpointView| #[trigger]
                connects(nets, driver, sink) <==> leaf_reads(leaf, driver, sink) || output_driven(
                    module.ports,
                    widths,
                    leaf,
                    driver,
                    sink,
                )
            &&& forall|i: int, j: int| 0 <= i < j < nets.len() ==> (#[trigger] nets[i]).name != (#[trigger] nets[j]).name
            &&& is_finished(all_connected(composite_connections(module, leaf)), nets)
        }
}

/// The connections to the first `count` inputs of leaf `k`, where `elements` are the
/// state bits.
pub open spec fn input_connections(
    leaf: PartitionedLeaf,
    elements: Map<Seq<char>, Seq<char>>,
    k: int,
    count: nat,
) -> Seq<Connection>
    decreases count,
{
    if count == 0 {
        Seq::empty()
    } else {
        let input = leaf.instances[k].inputs[count - 1]@;
        input_connections(leaf, elements, k, (count - 1) as nat).push(
            Connection {
                name: input,
                class: net_class(input, false),
                driver: leaf_source(leaf, elements, input),
                sink: EndpointView::InstancePort(leaf.instances[k].instance@, input),
            },
        )
    }
}

/// The connections to the inputs of the first `count` leaves.
pub open spec fn leaf_connections(
    leaf: PartitionedLeaf,
    elements: Map<Seq<char>, Seq<char>>,
    count: nat,
) -> Seq<Connection>
    decreases count,
{
    if count == 0 {
        Seq::empty()
    } else {
        leaf_connections(leaf, elements, (count - 1) as nat) + input_connections(
            leaf,
            elements,
            count - 1,
            leaf.instances[count - 1].inputs@.len(),
        )
    }
}

/// The connection to a bit of an output port.
pub open spec fn output_connection(leaf: PartitionedLeaf, name: Seq<char>) -> Connection {
    Connection {
        name,
        class: NetClass::Io,
        driver: output_driver(leaf, name),
        sink: EndpointView::SelfPort(name),
    }
}

/// The connections to the bits of the first `count` ports, as far as they are
/// outputs.
pub open spec fn output_connections(
    ports: Seq<PortView>,
    widths: Map<Seq<char>, usize>,
    leaf: PartitionedLeaf,
    count: nat,
) -> Seq<Connection>
    decreases count,
{
    if count == 0 {
        Seq::empty()
    } else {
        let port = ports[count - 1];
        output_connections(ports, widths, leaf, (count - 1) as nat) + (match port.direction {
            LogicalPortDirection::Input => Seq::empty(),
            LogicalPortDirection::Output => bit_texts(port.net, widths[port.net]).map_values(
                |name: Seq<char>| output_connection(leaf, name),
            ),
        })
    }
}

/// The connections of a composite: to the inputs of its leaves, then to its
/// outputs.
pub open spec fn composite_connections(module: ModuleView, leaf: PartitionedLeaf) -> Seq<Connection> {
    leaf_connections(leaf, Map::empty(), leaf.instances@.len()) + output_connections(
        module.ports,
        net_widths(module.nets),
        leaf,
        module.ports.len(),
    )
}

/// `design` is what a module without state is lowered to: the leaf of its cone,
/// or a composite of the leaves into which the cone is split.
pub open spec fn is_lowered_cone<F: Fn(&Vec<GraphNode>) -> Result<usize, LowerError>>(
    module: ModuleView,
    target: TargetView,
    policy: MappingPolicy,
    prepared_count: F,
    design: RoutableDesign,
) -> bool {
    exists|cone: BuilderView, leaf: PartitionedLeaf|
        {
            &&& #[trigger] is_module_cone(module, cone)
            &&& is_allowed_cone(cone.nodes, policy)
            &&& #[trigger] is_bounded_partition(cone, module.name, LEAF_NODE_BUDGET, prepared_count, leaf)
            &&& is_assembled(module, target, leaf, design)
        }
}

/// Whether no requested output repeats an input.
pub open spec fn no_direct_outputs(leaf: PartitionedLeaf) -> bool {
    forall|name: Seq<char>| !#[trigger] leaf.direct_outputs@.contains_key(name)
}

/// `design` is a single leaf, or a composite of several.
pub open spec fn is_assembled(
    module: ModuleView,
    target: TargetView,
    leaf: PartitionedLeaf,
    design: RoutableDesign,
) -> bool {
    if leaf.instances.len() == 1 && no_direct_outputs(leaf) {
        is_design_of(module.name, target.name, module_views(leaf.modules@), design)
    } else {
        exists|top: RoutableModuleView|
            {
                &&& #[trigger] is_composite_of(module, leaf, top)
                &&& is_design_of(module.name, target.name, module_views(leaf.modules@).push(top), design)
            }
    }
}

/// Why a module without state cannot be lowered: its first defect or, where it has
/// none, a leaf of its logic that could not be prepared.
pub open spec fn is_cone_refused<F: Fn(&Vec<GraphNode>) -> Result<usize, LowerError>>(
    module: ModuleView,
    target: TargetView,
    policy: MappingPolicy,
    prepared_count: F,
    error: LowerError,
) -> bool {
    &&& is_cone_defect(module, target, policy, prepared_count, error)
    &&& match cone_error(module, target, policy) {
        Some(first) => error@ == first,
        None => exists|cone: BuilderView| #[trigger]
            is_module_cone(module, cone) && is_partition_error(cone, LEAF_NODE_BUDGET, prepared_count, error),
    }
}

/// Whether a module without state is lowered to a design that is not valid.
pub open spec fn is_cone_invalid<
    F: Fn(&Vec<GraphNode>) -> Result<usize, LowerError>,
    V: Fn(&RoutableDesign) -> Result<(), String>,
>(
    module: ModuleView,
    target: TargetView,
    policy: MappingPolicy,
    prepared_count: F,
    validate: V,
    error: LowerError,
) -> bool {
    &&& cone_error(module, target, policy) is None
    &&& exists|design: RoutableDesign| #[trigger]
        is_lowered_cone(module, target, policy, prepared_count, design) && is_invalid_design(validate, design, error)
}

/// What can be wrong with a module without state.
pub open spec fn is_cone_defect<F: Fn(&Vec<GraphNode>) -> Result<usize, LowerError>>(
    module: ModuleView,
    target: TargetView,
    policy: MappingPolicy,
    prepared_count: F,
    error: LowerError,
) -> bool {
    let widths = net_widths(module.nets);
    ||| exists|index: int|
        {
            &&& 0 <= index < module.ports.len()
            &&& !widths.contains_key((#[trigger] module.ports[index]).net)
            &&& error@ == ErrorView::UnknownNet(module.ports[index].net)
        }
    ||| exists|index: int, producers: Map<Seq<char>, usize>|
        {
            &&& 0 <= index < module.cells.len()
            &&& #[trigger] emit_outcome(module.cells[index], widths, producers, target, policy) == Outcome::Fail(
                error@,
            )
        }
    ||| exists|waiting: Seq<int>, producers: Map<Seq<char>, usize>|
        #[trigger] is_stuck(module, target, policy, waiting, producers) && error@ == ErrorView::Unresolved(
            waiting.map_values(|index: int| module.cells[index].name),
        )
    ||| exists|index: int, bit: nat, name: Seq<char>|
        {
            &&& #[trigger] is_port_bit(module.ports, widths, LogicalPortDirection::Output, index, bit, name)
            &&& is_undriven(module, name)
            &&& error@ == ErrorView::NoProducer(module.ports[index].name)
        }
    ||| exists|cone: BuilderView| #[trigger]
        is_module_cone(module, cone) && is_partition_error(cone, LEAF_NODE_BUDGET, prepared_count, error)
}

/// Whether some cells all wait for nets that have no producer, when the input bits
/// and what the other cells drive have one.
pub open spec fn is_stuck(
    module: ModuleView,
    target: TargetView,
    policy: MappingPolicy,
    waiting: Seq<int>,
    producers: Map<Seq<char>, usize>,
) -> bool {
    let widths = net_widths(module.nets);
    &&& waiting.len() > 0
    &&& forall|name: Seq<char>| #[trigger] is_input_bit(module.ports, widths, name) ==> producers.contains_key(name)
    &&& all_driven(
        module.cells,
        widths,
        Set::new(|i: int| 0 <= i < module.cells.len() && !waiting.contains(i)),
        producers,
    )
    &&& forall|i: int|
        0 <= i < waiting.len() ==> {
            &&& 0 <= #[trigger] waiting[i] < module.cells.len()
            &&& emit_outcome(
                module.cells[waiting[i]],
                net_widths(module.nets),
                producers,
                target,
                policy,
            ) is Wait
        }
}

/// Declares the input bits of a module.
fn declare_inputs(module: &LogicalModule, nets: &ScalarNets) -> (result: Result<LeafBuilder, LowerError>)
    requires
        nets@ == net_widths(module@.nets),
    ensures
        match result {
            Ok(builder) => {
                &&& inputs_error(module@.ports, nets@, module@.ports.len()) is None
                &&& builder.wf()
                &&& builder@.outputs.len() == 0
                &&& forall|i: int| 0 <= i < builder@.nodes.len() ==> (#[trigger] builder@.nodes[i]).kind is Input
                &&& forall|name: Seq<char>| #[trigger]
                    is_input_bit(module@.ports, nets@, name) <==> builder@.producers.contains_key(name)
                &&& cone_inv(
                    module@.cells,
                    nets@,
                    |name: Seq<char>| is_input_bit(module@.ports, nets@, name),
                    builder@,
                    Set::empty(),
                )
            },
            Err(error) => {
                &&& inputs_error(module@.ports, nets@, module@.ports.len()) == Some(error@)
                &&& exists|index: int|
                    {
                        &&& 0 <= index < module@.ports.len()
                        &&& !nets@.contains_key((#[trigger] module@.ports[index]).net)
                        &&& error@ == ErrorView::UnknownNet(module@.ports[index].net)
                    }
            },
        },
{
    let ghost ports = module@.ports;
    let ghost widths = nets@;
    let mut builder = LeafBuilder::new();
    for index in 0..module.ports.len()
        invariant
            ports == module@.ports,
            widths == nets@,
            inputs_error(ports, widths, index as nat) is None,
            builder.wf(),
            builder@.outputs.len() == 0,
            forall|i: int| 0 <= i < builder@.nodes.len() ==> (#[trigger] builder@.nodes[i]).kind is Input,
            forall|name: Seq<char>| #[trigger]
                builder@.producers.contains_key(name) ==> is_input_bit(ports, widths, name) && builder@.nodes[builder@.producers[name] as int].kind
                    == KindView::Input(name),
            forall|port: int, bit: nat, name: Seq<char>|
                port < index && #[trigger] is_port_bit(ports, widths, LogicalPortDirection::Input, port, bit, name)
                    ==> builder@.producers.contains_key(name),
    {
        let port = &module.ports[index];
        assert(ports[index as int] == port@);
        if matches!(port.direction, LogicalPortDirection::Input) {
            let bits = match nets.bits(port.net.as_str()) {
                Ok(bits) => bits,
                Err(error) => {
                    proof {
                        inputs_error_stays(ports, widths, (index + 1) as nat, ports.len());
                    }
                    return Err(error);
                },
            };
            let ghost width = widths[port.net@];
            assert(bits.len() == width) by {
                assert(texts(bits@).len() == bit_texts(port.net@, width).len());
            }
            for bit in 0..bits.len()
                invariant
                    ports == module@.ports,
                    widths == nets@,
                    index < ports.len(),
                    ports[index as int] == port@,
                    port.direction == LogicalPortDirection::Input,
                    width == widths[port.net@],
                    bits.len() == width,
                    texts(bits@) == bit_texts(port.net@, width),
                    builder.wf(),
                    builder@.outputs.len() == 0,
                    forall|i: int| 0 <= i < builder@.nodes.len() ==> (#[trigger] builder@.nodes[i]).kind is Input,
                    forall|name: Seq<char>| #[trigger]
                        builder@.producers.contains_key(name) ==> is_input_bit(ports, widths, name)
                            && builder@.nodes[builder@.producers[name] as int].kind == KindView::Input(name),
                    forall|port: int, bit: nat, name: Seq<char>|
                        port < index && #[trigger] is_port_bit(ports, widths, LogicalPortDirection::Input, port, bit, name)
                            ==> builder@.producers.contains_key(name),
                    forall|lower: nat|
                        lower < bit ==> builder@.producers.contains_key(#[trigger] scalar_text(port.net@, width, lower)),
            {
                proof {
                    assert(texts(bits@)[bit as int] == scalar_text(port.net@, width, bit as nat));
                    assert(is_port_bit(
                        ports,
                        widths,
                        LogicalPortDirection::Input,
                        index as int,
                        bit as nat,
                        bits[bit as int]@,
                    ));
                    builder.wf_gives();
                }
                let ghost before = builder@;
                builder.add_input(bits[bit].as_str());
                proof {
                    assert forall|name: Seq<char>| #[trigger] builder@.producers.contains_key(name) implies is_input_bit(
                        ports,
                        widths,
                        name,
                    ) && builder@.nodes[builder@.producers[name] as int].kind == KindView::Input(name) by {
                        if before.producers.contains_key(name) {
                            assert(before.producers[name] < before.nodes.len());
                        }
                    }
                }
            }
        }
        proof {
            assert forall|other: int, bit: nat, name: Seq<char>|
                other < index + 1 && #[trigger] is_port_bit(
                    ports,
                    widths,
                    LogicalPortDirection::Input,
                    other,
                    bit,
                    name,
                ) implies builder@.producers.contains_key(name) by {
                if other == index {
                    assert(builder@.producers.contains_key(scalar_text(port.net@, widths[port.net@], bit)));
                }
            }
        }
    }
    Ok(builder)
}

/// Places as integers.
spec fn places(ids: Seq<usize>) -> Seq<int> {
    ids.map_values(|id: usize| id as int)
}

/// Expands all cells of a module, each as soon as its inputs are there.
fn emit_all_cells(
    module: &LogicalModule,
    nets: &ScalarNets,
    builder: &mut LeafBuilder,
    target: &TargetSpec,
    policy: &MappingPolicy,
    Ghost(boundary): Ghost<spec_fn(Seq<char>) -> bool>,
) -> (result: Result<(), LowerError>)
    requires
        old(builder).wf(),
        old(builder)@.outputs.len() == 0,
        nets@ == net_widths(module@.nets),
        forall|i: int| 0 <= i < module.cells.len() ==> cell_fits((#[trigger] module.cells[i])@, nets@),
        cone_inv(module@.cells, nets@, boundary, old(builder)@, Set::empty()),
        forall|name: Seq<char>| #[trigger]
            is_input_bit(module@.ports, nets@, name) ==> old(builder)@.producers.contains_key(name),
        is_allowed_cone(old(builder)@.nodes, *policy),
    ensures
        final(builder).wf(),
        final(builder)@.outputs.len() == 0,
        match result {
            Ok(_) => {
                &&& passes(module@, target@, *policy, all_cells(module@), old(builder)@.producers.dom()) == Ok::<
                    Set<Seq<char>>,
                    ErrorView,
                >(final(builder)@.producers.dom())
                &&& is_allowed_cone(final(builder)@.nodes, *policy)
                &&& all_driven(
                    module@.cells,
                    nets@,
                    Set::new(|i: int| 0 <= i < module@.cells.len()),
                    final(builder)@.producers,
                )
                &&& forall|name: Seq<char>| #[trigger]
                    old(builder)@.producers.contains_key(name) ==> final(builder)@.producers.contains_key(name)
                &&& drivers_unique(module@.cells, nets@, boundary) ==> cone_inv(
                    module@.cells,
                    nets@,
                    boundary,
                    final(builder)@,
                    Set::new(|i: int| 0 <= i < module@.cells.len()),
                )
            },
            Err(error) => {
                &&& passes(module@, target@, *policy, all_cells(module@), old(builder)@.producers.dom()) == Err::<
                    Set<Seq<char>>,
                    ErrorView,
                >(error@)
                &&& {
                    ||| exists|index: int, producers: Map<Seq<char>, usize>|
                        {
                            &&& 0 <= index < module@.cells.len()
                            &&& #[trigger] emit_outcome(module@.cells[index], nets@, producers, target@, *policy)
                                == Outcome::Fail(error@)
                        }
                    ||| exists|waiting: Seq<int>, producers: Map<Seq<char>, usize>|
                        #[trigger] is_stuck(module@, target@, *policy, waiting, producers) && error@
                            == ErrorView::Unresolved(waiting.map_values(|index: int| module@.cells[index].name))
                }
            },
        },
{
    let ghost cells = module@.cells;
    let ghost widths = nets@;
    let ghost unique = drivers_unique(cells, widths, boundary);
    let mut pending: Vec<usize> = Vec::new();
    for index in 0..module.cells.len()
        invariant
            pending.len() == index,
            forall|i: int| 0 <= i < index ==> (#[trigger] pending[i]) == i,
    {
        pending.push(index);
    }
    let ghost mut emitted = Set::<int>::empty();
    let ghost first_names = builder@.producers.dom();
    proof {
        assert(places(pending@) =~= all_cells(module@));
        assert forall|i: int| 0 <= i < cells.len() implies (#[trigger] emitted.contains(i) <==> !pending@.contains(i as usize)) by {
            assert(pending@[i] == i as usize);
        }
    }
    while pending.len() > 0
        invariant
            builder.wf(),
            builder@.outputs.len() == 0,
            cells == module@.cells,
            widths == nets@,
            widths == net_widths(module@.nets),
            unique == drivers_unique(cells, widths, boundary),
            forall|i: int| 0 <= i < module.cells.len() ==> cell_fits((#[trigger] module.cells[i])@, nets@),
            forall|name: Seq<char>| #[trigger]
                old(builder)@.producers.contains_key(name) ==> builder@.producers.contains_key(name),
            forall|i: int| 0 <= i < pending.len() ==> (#[trigger] pending[i]) < cells.len(),
            forall|i: int, j: int| 0 <= i < j < pending.len() ==> pending[i] != pending[j],
            forall|i: int|
                0 <= i < cells.len() ==> (#[trigger] emitted.contains(i) <==> !pending@.contains(i as usize)),
            unique ==> cone_inv(cells, widths, boundary, builder@, emitted),
            all_driven(cells, widths, emitted, builder@.producers),
            is_allowed_cone(builder@.nodes, *policy),
            forall|name: Seq<char>| #[trigger]
                is_input_bit(module@.ports, nets@, name) ==> old(builder)@.producers.contains_key(name),
            first_names == old(builder)@.producers.dom(),
            passes(module@, target@, *policy, all_cells(module@), first_names) == passes(
                module@,
                target@,
                *policy,
                places(pending@),
                builder@.producers.dom(),
            ),
        decreases pending.len(),
    {
        let ghost emitted_then = emitted;
        let ghost round = pending@;
        let ghost producers = builder@.producers;
        let mut unresolved: Vec<usize> = Vec::new();
        assert(round.skip(0) =~= round);
        let ghost waiting = places(round);
        assert(places(unresolved@) =~= Seq::<int>::empty());
        for index in 0..pending.len()
            invariant
                pending@ == round,
                builder.wf(),
                builder@.outputs.len() == 0,
                cells == module@.cells,
                widths == nets@,
                unique == drivers_unique(cells, widths, boundary),
                forall|i: int| 0 <= i < module.cells.len() ==> cell_fits((#[trigger] module.cells[i])@, nets@),
                forall|name: Seq<char>| #[trigger]
                    old(builder)@.producers.contains_key(name) ==> builder@.producers.contains_key(name),
                forall|i: int| 0 <= i < round.len() ==> (#[trigger] round[i]) < cells.len(),
                forall|i: int, j: int| 0 <= i < j < round.len() ==> round[i] != round[j],
                unresolved.len() <= index,
                forall|i: int|
                    0 <= i < unresolved.len() ==> (#[trigger] unresolved[i]) < cells.len() && !round.skip(
                        index as int,
                    ).contains(unresolved[i]),
                forall|i: int, j: int| 0 <= i < j < unresolved.len() ==> unresolved[i] != unresolved[j],
                forall|i: int|
                    0 <= i < cells.len() ==> (#[trigger] emitted.contains(i) <==> !unresolved@.contains(i as usize)
                        && !round.skip(index as int).contains(i as usize)),
                unique ==> cone_inv(cells, widths, boundary, builder@, emitted),
                all_driven(cells, widths, emitted, builder@.producers),
                is_allowed_cone(builder@.nodes, *policy),
                widths == net_widths(module@.nets),
                waiting == places(round),
                first_names == old(builder)@.producers.dom(),
                passes(module@, target@, *policy, all_cells(module@), first_names) == passes(
                    module@,
                    target@,
                    *policy,
                    waiting,
                    producers.dom(),
                ),
                pass(module@, target@, *policy, waiting, producers.dom(), index as nat) == Ok::<
                    (Seq<int>, Set<Seq<char>>),
                    ErrorView,
                >((places(unresolved@), builder@.producers.dom())),
                unresolved.len() == index ==> {
                    &&& emitted == emitted_then
                    &&& builder@.producers == producers
                    &&& unresolved@ =~= round.take(index as int)
                    &&& forall|i: int|
                        0 <= i < index ==> emit_outcome(
                            cells[(#[trigger] round[i]) as int],
                            widths,
                            producers,
                            target@,
                            *policy,
                        ) is Wait
                },
        {
            let id: usize = pending[index];
            assert(round[index as int] == id);
            assert(module.cells[id as int]@ == cells[id as int]);
            let ghost before = builder@;
            let ghost emitted_before = emitted;
            let ghost unresolved_before = unresolved@;
            proof {
                builder.wf_gives();
                assert(round.skip(index as int)[0] == id);
                assert(!emitted.contains(id as int));
                assert(waiting[index as int] == id as int);
                outcome_by_names(cells[id as int], widths, before.producers, target@, *policy);
            }
            match emit_cell(&module.cells[id], nets, builder, target, policy) {
                Err(error) => {
                    assert(emit_outcome(cells[id as int], widths, before.producers, target@, *policy) == Outcome::Fail(
                        error@,
                    ));
                    proof {
                        pass_error_stays(
                            module@,
                            target@,
                            *policy,
                            waiting,
                            producers.dom(),
                            (index + 1) as nat,
                            waiting.len(),
                        );
                    }
                    return Err(error);
                },
                Ok(done) => {
                    proof {
                        grown_stays_allowed(before, builder@, *policy);
                    }
                    if done {
                        proof {
                            if unique {
                                emit_keeps_cone(
                                    cells,
                                    widths,
                                    boundary,
                                    before,
                                    builder@,
                                    emitted,
                                    id as int,
                                    target@,
                                    *policy,
                                );
                            }
                            emitted_is_ready(cells[id as int], widths, before.producers, target@, *policy);
                            emitted_is_driven(cells, widths, before, builder@, emitted, id as int);
                            emitted_names(cells[id as int], widths, before, builder@);
                            emitted = emitted.insert(id as int);
                            assert forall|name: Seq<char>| #[trigger]
                                old(builder)@.producers.contains_key(name) implies builder@.producers.contains_key(name) by {
                                assert(before.producers.contains_key(name));
                                emitted_keeps_names(cells[id as int], widths, before, builder@, name);
                            }
                        }
                    } else {
                        proof {
                            if unique {
                                growth_keeps_cone(cells, widths, boundary, before, builder@, emitted);
                            }
                        }
                        unresolved.push(id);
                        assert(places(unresolved@) =~= places(unresolved_before).push(id as int));
                    }
                    proof {
                        skip_contains(round, index as int);
                        assert(!round.skip(index + 1).contains(id)) by {
                            let rest = round.skip(index + 1);
                            if rest.contains(id) {
                                let place = choose|p: int| 0 <= p < rest.len() && rest[p] == id;
                                assert(round[index + 1 + place] == id);
                            }
                        }
                        assert forall|i: int| 0 <= i < cells.len() implies (#[trigger] emitted.contains(i)
                            <==> !unresolved@.contains(i as usize) && !round.skip(index + 1).contains(i as usize)) by {
                            let was_unresolved = unresolved_before;
                            assert(cells.len() == module.cells.len());
                            assert(i as usize as int == i);
                            assert(round.skip(index as int).contains(i as usize) <==> i as usize == id || round.skip(
                                index + 1,
                            ).contains(i as usize));
                            assert(done ==> unresolved@ == was_unresolved);
                            assert(emitted_before.contains(i) <==> !was_unresolved.contains(i as usize) && !round.skip(
                                index as int,
                            ).contains(i as usize));
                            if !done {
                                assert(unresolved@ =~= was_unresolved.push(id));
                                push_contains(was_unresolved, id, i as usize);
                            }
                            if i == id {
                                assert(!was_unresolved.contains(id)) by {
                                    if was_unresolved.contains(id) {
                                        let place = choose|p: int| 0 <= p < was_unresolved.len() && was_unresolved[p] == id;
                                        assert(unresolved_before[place] == id);
                                    }
                                }
                            }
                        }
                        assert forall|i: int| 0 <= i < unresolved.len() implies (#[trigger] unresolved[i]) < cells.len()
                            && !round.skip(index + 1).contains(unresolved[i]) by {
                            if i < unresolved_before.len() {
                                assert(unresolved_before[i] == unresolved[i]);
                            }
                        }
                        assert forall|i: int, j: int| 0 <= i < j < unresolved.len() implies unresolved[i] != unresolved[j] by {
                            assert(unresolved_before[i] == unresolved[i]);
                            if j < unresolved_before.len() {
                                assert(unresolved_before[j] == unresolved[j]);
                            }
                        }
                        assert(unresolved.len() == index + 1 ==> unresolved@ =~= round.take(index + 1));
                    }
                },
            }
        }
        let before: usize = pending.len();
        let ghost last_round = round;
        pending = unresolved;
        proof {
            assert(round.skip(round.len() as int) =~= Seq::<usize>::empty());
        }
        if pending.len() == before {
            let mut names: Vec<String> = Vec::new();
            for index in 0..pending.len()
                invariant
                    cells == module@.cells,
                    forall|i: int| 0 <= i < pending.len() ==> (#[trigger] pending[i]) < cells.len(),
                    names.len() == index,
                    forall|i: int| 0 <= i < index ==> (#[trigger] names[i])@ == cells[pending[i] as int].name,
            {
                assert(pending[index as int] < cells.len());
                names.push(module.cells[pending[index]].name.clone());
            }
            proof {
                let waiting = pending@.map_values(|id: usize| id as int);
                assert(pending@ =~= round);
                assert(is_stuck(module@, target@, *policy, waiting, producers)) by {
                    let others = Set::new(|i: int| 0 <= i < cells.len() && !waiting.contains(i));
                    assert forall|i: int, name: Seq<char>|
                        others.contains(i) && #[trigger] drives(cells[i], widths, name) implies producers.contains_key(
                        name,
                    ) by {
                        if pending@.contains(i as usize) {
                            let place = choose|p: int| 0 <= p < pending@.len() && pending@[p] == i as usize;
                            assert(waiting[place] == i);
                        }
                        assert(emitted.contains(i));
                    }
                    assert forall|name: Seq<char>| #[trigger]
                        is_input_bit(module@.ports, widths, name) implies producers.contains_key(name) by {
                        assert(old(builder)@.producers.contains_key(name));
                    }
                    assert forall|i: int| 0 <= i < waiting.len() implies {
                        &&& 0 <= #[trigger] waiting[i] < cells.len()
                        &&& emit_outcome(cells[waiting[i]], widths, producers, target@, *policy) is Wait
                    } by {
                        assert(round[i] < cells.len());
                    }
                }
                assert(waiting =~= places(round));
                assert(texts(names@) =~= waiting.map_values(|index: int| module@.cells[index].name));
            }
            return Err(LowerError::Unresolved(names));
        }
    }
    proof {
        let all = Set::new(|i: int| 0 <= i < cells.len());
        assert forall|i: int, name: Seq<char>| all.contains(i) && #[trigger] drives(
            cells[i],
            widths,
            name,
        ) implies builder@.producers.contains_key(name) by {
            assert(emitted.contains(i));
        }
        if unique {
            assert forall|i: int| emitted.contains(i) == all.contains(i) by {
                if emitted.contains(i) {
                    assert(0 <= i < cells.len());
                }
            }
            assert(emitted =~= all);
        }
    }
    Ok(())
}

/// What follows a place of a list is what follows the next place and the item
/// at that place.
proof fn skip_contains(items: Seq<usize>, place: int)
    requires
        0 <= place < items.len(),
    ensures
        forall|item: usize| #[trigger]
            items.skip(place).contains(item) <==> item == items[place] || items.skip(place + 1).contains(item),
{
    let longer = items.skip(place);
    let shorter = items.skip(place + 1);
    assert forall|item: usize| #[trigger] longer.contains(item) <==> item == items[place] || shorter.contains(item) by {
        if longer.contains(item) {
            let i = choose|i: int| 0 <= i < longer.len() && longer[i] == item;
            if i > 0 {
                assert(shorter[i - 1] == item);
            }
        }
        if item == items[place] {
            assert(longer[0] == item);
        }
        if shorter.contains(item) {
            let i = choose|i: int| 0 <= i < shorter.len() && shorter[i] == item;
            assert(longer[i + 1] == item);
        }
    }
}

proof fn push_contains(items: Seq<usize>, last: usize, item: usize)
    ensures
        items.push(last).contains(item) <==> items.contains(item) || item == last,
{
    let longer = items.push(last);
    if items.contains(item) {
        let i = choose|i: int| 0 <= i < items.len() && items[i] == item;
        assert(longer[i] == item);
    }
    if item == last {
        assert(longer[items.len() as int] == item);
    }
    if longer.contains(item) {
        let i = choose|i: int| 0 <= i < longer.len() && longer[i] == item;
        if i < items.len() {
            assert(items[i] == item);
        }
    }
}

/// Expanding a cell gives what it drives producers.
proof fn emitted_is_driven(
    cells: Seq<CellView>,
    widths: Map<Seq<char>, usize>,
    before: BuilderView,
    after: BuilderView,
    emitted: Set<int>,
    index: int,
)
    requires
        super::combinational::cell_emitted(cells[index], widths, before, after),
        super::combinational::produced_count(cells[index], widths) <= widths[cells[index].outputs[0].net],
        all_driven(cells, widths, emitted, before.producers),
    ensures
        all_driven(cells, widths, emitted.insert(index), after.producers),
{
    let cell = cells[index];
    let names = bit_texts(cell.outputs[0].net, widths[cell.outputs[0].net]);
    assert forall|i: int, name: Seq<char>|
        emitted.insert(index).contains(i) && #[trigger] drives(cells[i], widths, name) implies after.producers.contains_key(
        name,
    ) by {
        if i == index {
            let bit = choose|bit: nat|
                bit < super::combinational::produced_count(cell, widths) && name == #[trigger] scalar_text(
                    cell.outputs[0].net,
                    widths[cell.outputs[0].net],
                    bit,
                );
            assert(names[bit as int] == name);
        } else {
            assert(before.producers.contains_key(name));
            emitted_keeps_names(cell, widths, before, after, name);
        }
    }
}

/// Expanding a cell keeps every scalar net that has a producer.
pub proof fn emitted_keeps_names(
    cell: CellView,
    widths: Map<Seq<char>, usize>,
    before: BuilderView,
    after: BuilderView,
    name: Seq<char>,
)
    requires
        super::combinational::cell_emitted(cell, widths, before, after),
        before.producers.contains_key(name),
        super::combinational::produced_count(cell, widths) <= widths[cell.outputs[0].net],
    ensures
        after.producers.contains_key(name),
{
    let names = bit_texts(cell.outputs[0].net, widths[cell.outputs[0].net]);
    let count = super::combinational::produced_count(cell, widths);
    if names.take(count as int).contains(name) {
        let bit = choose|bit: int| 0 <= bit < count && names.take(count as int)[bit] == name;
        assert(names[bit] == name);
    }
}

/// Requests an output for each bit of the output ports.
fn request_outputs(module: &LogicalModule, nets: &ScalarNets, builder: &mut LeafBuilder) -> (result: Result<(), LowerError>)
    requires
        old(builder).wf(),
        old(builder)@.outputs.len() == 0,
        nets@ == net_widths(module@.nets),
    ensures
        final(builder).wf(),
        match result {
            Ok(_) => {
                &&& outputs_error(module@.ports, nets@, old(builder)@.producers.dom(), module@.ports.len()) is None
                &&& final(builder)@ == (BuilderView {
                    outputs: port_outputs(module@.ports, nets@, old(builder)@.producers),
                    ..old(builder)@
                })
                &&& forall|index: int, bit: nat, name: Seq<char>| #[trigger]
                    is_port_bit(module@.ports, nets@, LogicalPortDirection::Output, index, bit, name)
                        ==> old(builder)@.producers.contains_key(name)
            },
            Err(error) => {
                &&& outputs_error(module@.ports, nets@, old(builder)@.producers.dom(), module@.ports.len()) == Some(error@)
                &&& {
                    ||| exists|index: int|
                        {
                            &&& 0 <= index < module@.ports.len()
                            &&& !nets@.contains_key((#[trigger] module@.ports[index]).net)
                            &&& error@ == ErrorView::UnknownNet(module@.ports[index].net)
                        }
                    ||| exists|index: int, bit: nat, name: Seq<char>|
                        {
                            &&& #[trigger] is_port_bit(
                                module@.ports,
                                nets@,
                                LogicalPortDirection::Output,
                                index,
                                bit,
                                name,
                            )
                            &&& !old(builder)@.producers.contains_key(name)
                            &&& error@ == ErrorView::NoProducer(module@.ports[index].name)
                        }
                }
            },
        },
{
    let ghost ports = module@.ports;
    let ghost widths = nets@;
    let ghost start = builder@;
    let ghost producers = builder@.producers;
    assert(port_outputs(ports.take(0), widths, producers) =~= Seq::empty());
    assert(builder@.outputs =~= Seq::<(Seq<char>, usize)>::empty());
    for index in 0..module.ports.len()
        invariant
            ports == module@.ports,
            widths == nets@,
            start == old(builder)@,
            producers == start.producers,
            outputs_error(ports, widths, producers.dom(), index as nat) is None,
            builder.wf(),
            builder@ == (BuilderView { outputs: port_outputs(ports.take(index as int), widths, producers), ..start }),
            forall|port: int, bit: nat, name: Seq<char>|
                port < index && #[trigger] is_port_bit(ports, widths, LogicalPortDirection::Output, port, bit, name)
                    ==> producers.contains_key(name),
    {
        let port = &module.ports[index];
        assert(ports[index as int] == port@);
        let ghost before = builder@.outputs;
        proof {
            let longer = ports.take(index + 1);
            assert(longer.drop_last() =~= ports.take(index as int));
            assert(longer.last() == port@);
        }
        if matches!(port.direction, LogicalPortDirection::Output) {
            let bits = match nets.bits(port.net.as_str()) {
                Ok(bits) => bits,
                Err(error) => {
                    proof {
                        outputs_error_stays(ports, widths, producers.dom(), (index + 1) as nat, ports.len());
                    }
                    return Err(error);
                },
            };
            let ghost width = widths[port.net@];
            let ghost names = bit_texts(port.net@, width);
            let ghost pairs = names.map_values(|name: Seq<char>| (name, producers[name]));
            assert(bits.len() == width) by {
                assert(texts(bits@).len() == names.len());
            }
            assert(before + pairs.take(0) =~= before);
            for bit in 0..bits.len()
                invariant
                    ports == module@.ports,
                    widths == nets@,
                    index < ports.len(),
                    ports[index as int] == port@,
                    port.direction == LogicalPortDirection::Output,
                    start == old(builder)@,
                    producers == start.producers,
                    outputs_error(ports, widths, producers.dom(), index as nat) is None,
                    widths.contains_key(port.net@),
                    width == widths[port.net@],
                    names == bit_texts(port.net@, width),
                    pairs == names.map_values(|name: Seq<char>| (name, producers[name])),
                    bits.len() == width,
                    texts(bits@) == names,
                    builder.wf(),
                    builder@ == (BuilderView { outputs: before + pairs.take(bit as int), ..start }),
                    forall|lower: nat| lower < bit ==> producers.contains_key(#[trigger] scalar_text(port.net@, width, lower)),
            {
                proof {
                    assert(texts(bits@)[bit as int] == scalar_text(port.net@, width, bit as nat));
                    assert(is_port_bit(
                        ports,
                        widths,
                        LogicalPortDirection::Output,
                        index as int,
                        bit as nat,
                        bits[bit as int]@,
                    ));
                    builder.wf_gives();
                }
                match builder.producer(bits[bit].as_str()) {
                    Some(producer) => {
                        builder.add_output(bits[bit].as_str(), producer);
                        proof {
                            assert(pairs.take(bit + 1) =~= pairs.take(bit as int).push(pairs[bit as int]));
                            assert(builder@.outputs =~= before + pairs.take(bit + 1));
                        }
                    },
                    None => {
                        proof {
                            assert(!producers.dom().contains(scalar_text(port.net@, width, bit as nat)));
                            outputs_error_stays(ports, widths, producers.dom(), (index + 1) as nat, ports.len());
                        }
                        return Err(LowerError::NoProducer(port.name.clone()));
                    },
                }
            }
            assert(pairs.take(pairs.len() as int) =~= pairs);
        } else {
            assert(before + Seq::<(Seq<char>, usize)>::empty() =~= before);
        }
        proof {
            assert forall|other: int, bit: nat, name: Seq<char>|
                other < index + 1 && #[trigger] is_port_bit(
                    ports,
                    widths,
                    LogicalPortDirection::Output,
                    other,
                    bit,
                    name,
                ) implies producers.contains_key(name) by {
                if other == index {
                    assert(producers.contains_key(scalar_text(port.net@, widths[port.net@], bit)));
                }
            }
        }
    }
    assert(ports.take(ports.len() as int) =~= ports);
    Ok(())
}

/// Every output bit is among the requested outputs.
pub proof fn output_is_requested(
    ports: Seq<PortView>,
    widths: Map<Seq<char>, usize>,
    producers: Map<Seq<char>, usize>,
    index: int,
    bit: nat,
    name: Seq<char>,
)
    requires
        is_port_bit(ports, widths, LogicalPortDirection::Output, index, bit, name),
    ensures
        port_outputs(ports, widths, producers).contains((name, producers[name])),
    decreases ports.len(),
{
    let all = port_outputs(ports, widths, producers);
    let shorter = ports.drop_last();
    let before = port_outputs(shorter, widths, producers);
    let port = ports.last();
    if index == ports.len() - 1 {
        let own = bit_texts(port.net, widths[port.net]).map_values(|name: Seq<char>| (name, producers[name]));
        assert(own[bit as int] == (name, producers[name]));
        assert(all[before.len() + bit as int] == (name, producers[name]));
    } else {
        assert(is_port_bit(shorter, widths, LogicalPortDirection::Output, index, bit, name));
        output_is_requested(shorter, widths, producers, index, bit, name);
        let place = choose|place: int| 0 <= place < before.len() && before[place] == (name, producers[name]);
        assert(all[place] == (name, producers[name]));
    }
}

/// Lowers a flat module without state cells.
///
/// `prepared_count` tells how many nodes a leaf has once it is prepared for
/// placement, and `validate` whether a design is valid.
pub fn lower_combinational_module<
    F: Fn(&Vec<GraphNode>) -> Result<usize, LowerError>,
    V: Fn(&RoutableDesign) -> Result<(), String>,
>(
    module: &LogicalModule,
    nets: &ScalarNets,
    target: &TargetSpec,
    policy: &MappingPolicy,
    prepared_count: &F,
    validate: &V,
) -> (result: Result<RoutableDesign, LowerError>)
    requires
        nets@ == net_widths(module@.nets),
        forall|i: int| 0 <= i < module.cells.len() ==> cell_fits((#[trigger] module.cells[i])@, nets@),
        forall|nodes: Vec<GraphNode>| #[trigger] call_requires(*prepared_count, (&nodes,)),
        is_design_validator(*validate),
    ensures
        match result {
            Ok(design) => {
                &&& cone_error(module@, target@, *policy) is None
                &&& is_lowered_cone(module@, target@, *policy, *prepared_count, design)
                &&& call_ensures(*validate, (&design,), Ok(()))
            },
            Err(error) => {
                ||| is_cone_refused(module@, target@, *policy, *prepared_count, error)
                ||| is_cone_invalid(module@, target@, *policy, *prepared_count, *validate, error)
            },
        },
{
    let ghost ports = module@.ports;
    let ghost widths = nets@;
    let ghost boundary = |name: Seq<char>| is_input_bit(ports, widths, name);
    let mut builder = match declare_inputs(module, nets) {
        Ok(builder) => builder,
        Err(error) => return Err(error),
    };
    let ghost declared = builder@;
    assert(declared.producers.dom() =~= input_names(module@));
    match emit_all_cells(module, nets, &mut builder, target, policy, Ghost(boundary)) {
        Ok(_) => {},
        Err(error) => return Err(error),
    }
    let ghost cone = builder@;
    proof {
        builder.wf_gives();
        assert(is_cell_cone(module@, cone)) by {
            assert forall|name: Seq<char>| #[trigger] is_input_bit(ports, widths, name) implies cone.producers.contains_key(
                name,
            ) by {
                assert(declared.producers.contains_key(name));
            }
        }
    }
    match request_outputs(module, nets, &mut builder) {
        Ok(_) => {},
        Err(error) => {
            proof {
                if exists|index: int, bit: nat, name: Seq<char>|
                    {
                        &&& #[trigger] is_port_bit(ports, widths, LogicalPortDirection::Output, index, bit, name)
                        &&& !cone.producers.contains_key(name)
                        &&& error@ == ErrorView::NoProducer(ports[index].name)
                    } {
                    let (index, bit, name) = choose|index: int, bit: nat, name: Seq<char>|
                        {
                            &&& #[trigger] is_port_bit(ports, widths, LogicalPortDirection::Output, index, bit, name)
                            &&& !cone.producers.contains_key(name)
                            &&& error@ == ErrorView::NoProducer(ports[index].name)
                        };
                    let all = Set::new(|i: int| 0 <= i < module@.cells.len());
                    assert forall|i: int| 0 <= i < module@.cells.len() implies !#[trigger] drives(
                        module@.cells[i],
                        widths,
                        name,
                    ) by {
                        assert(all.contains(i));
                    }
                    assert(is_undriven(module@, name));
                }
            }
            return Err(error);
        },
    }
    let ghost finished = builder@;
    proof {
        builder.wf_gives();
        assert(is_module_cone(module@, finished)) by {
            if drivers_unique(module@.cells, widths, boundary) {
                growth_keeps_cone(
                    module@.cells,
                    widths,
                    boundary,
                    cone,
                    finished,
                    Set::new(|i: int| 0 <= i < module@.cells.len()),
                );
            }
        }
    }
    let leaf = match builder.partition(module.name.as_str(), LEAF_NODE_BUDGET, prepared_count) {
        Ok(leaf) => leaf,
        Err(error) => {
            assert(is_module_cone(module@, finished));
            return Err(error);
        },
    };
    if leaf.instances.len() == 1 && leaf.direct_outputs.is_empty() {
        let result = finish_design(module.name.as_str(), target.name(), &leaf.modules, validate);
        proof {
            let design = choose|design: RoutableDesign| #[trigger]
                is_design_of(module@.name, target@.name, module_views(leaf.modules@), design) && is_validated(
                    *validate,
                    design,
                    result,
                );
            assert(no_direct_outputs(leaf));
            assert(is_assembled(module@, target@, leaf, design));
            assert(is_lowered_cone(module@, target@, *policy, *prepared_count, design));
        }
        return result;
    }
    assert(!(leaf.instances.len() == 1 && no_direct_outputs(leaf))) by {
        if no_direct_outputs(leaf) {
            assert(leaf.direct_outputs@ =~= Map::empty());
        }
    }
    proof {
        assert forall|index: int, bit: nat, name: Seq<char>| #[trigger]
            is_port_bit(ports, widths, LogicalPortDirection::Output, index, bit, name) implies leaf.output_sources@.contains_key(
            name,
        ) || leaf.direct_outputs@.contains_key(name) by {
            output_is_requested(ports, widths, cone.producers, index, bit, name);
            let pair = (name, cone.producers[name]);
            let place = choose|place: int| 0 <= place < finished.outputs.len() && finished.outputs[place] == pair;
            let (plan, leaves) = choose|plan: super::partition::Plan, leaves: Seq<BuilderView>|
                {
                    &&& #[trigger] is_partition(finished.nodes, finished.outputs, module@.name, plan, leaves, leaf)
                    &&& super::partition::pieces_sized(plan, LEAF_NODE_BUDGET)
                    &&& super::partition::leaves_fit(*prepared_count, plan, leaves)
                };
            assert(finished.outputs[place].0 == name);
        }
    }
    let top = match compose_top(module, nets, &leaf) {
        Ok(top) => top,
        Err(error) => {
            proof {
                let index = choose|index: int|
                    0 <= index < ports.len() && !widths.contains_key((#[trigger] ports[index]).net);
                known_ports(ports, widths, cone.producers.dom(), ports.len(), index);
            }
            return Err(error);
        },
    };
    let ghost whole = leaf;
    let ghost top_view = top@;
    let mut modules = leaf.modules;
    let ghost leaves_only = modules@;
    modules.push(top);
    let result = finish_design(module.name.as_str(), target.name(), &modules, validate);
    proof {
        let design = choose|design: RoutableDesign| #[trigger]
            is_design_of(module@.name, target@.name, module_views(modules@), design) && is_validated(
                *validate,
                design,
                result,
            );
        assert(module_views(modules@) =~= module_views(leaves_only).push(top_view));
        assert(is_composite_of(module@, whole, top_view));
        assert(is_assembled(module@, target@, whole, design));
        assert(is_lowered_cone(module@, target@, *policy, *prepared_count, design));
    }
    result
}

/// The composite that wires the leaves of a partition.
fn compose_top(module: &LogicalModule, nets: &ScalarNets, leaf: &PartitionedLeaf) -> (result: Result<
    crate::ir::routable::RoutableModule,
    LowerError,
>)
    requires
        nets@ == net_widths(module@.nets),
        forall|index: int, bit: nat, name: Seq<char>| #[trigger]
            is_port_bit(module@.ports, nets@, LogicalPortDirection::Output, index, bit, name)
                ==> leaf.output_sources@.contains_key(name) || leaf.direct_outputs@.contains_key(name),
    ensures
        match result {
            Ok(top) => is_composite_of(module@, *leaf, top@),
            Err(error) => exists|index: int|
                {
                    &&& 0 <= index < module@.ports.len()
                    &&& !nets@.contains_key((#[trigger] module@.ports[index]).net)
                    &&& error@ == ErrorView::UnknownNet(module@.ports[index].net)
                },
        },
{
    let ghost ports = module@.ports;
    let ghost widths = nets@;
    let mut connections = NetConnections::new();
    let mut used_inputs = StringHashSet::new();
    let mut names: Vec<String> = Vec::new();
    let ghost none = Map::<Seq<char>, Seq<char>>::empty();
    let ghost mut asked = Seq::<Connection>::empty();
    for k in 0..leaf.instances.len()
        invariant
            none == Map::<Seq<char>, Seq<char>>::empty(),
            asked == leaf_connections(*leaf, none, k as nat),
            connections@ == all_connected(asked),
            drivers_differ(connections@),
            names.len() == k,
            forall|i: int| 0 <= i < k ==> (#[trigger] names[i])@ == leaf.instances[i].instance@,
            forall|driver: EndpointView, sink: EndpointView| #[trigger]
                connects(connections@, driver, sink) <==> reads_before(*leaf, k as int, 0, driver, sink),
            forall|name: Seq<char>| #[trigger] used_inputs@.contains(name) <==> uses_before(*leaf, k as int, 0, name),
    {
        let instance = &leaf.instances[k];
        names.push(instance.instance.clone());
        let ghost earlier = asked;
        assert(earlier + Seq::<Connection>::empty() =~= earlier);
        for index in 0..instance.inputs.len()
            invariant
                none == Map::<Seq<char>, Seq<char>>::empty(),
                asked == earlier + input_connections(*leaf, none, k as int, index as nat),
                connections@ == all_connected(asked),
                k < leaf.instances.len(),
                *instance == leaf.instances[k as int],
                drivers_differ(connections@),
                forall|driver: EndpointView, sink: EndpointView| #[trigger]
                    connects(connections@, driver, sink) <==> reads_before(*leaf, k as int, index as int, driver, sink),
                forall|name: Seq<char>| #[trigger]
                    used_inputs@.contains(name) <==> uses_before(*leaf, k as int, index as int, name),
        {
            let input = &instance.inputs[index];
            let ghost read = leaf.instances[k as int].inputs[index as int]@;
            let ghost used_before = used_inputs@;
            let endpoint = match leaf.intermediates.get(input.as_str()) {
                Some(producer) => instance_port(producer.as_str(), input.as_str()),
                None => {
                    used_inputs.insert(input.clone());
                    self_port(input.as_str())
                },
            };
            let ghost driver_view = endpoint@;
            let class = classify_logical_net(input.as_str(), false);
            let sink = instance_port(instance.instance.as_str(), input.as_str());
            let ghost sink_view = sink@;
            let ghost before = connections@;
            connections.connect(input.as_str(), class, endpoint, sink);
            proof {
                assert(driver_view == leaf_driver(*leaf, read));
                assert(leaf_source(*leaf, none, read) == driver_view);
                let link = Connection { name: read, class, driver: driver_view, sink: sink_view };
                connecting_next(asked, link);
                asked = asked.push(link);
                assert(asked =~= earlier + input_connections(*leaf, none, k as int, (index + 1) as nat));
                assert forall|driver: EndpointView, sink: EndpointView| #[trigger]
                    connects(connections@, driver, sink) <==> reads_before(*leaf, k as int, index + 1, driver, sink) by {
                    assert(connects(before, driver, sink) <==> reads_before(*leaf, k as int, index as int, driver, sink));
                    reads_next(*leaf, k as int, index as int, driver, sink);
                }
                assert forall|name: Seq<char>| #[trigger]
                    used_inputs@.contains(name) <==> uses_before(*leaf, k as int, index + 1, name) by {
                    assert(used_before.contains(name) <==> uses_before(*leaf, k as int, index as int, name));
                    uses_next(*leaf, k as int, index as int, name);
                }
            }
        }
        proof {
            assert forall|driver: EndpointView, sink: EndpointView| #[trigger]
                connects(connections@, driver, sink) <==> reads_before(*leaf, k + 1, 0, driver, sink) by {
                reads_next_leaf(*leaf, k as int, driver, sink);
            }
            assert forall|name: Seq<char>| #[trigger] used_inputs@.contains(name) <==> uses_before(*leaf, k + 1, 0, name) by {
                uses_next_leaf(*leaf, k as int, name);
            }
        }
    }
    proof {
        assert forall|driver: EndpointView, sink: EndpointView| #[trigger]
            connects(connections@, driver, sink) <==> leaf_reads(*leaf, driver, sink) || drives_before(
                ports,
                widths,
                *leaf,
                0,
                0,
                driver,
                sink,
            ) by {
            reads_all(*leaf, driver, sink);
        }
        assert forall|name: Seq<char>| #[trigger]
            used_inputs@.contains(name) <==> leaf_uses(*leaf, name) || repeats_before(ports, widths, *leaf, 0, 0, name) by {
            uses_all(*leaf, name);
        }
    }
    let ghost inner = asked;
    assert(inner + Seq::<Connection>::empty() =~= inner);
    for index in 0..module.ports.len()
        invariant
            ports == module@.ports,
            widths == nets@,
            asked == inner + output_connections(ports, widths, *leaf, index as nat),
            connections@ == all_connected(asked),
            drivers_differ(connections@),
            forall|index: int, bit: nat, name: Seq<char>| #[trigger]
                is_port_bit(ports, widths, LogicalPortDirection::Output, index, bit, name)
                    ==> leaf.output_sources@.contains_key(name) || leaf.direct_outputs@.contains_key(name),
            forall|driver: EndpointView, sink: EndpointView| #[trigger]
                connects(connections@, driver, sink) <==> leaf_reads(*leaf, driver, sink) || drives_before(
                    ports,
                    widths,
                    *leaf,
                    index as int,
                    0,
                    driver,
                    sink,
                ),
            forall|name: Seq<char>| #[trigger]
                used_inputs@.contains(name) <==> leaf_uses(*leaf, name) || repeats_before(
                    ports,
                    widths,
                    *leaf,
                    index as int,
                    0,
                    name,
                ),
    {
        let port = &module.ports[index];
        let ghost earlier = asked;
        assert(ports[index as int] == port@);
        assert(earlier + Seq::<Connection>::empty() =~= earlier);
        if matches!(port.direction, LogicalPortDirection::Output) {
            let bits = match nets.bits(port.net.as_str()) {
                Ok(bits) => bits,
                Err(error) => return Err(error),
            };
            let ghost width = widths[port.net@];
            assert(bits.len() == width) by {
                assert(texts(bits@).len() == bit_texts(port.net@, width).len());
            }
            let ghost own = bit_texts(port.net@, width).map_values(|name: Seq<char>| output_connection(*leaf, name));
            assert(earlier + own.take(0) =~= earlier);
            for bit in 0..bits.len()
                invariant
                    own == bit_texts(port.net@, width).map_values(|name: Seq<char>| output_connection(*leaf, name)),
                    asked == earlier + own.take(bit as int),
                    connections@ == all_connected(asked),
                    ports == module@.ports,
                    widths == nets@,
                    index < ports.len(),
                    ports[index as int] == port@,
                    port.direction == LogicalPortDirection::Output,
                    width == widths[port.net@],
                    bits.len() == width,
                    texts(bits@) == bit_texts(port.net@, width),
                    drivers_differ(connections@),
                    forall|index: int, bit: nat, name: Seq<char>| #[trigger]
                        is_port_bit(ports, widths, LogicalPortDirection::Output, index, bit, name)
                            ==> leaf.output_sources@.contains_key(name) || leaf.direct_outputs@.contains_key(name),
                    forall|driver: EndpointView, sink: EndpointView| #[trigger]
                        connects(connections@, driver, sink) <==> leaf_reads(*leaf, driver, sink) || drives_before(
                            ports,
                            widths,
                            *leaf,
                            index as int,
                            bit as int,
                            driver,
                            sink,
                        ),
                    forall|name: Seq<char>| #[trigger]
                        used_inputs@.contains(name) <==> leaf_uses(*leaf, name) || repeats_before(
                            ports,
                            widths,
                            *leaf,
                            index as int,
                            bit as int,
                            name,
                        ),
            {
                let scalar = &bits[bit];
                proof {
                    assert(texts(bits@)[bit as int] == scalar_text(port.net@, width, bit as nat));
                    assert(is_port_bit(
                        ports,
                        widths,
                        LogicalPortDirection::Output,
                        index as int,
                        bit as nat,
                        scalar@,
                    ));
                }
                let ghost used_before = used_inputs@;
                let driver = match leaf.output_sources.get(scalar.as_str()) {
                    Some(source) => instance_port(source.0.as_str(), source.1.as_str()),
                    None => match leaf.direct_outputs.get(scalar.as_str()) {
                        Some(source) => {
                            used_inputs.insert(source.clone());
                            self_port(source.as_str())
                        },
                        None => {
                            proof {
                                assert(false);
                            }
                            self_port(scalar.as_str())
                        },
                    },
                };
                let ghost driver_view = driver@;
                let sink = self_port(scalar.as_str());
                let ghost before = connections@;
                connections.connect(scalar.as_str(), NetClass::Io, driver, sink);
                proof {
                    assert(driver_view == output_driver(*leaf, scalar@));
                    let link = output_connection(*leaf, scalar@);
                    assert(own[bit as int] == link);
                    connecting_next(asked, link);
                    asked = asked.push(link);
                    assert(own.take(bit + 1) =~= own.take(bit as int).push(link));
                    assert(asked =~= earlier + own.take(bit + 1));
                    assert forall|driver: EndpointView, sink: EndpointView| #[trigger]
                        connects(connections@, driver, sink) <==> leaf_reads(*leaf, driver, sink) || drives_before(
                            ports,
                            widths,
                            *leaf,
                            index as int,
                            bit + 1,
                            driver,
                            sink,
                        ) by {
                        assert(connects(before, driver, sink) <==> leaf_reads(*leaf, driver, sink) || drives_before(
                            ports,
                            widths,
                            *leaf,
                            index as int,
                            bit as int,
                            driver,
                            sink,
                        ));
                        drives_next(ports, widths, *leaf, index as int, bit as int, scalar@, driver, sink);
                    }
                    assert forall|name: Seq<char>| #[trigger]
                        used_inputs@.contains(name) <==> leaf_uses(*leaf, name) || repeats_before(
                            ports,
                            widths,
                            *leaf,
                            index as int,
                            bit + 1,
                            name,
                        ) by {
                        assert(used_before.contains(name) <==> leaf_uses(*leaf, name) || repeats_before(
                            ports,
                            widths,
                            *leaf,
                            index as int,
                            bit as int,
                            name,
                        ));
                        repeats_next(ports, widths, *leaf, index as int, bit as int, scalar@, name);
                    }
                }
            }
        }
        proof {
            let passed: int = if port.direction == LogicalPortDirection::Output { widths[port.net@] as int } else { 0 };
            if port.direction == LogicalPortDirection::Output {
                let own = bit_texts(port.net@, widths[port.net@]).map_values(
                    |name: Seq<char>| output_connection(*leaf, name),
                );
                assert(own.take(own.len() as int) =~= own);
                assert(asked == earlier + own);
            }
            assert(asked =~= inner + output_connections(ports, widths, *leaf, (index + 1) as nat));
            assert forall|driver: EndpointView, sink: EndpointView| #[trigger]
                connects(connections@, driver, sink) <==> leaf_reads(*leaf, driver, sink) || drives_before(
                    ports,
                    widths,
                    *leaf,
                    index + 1,
                    0,
                    driver,
                    sink,
                ) by {
                drives_next_port(ports, widths, *leaf, index as int, passed, driver, sink);
            }
            assert forall|name: Seq<char>| #[trigger]
                used_inputs@.contains(name) <==> leaf_uses(*leaf, name) || repeats_before(
                    ports,
                    widths,
                    *leaf,
                    index + 1,
                    0,
                    name,
                ) by {
                repeats_next_port(ports, widths, *leaf, index as int, passed, name);
            }
        }
    }
    let port_list = match logical_ports_filtered(module, nets, &used_inputs) {
        Ok(port_list) => port_list,
        Err(error) => {
            proof {
                let bad = choose|bad: int|
                    {
                        &&& 0 <= bad < module.ports.len()
                        &&& !nets@.contains_key((#[trigger] module.ports[bad]).net@)
                        &&& error@ == ErrorView::UnknownNet(module.ports[bad].net@)
                        &&& forall|i: int| 0 <= i < bad ==> nets@.contains_key((#[trigger] module.ports[i]).net@)
                    };
                assert(module@.ports[bad].net == module.ports[bad].net@);
            }
            return Err(error);
        },
    };
    let ghost collected = connections@;
    let finished = connections.finish();
    let ghost views = net_views(finished@);
    assert(collected.len() == finished.len());
    let top = composite_module(module.name.as_str(), port_list, &names, finished);
    proof {
        assert(texts(names@) =~= instance_names(*leaf));
        finished_nets_connect(collected, views, EndpointView::SelfPort(Seq::empty()), EndpointView::SelfPort(Seq::empty()));
        assert forall|driver: EndpointView, sink: EndpointView| #[trigger]
            connects(views, driver, sink) <==> leaf_reads(*leaf, driver, sink) || output_driven(
                ports,
                widths,
                *leaf,
                driver,
                sink,
            ) by {
            finished_nets_connect(collected, views, driver, sink);
            drives_all(ports, widths, *leaf, driver, sink);
        }
        assert forall|name: Seq<char>| #[trigger] used_inputs@.contains(name) <==> input_used(ports, widths, *leaf, name) by {
            repeats_all(ports, widths, *leaf, name);
        }
        assert(top@ == composite_view(
            module@.name,
            filtered_ports(ports, widths, used_inputs@),
            instance_names(*leaf),
            views,
        ));
        assert(asked == composite_connections(module@, *leaf));
        assert(is_finished(all_connected(composite_connections(module@, *leaf)), views));
        assert(is_composite_of(module@, *leaf, top@));
    }
    Ok(top)
}

/// What drives input port `read` of a leaf.
pub open spec fn leaf_driver(leaf: PartitionedLeaf, read: Seq<char>) -> EndpointView {
    if leaf.intermediates@.contains_key(read) {
        EndpointView::InstancePort(leaf.intermediates@[read]@, read)
    } else {
        EndpointView::SelfPort(read)
    }
}

/// Whether one of the leaves before leaf `count`, or one of the first `inputs`
/// inputs of that leaf, reads `driver` at `sink`.
spec fn reads_before(leaf: PartitionedLeaf, count: int, inputs: int, driver: EndpointView, sink: EndpointView) -> bool {
    exists|k: int, i: int|
        {
            let input = (#[trigger] leaf.instances[k].inputs[i])@;
            &&& 0 <= k < leaf.instances.len()
            &&& 0 <= i < leaf.instances[k].inputs.len()
            &&& k < count || k == count && i < inputs
            &&& sink == EndpointView::InstancePort(leaf.instances[k].instance@, input)
            &&& driver == leaf_driver(leaf, input)
        }
}

proof fn reads_next(leaf: PartitionedLeaf, k: int, index: int, driver: EndpointView, sink: EndpointView)
    requires
        0 <= k < leaf.instances.len(),
        0 <= index < leaf.instances[k].inputs.len(),
    ensures
        reads_before(leaf, k, index + 1, driver, sink) <==> reads_before(leaf, k, index, driver, sink) || {
            let input = leaf.instances[k].inputs[index]@;
            &&& sink == EndpointView::InstancePort(leaf.instances[k].instance@, input)
            &&& driver == leaf_driver(leaf, input)
        },
{
    if reads_before(leaf, k, index + 1, driver, sink) {
        let (a, b) = choose|a: int, b: int|
            {
                let input = (#[trigger] leaf.instances[a].inputs[b])@;
                &&& 0 <= a < leaf.instances.len()
                &&& 0 <= b < leaf.instances[a].inputs.len()
                &&& a < k || a == k && b < index + 1
                &&& sink == EndpointView::InstancePort(leaf.instances[a].instance@, input)
                &&& driver == leaf_driver(leaf, input)
            };
        if a < k || b < index {
            let _ = leaf.instances[a].inputs[b];
        }
    }
    if reads_before(leaf, k, index, driver, sink) {
        let (a, b) = choose|a: int, b: int|
            {
                let input = (#[trigger] leaf.instances[a].inputs[b])@;
                &&& 0 <= a < leaf.instances.len()
                &&& 0 <= b < leaf.instances[a].inputs.len()
                &&& a < k || a == k && b < index
                &&& sink == EndpointView::InstancePort(leaf.instances[a].instance@, input)
                &&& driver == leaf_driver(leaf, input)
            };
        let _ = leaf.instances[a].inputs[b];
    }
    let _ = leaf.instances[k].inputs[index];
}

proof fn reads_next_leaf(leaf: PartitionedLeaf, k: int, driver: EndpointView, sink: EndpointView)
    requires
        0 <= k < leaf.instances.len(),
    ensures
        reads_before(leaf, k + 1, 0, driver, sink) <==> reads_before(
            leaf,
            k,
            leaf.instances[k].inputs.len() as int,
            driver,
            sink,
        ),
{
}

proof fn reads_all(leaf: PartitionedLeaf, driver: EndpointView, sink: EndpointView)
    ensures
        reads_before(leaf, leaf.instances.len() as int, 0, driver, sink) <==> leaf_reads(leaf, driver, sink),
{
}

/// Whether a leaf reads the boundary input `name`.
pub open spec fn leaf_uses(leaf: PartitionedLeaf, name: Seq<char>) -> bool {
    exists|k: int, i: int|
        {
            &&& 0 <= k < leaf.instances.len()
            &&& 0 <= i < leaf.instances[k].inputs.len()
            &&& (#[trigger] leaf.instances[k].inputs[i])@ == name
            &&& !leaf.intermediates@.contains_key(name)
        }
}

spec fn uses_before(leaf: PartitionedLeaf, count: int, inputs: int, name: Seq<char>) -> bool {
    exists|k: int, i: int|
        {
            &&& 0 <= k < leaf.instances.len()
            &&& 0 <= i < leaf.instances[k].inputs.len()
            &&& k < count || k == count && i < inputs
            &&& (#[trigger] leaf.instances[k].inputs[i])@ == name
            &&& !leaf.intermediates@.contains_key(name)
        }
}

proof fn uses_next(leaf: PartitionedLeaf, k: int, index: int, name: Seq<char>)
    requires
        0 <= k < leaf.instances.len(),
        0 <= index < leaf.instances[k].inputs.len(),
    ensures
        uses_before(leaf, k, index + 1, name) <==> uses_before(leaf, k, index, name) || {
            &&& leaf.instances[k].inputs[index]@ == name
            &&& !leaf.intermediates@.contains_key(name)
        },
{
    let _ = leaf.instances[k].inputs[index];
}

proof fn uses_next_leaf(leaf: PartitionedLeaf, k: int, name: Seq<char>)
    requires
        0 <= k < leaf.instances.len(),
    ensures
        uses_before(leaf, k + 1, 0, name) <==> uses_before(leaf, k, leaf.instances[k].inputs.len() as int, name),
{
}

proof fn uses_all(leaf: PartitionedLeaf, name: Seq<char>)
    ensures
        uses_before(leaf, leaf.instances.len() as int, 0, name) <==> leaf_uses(leaf, name),
{
}

/// Whether `sink` is an output bit of a port before port `count`, or one of the
/// first `bits` bits of that port, and `driver` drives it.
spec fn drives_before(
    ports: Seq<PortView>,
    widths: Map<Seq<char>, usize>,
    leaf: PartitionedLeaf,
    count: int,
    bits: int,
    driver: EndpointView,
    sink: EndpointView,
) -> bool {
    exists|index: int, bit: nat, name: Seq<char>|
        {
            &&& #[trigger] is_port_bit(ports, widths, LogicalPortDirection::Output, index, bit, name)
            &&& index < count || index == count && bit < bits
            &&& sink == EndpointView::SelfPort(name)
            &&& driver == output_driver(leaf, name)
        }
}

proof fn drives_next(
    ports: Seq<PortView>,
    widths: Map<Seq<char>, usize>,
    leaf: PartitionedLeaf,
    index: int,
    bit: int,
    name: Seq<char>,
    driver: EndpointView,
    sink: EndpointView,
)
    requires
        0 <= bit,
        is_port_bit(ports, widths, LogicalPortDirection::Output, index, bit as nat, name),
    ensures
        drives_before(ports, widths, leaf, index, bit + 1, driver, sink) <==> drives_before(
            ports,
            widths,
            leaf,
            index,
            bit,
            driver,
            sink,
        ) || sink == EndpointView::SelfPort(name) && driver == output_driver(leaf, name),
{
}

proof fn drives_next_port(
    ports: Seq<PortView>,
    widths: Map<Seq<char>, usize>,
    leaf: PartitionedLeaf,
    index: int,
    bits: int,
    driver: EndpointView,
    sink: EndpointView,
)
    requires
        0 <= index < ports.len(),
        ports[index].direction == LogicalPortDirection::Output ==> bits == widths[ports[index].net],
        ports[index].direction != LogicalPortDirection::Output ==> bits == 0,
    ensures
        drives_before(ports, widths, leaf, index + 1, 0, driver, sink) <==> drives_before(
            ports,
            widths,
            leaf,
            index,
            bits,
            driver,
            sink,
        ),
{
}

proof fn drives_all(
    ports: Seq<PortView>,
    widths: Map<Seq<char>, usize>,
    leaf: PartitionedLeaf,
    driver: EndpointView,
    sink: EndpointView,
)
    ensures
        drives_before(ports, widths, leaf, ports.len() as int, 0, driver, sink) <==> output_driven(
            ports,
            widths,
            leaf,
            driver,
            sink,
        ),
{
}

/// Whether an output bit of a port before port `count`, or one of the first
/// `bits` bits of that port, repeats the input `name`.
spec fn repeats_before(
    ports: Seq<PortView>,
    widths: Map<Seq<char>, usize>,
    leaf: PartitionedLeaf,
    count: int,
    bits: int,
    name: Seq<char>,
) -> bool {
    exists|index: int, bit: nat, output: Seq<char>|
        {
            &&& #[trigger] is_port_bit(ports, widths, LogicalPortDirection::Output, index, bit, output)
            &&& index < count || index == count && bit < bits
            &&& !leaf.output_sources@.contains_key(output)
            &&& leaf.direct_outputs@[output]@ == name
        }
}

proof fn repeats_next(
    ports: Seq<PortView>,
    widths: Map<Seq<char>, usize>,
    leaf: PartitionedLeaf,
    index: int,
    bit: int,
    output: Seq<char>,
    name: Seq<char>,
)
    requires
        0 <= bit,
        is_port_bit(ports, widths, LogicalPortDirection::Output, index, bit as nat, output),
    ensures
        repeats_before(ports, widths, leaf, index, bit + 1, name) <==> repeats_before(
            ports,
            widths,
            leaf,
            index,
            bit,
            name,
        ) || !leaf.output_sources@.contains_key(output) && leaf.direct_outputs@[output]@ == name,
{
}

proof fn repeats_next_port(
    ports: Seq<PortView>,
    widths: Map<Seq<char>, usize>,
    leaf: PartitionedLeaf,
    index: int,
    bits: int,
    name: Seq<char>,
)
    requires
        0 <= index < ports.len(),
        ports[index].direction == LogicalPortDirection::Output ==> bits == widths[ports[index].net],
        ports[index].direction != LogicalPortDirection::Output ==> bits == 0,
    ensures
        repeats_before(ports, widths, leaf, index + 1, 0, name) <==> repeats_before(
            ports,
            widths,
            leaf,
            index,
            bits,
            name,
        ),
{
}

proof fn repeats_all(
    ports: Seq<PortView>,
    widths: Map<Seq<char>, usize>,
    leaf: PartitionedLeaf,
    name: Seq<char>,
)
    ensures
        leaf_uses(leaf, name) || repeats_before(ports, widths, leaf, ports.len() as int, 0, name) <==> input_used(
            ports,
            widths,
            leaf,
            name,
        ),
{
}

} // verus!

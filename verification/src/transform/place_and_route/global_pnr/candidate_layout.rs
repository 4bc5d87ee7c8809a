//! The layout of a placed module, with ports in place of switches.

use super::candidate::{
    are_taps, expose_routeable_output_ports, expose_switchless_input_port, is_exposed, is_switchless,
    remove_local_input_switches,
};
use super::cell_library::CellPhysicalContract;
use super::dust::{distances_fit, is_rule};
use super::ir::{PhysicalPort, PhysicalPortDirection, PortConnection};
use super::policy::{places_named, LocalPlacerInputConstraints};
use crate::order::{is_text_order, reorder, text_order, text_order_distinct};
use crate::text::{same_text, texts};
use crate::transform::place_and_route::placement_ir::port_names;
use crate::world::grid::World3D;
use crate::world::position::Position;
use vstd::prelude::*;

verus! {

/// A port that a layout is to have, and the name of the node behind it.
#[derive(Clone, Debug)]
pub struct CandidatePort {
    pub name: String,
    pub target: String,
    pub direction: PhysicalPortDirection,
}

impl CandidatePort {
    pub fn new(name: &str, target: &str, direction: PhysicalPortDirection) -> (port: Self)
        ensures
            port.name@ == name@,
            port.target@ == target@,
            port.direction == direction,
    {
        CandidatePort { name: name.to_string(), target: target.to_string(), direction }
    }
}

/// Where an input or output of a placed module is.
#[derive(Clone, Debug)]
pub struct PlacedEndpoint {
    pub name: String,
    pub position: Position,
}

/// A placed module: its world, inputs and outputs.
#[derive(Clone, Debug)]
pub struct PlacedWorld {
    pub world: World3D,
    pub inputs: Vec<PlacedEndpoint>,
    pub outputs: Vec<PlacedEndpoint>,
}

/// Where the first endpoint of a name is, from `start` on.
pub open spec fn endpoint_from(endpoints: Seq<PlacedEndpoint>, name: Seq<char>, start: nat) -> Option<Position>
    decreases endpoints.len() - start,
{
    if start >= endpoints.len() {
        None
    } else if endpoints[start as int].name@ == name {
        Some(endpoints[start as int].position)
    } else {
        endpoint_from(endpoints, name, start + 1)
    }
}

/// Where the endpoint of a name is.
pub fn find_endpoint(endpoints: &Vec<PlacedEndpoint>, name: &str) -> (cell: Option<Position>)
    ensures
        cell == endpoint_from(endpoints@, name@, 0),
{
    let mut index: usize = 0;
    while index < endpoints.len()
        invariant
            index <= endpoints.len(),
            endpoint_from(endpoints@, name@, 0) == endpoint_from(endpoints@, name@, index as nat),
        decreases endpoints.len() - index,
    {
        if same_text(endpoints[index].name.as_str(), name) {
            return Some(endpoints[index].position);
        }
        index += 1;
    }
    None
}

/// Where an input is: at its endpoint, or else at the first place that it may
/// have.
pub open spec fn input_cell(
    inputs: Seq<PlacedEndpoint>,
    constraints: LocalPlacerInputConstraints,
    name: Seq<char>,
) -> Option<Position> {
    match endpoint_from(inputs, name, 0) {
        Some(cell) => Some(cell),
        None => match places_named(constraints, name) {
            Some(places) => if places.len() > 0 {
                Some(places[0])
            } else {
                None
            },
            None => None,
        },
    }
}

fn find_input(inputs: &Vec<PlacedEndpoint>, constraints: &LocalPlacerInputConstraints, name: &str) -> (cell: Option<
    Position,
>)
    ensures
        cell == input_cell(inputs@, *constraints, name@),
{
    match find_endpoint(inputs, name) {
        Some(cell) => Some(cell),
        None => match constraints.positions_for_input_name(name) {
            Some(places) => if places.len() > 0 {
                Some(places[0])
            } else {
                None
            },
            None => None,
        },
    }
}

/// How inputs and outputs of a layout are cut off from what is outside.
#[derive(Clone, Copy, Debug, PartialEq, Eq, Structural)]
pub struct PortRules {
    pub isolate_inputs: bool,
    pub isolate_outputs: bool,
    /// Inputs become the dust that their switch powers.
    pub direct: bool,
    /// Inputs stay where their switch was.
    pub preserve: bool,
}

/// Whether more than one port is an input.
pub open spec fn has_inputs(ports: Seq<CandidatePort>) -> bool {
    exists|i: int, j: int|
        0 <= i < j < ports.len() && (#[trigger] ports[i]).direction == PhysicalPortDirection::Input && (
        #[trigger] ports[j]).direction == PhysicalPortDirection::Input
}

/// How the ports of a module are made: what holds state is cut off on both
/// sides, and what its contract asks for too.
pub open spec fn port_rules(
    ports: Seq<CandidatePort>,
    sequential: bool,
    contract: Option<CellPhysicalContract>,
) -> PortRules {
    let direct = !sequential && has_inputs(ports);
    PortRules {
        isolate_inputs: sequential || (contract matches Some(contract) && contract.requires_input_isolation),
        isolate_outputs: sequential || (contract matches Some(contract) && contract.requires_output_isolation),
        direct,
        preserve: sequential || direct,
    }
}

fn port_rules_of(ports: &Vec<CandidatePort>, sequential: bool, contract: Option<&CellPhysicalContract>) -> (rules:
    PortRules)
    ensures
        rules == port_rules(
            ports@,
            sequential,
            match contract {
                Some(contract) => Some(*contract),
                None => None,
            },
        ),
{
    let mut first: Option<usize> = None;
    let mut several = false;
    let mut index: usize = 0;
    while index < ports.len()
        invariant
            index <= ports.len(),
            match first {
                Some(first) => first < index && ports@[first as int].direction == PhysicalPortDirection::Input,
                None => forall|i: int| 0 <= i < index ==> (#[trigger] ports@[i]).direction != PhysicalPortDirection::Input,
            },
            several ==> has_inputs(ports@),
            first is Some && !several ==> forall|i: int|
                0 <= i < index && i != first->0 ==> (#[trigger] ports@[i]).direction != PhysicalPortDirection::Input,
            first is None ==> !several,
        decreases ports.len() - index,
    {
        if ports[index].direction == PhysicalPortDirection::Input {
            if first.is_some() {
                assert(ports@[first->0 as int].direction == PhysicalPortDirection::Input
                    && ports@[index as int].direction == PhysicalPortDirection::Input);
                several = true;
            } else {
                first = Some(index);
            }
        }
        index += 1;
    }
    proof {
        if !several && has_inputs(ports@) {
            let (i, j) = choose|i: int, j: int|
                0 <= i < j < ports@.len() && (#[trigger] ports@[i]).direction == PhysicalPortDirection::Input && (
                #[trigger] ports@[j]).direction == PhysicalPortDirection::Input;
            assert(ports@[i].direction == PhysicalPortDirection::Input);
            assert(ports@[j].direction == PhysicalPortDirection::Input);
            assert(false);
        }
    }
    let (inputs, outputs) = match contract {
        Some(contract) => (contract.requires_input_isolation, contract.requires_output_isolation),
        None => (false, false),
    };
    let direct = !sequential && several;
    PortRules {
        isolate_inputs: sequential || inputs,
        isolate_outputs: sequential || outputs,
        direct,
        preserve: sequential || direct,
    }
}

/// Whether an input port of a layout is made as it should be.
pub open spec fn is_input_port(world: World3D, rules: PortRules, name: Seq<char>, cell: Position, port: PhysicalPort) -> bool {
    &&& port.name@ == name
    &&& port.direction == PhysicalPortDirection::Input
    &&& port.position == cell
    &&& port.route_position is None
    &&& port.access_points@ == seq![cell]
    &&& port.connection == (if rules.isolate_inputs || world.at(cell).kind is Redstone {
        PortConnection::InputDiode
    } else {
        PortConnection::Direct
    })
}

/// Whether an output port of a layout is made as it should be.
pub open spec fn is_output_port<F: Fn(&World3D, Position, Position) -> bool>(
    rule: &F,
    world: World3D,
    rules: PortRules,
    name: Seq<char>,
    cell: Position,
    port: PhysicalPort,
) -> bool {
    &&& port.name@ == name
    &&& port.direction == PhysicalPortDirection::Output
    &&& port.position == cell
    &&& are_taps(rule, world, cell, port.access_points@)
    &&& port.access_points@.len() > 0
    &&& port.route_position == Some(port.access_points@[0])
    &&& port.connection == (if rules.isolate_outputs {
        PortConnection::OutputDiode
    } else {
        PortConnection::Direct
    })
}

/// Whether making one port changes a world as it should, and gives the port
/// that it should.
pub open spec fn is_port_step<F: Fn(&World3D, Position, Position) -> bool>(
    rule: &F,
    placed: PlacedWorld,
    constraints: LocalPlacerInputConstraints,
    rules: PortRules,
    wanted: CandidatePort,
    before: World3D,
    after: World3D,
    made: Option<PhysicalPort>,
) -> bool {
    match wanted.direction {
        PhysicalPortDirection::Input => match input_cell(placed.inputs@, constraints, wanted.target@) {
            None => after == before && made is None,
            Some(cell) => {
                ||| made is None && is_exposed(rule, before, after, cell, rules.preserve, rules.direct, None)
                ||| {
                    &&& made is Some
                    &&& is_exposed(
                        rule,
                        before,
                        after,
                        cell,
                        rules.preserve,
                        rules.direct,
                        Some(made->0.position),
                    )
                    &&& is_input_port(after, rules, wanted.name@, made->0.position, made->0)
                }
            },
        },
        PhysicalPortDirection::Output => match endpoint_from(placed.outputs@, wanted.target@, 0) {
            None => after == before && made is None,
            Some(cell) => {
                &&& after == before
                &&& made matches Some(port) && is_output_port(rule, before, rules, wanted.name@, cell, port)
            },
        },
    }
}

/// How a layout was made: the world before each port and after the last, what
/// each port became, and the world before each input's switch went and after
/// the last.
pub ghost struct LayoutTrace {
    pub worlds: Seq<World3D>,
    pub made: Seq<Option<PhysicalPort>>,
    pub cleared: Seq<World3D>,
}

/// The ports that were made, in order.
pub open spec fn made_ports(made: Seq<Option<PhysicalPort>>) -> Seq<PhysicalPort>
    decreases made.len(),
{
    if made.len() == 0 {
        Seq::empty()
    } else {
        let rest = made_ports(made.drop_last());
        match made.last() {
            Some(port) => rest.push(port),
            None => rest,
        }
    }
}

/// Whether step `k` of a trace makes port `k`.
pub open spec fn makes_port<F: Fn(&World3D, Position, Position) -> bool>(
    rule: &F,
    placed: PlacedWorld,
    constraints: LocalPlacerInputConstraints,
    rules: PortRules,
    ports: Seq<CandidatePort>,
    trace: LayoutTrace,
    k: int,
) -> bool {
    is_port_step(
        rule,
        placed,
        constraints,
        rules,
        ports[k],
        trace.worlds[k],
        trace.worlds[k + 1],
        trace.made[k],
    )
}

/// Whether step `k` of a trace takes the switch of input `k` away.
pub open spec fn clears_input<F: Fn(&World3D, Position, Position) -> bool>(
    rule: &F,
    placed: PlacedWorld,
    rules: PortRules,
    trace: LayoutTrace,
    k: int,
) -> bool {
    exists|port: Option<Position>| #[trigger]
        is_exposed(
            rule,
            trace.cleared[k],
            trace.cleared[k + 1],
            placed.inputs@[k].position,
            rules.preserve,
            rules.direct,
            port,
        )
}

/// Whether a trace makes the ports of a layout, and then takes the switches of
/// all inputs away.
pub open spec fn is_trace<F: Fn(&World3D, Position, Position) -> bool>(
    rule: &F,
    placed: PlacedWorld,
    constraints: LocalPlacerInputConstraints,
    rules: PortRules,
    ports: Seq<CandidatePort>,
    trace: LayoutTrace,
) -> bool {
    &&& trace.worlds.len() == ports.len() + 1
    &&& trace.made.len() == ports.len()
    &&& trace.worlds[0] == placed.world
    &&& forall|k: int|
        0 <= k < ports.len() ==> #[trigger] makes_port(rule, placed, constraints, rules, ports, trace, k)
    &&& trace.cleared.len() == placed.inputs@.len() + 1
    &&& trace.cleared[0] == trace.worlds.last()
    &&& forall|k: int| 0 <= k < placed.inputs@.len() ==> #[trigger] clears_input(rule, placed, rules, trace, k)
}

/// Whether a world and ports are the layout of a placed module: ports in order
/// of their names, and no switch left.
pub open spec fn is_layout<F: Fn(&World3D, Position, Position) -> bool>(
    rule: &F,
    placed: PlacedWorld,
    constraints: LocalPlacerInputConstraints,
    rules: PortRules,
    wanted: Seq<CandidatePort>,
    world: World3D,
    ports: Seq<PhysicalPort>,
) -> bool {
    exists|trace: LayoutTrace| #[trigger]
        is_trace(rule, placed, constraints, rules, wanted, trace) && is_switchless(trace.cleared.last(), world)
            && in_name_order(made_ports(trace.made), ports)
}

/// Whether a list is another in order of names.
pub open spec fn in_name_order(made: Seq<PhysicalPort>, ports: Seq<PhysicalPort>) -> bool {
    exists|order: Seq<usize>| #[trigger]
        is_text_order(port_names(made), order) && ports.len() == made.len() && forall|i: int|
            0 <= i < ports.len() ==> #[trigger] ports[i] == made[order[i] as int]
}

fn make_port<F: Fn(&World3D, Position, Position) -> bool>(
    rule: &F,
    inputs: &Vec<PlacedEndpoint>,
    outputs: &Vec<PlacedEndpoint>,
    constraints: &LocalPlacerInputConstraints,
    rules: PortRules,
    wanted: &CandidatePort,
    world: &mut World3D,
    Ghost(placed): Ghost<PlacedWorld>,
) -> (made: Option<PhysicalPort>)
    requires
        is_rule(rule),
        inputs@ == placed.inputs@,
        outputs@ == placed.outputs@,
        old(world).wf(),
        distances_fit(*old(world)),
    ensures
        final(world).wf(),
        final(world).size == old(world).size,
        is_port_step(rule, placed, *constraints, rules, *wanted, *old(world), *final(world), made),
{
    match wanted.direction {
        PhysicalPortDirection::Input => {
            let cell = match find_input(inputs, constraints, wanted.target.as_str()) {
                None => return None,
                Some(cell) => cell,
            };
            let position = match expose_switchless_input_port(rule, world, cell, rules.preserve, rules.direct) {
                None => return None,
                Some(position) => position,
            };
            let access_points = vec![position];
            assert(access_points@ =~= seq![position]);
            let connection = if rules.isolate_inputs || world.get(position).kind.is_redstone() {
                PortConnection::InputDiode
            } else {
                PortConnection::Direct
            };
            Some(
                PhysicalPort {
                    name: wanted.name.clone(),
                    direction: PhysicalPortDirection::Input,
                    position,
                    route_position: None,
                    access_points,
                    connection,
                },
            )
        },
        PhysicalPortDirection::Output => {
            let position = match find_endpoint(outputs, wanted.target.as_str()) {
                None => return None,
                Some(position) => position,
            };
            let access_points = expose_routeable_output_ports(rule, world, position);
            let route_position = Some(access_points[0]);
            let connection = if rules.isolate_outputs {
                PortConnection::OutputDiode
            } else {
                PortConnection::Direct
            };
            Some(
                PhysicalPort {
                    name: wanted.name.clone(),
                    direction: PhysicalPortDirection::Output,
                    position,
                    route_position,
                    access_points,
                    connection,
                },
            )
        },
    }
}

fn sort_ports(made: Vec<PhysicalPort>) -> (ports: Vec<PhysicalPort>)
    ensures
        in_name_order(made@, ports@),
{
    let mut names: Vec<String> = Vec::new();
    let mut index: usize = 0;
    while index < made.len()
        invariant
            index <= made.len(),
            names.len() == index,
            forall|i: int| 0 <= i < index ==> (#[trigger] names[i])@ == made[i].name@,
        decreases made.len() - index,
    {
        names.push(made[index].name.clone());
        index += 1;
    }
    let order = text_order(&names);
    assert(texts(names@) =~= port_names(made@));
    proof {
        text_order_distinct(texts(names@), order@);
    }
    let ghost before = made@;
    let ports = reorder(made, &order);
    assert(is_text_order(port_names(before), order@));
    ports
}

/// The layout of a placed module. The switches of its inputs go, and each of the
/// ports that it is to have is exposed where the module can offer it.
pub fn switchless_candidate_layout<F: Fn(&World3D, Position, Position) -> bool>(
    rule: &F,
    ports: &Vec<CandidatePort>,
    sequential: bool,
    contract: Option<&CellPhysicalContract>,
    constraints: &LocalPlacerInputConstraints,
    placed: PlacedWorld,
) -> (layout: (World3D, Vec<PhysicalPort>))
    requires
        is_rule(rule),
        placed.world.wf(),
        distances_fit(placed.world),
    ensures
        layout.0.wf(),
        layout.0.size == placed.world.size,
        is_layout(
            rule,
            placed,
            *constraints,
            port_rules(
                ports@,
                sequential,
                match contract {
                    Some(contract) => Some(*contract),
                    None => None,
                },
            ),
            ports@,
            layout.0,
            layout.1@,
        ),
{
    let rules = port_rules_of(ports, sequential, contract);
    let ghost given = placed;
    let PlacedWorld { world: start, inputs, outputs } = placed;
    let mut world = start;
    let mut made: Vec<PhysicalPort> = Vec::new();
    let ghost mut worlds = seq![world];
    let ghost mut results = Seq::<Option<PhysicalPort>>::empty();
    assert(made@ =~= made_ports(results));
    let mut index: usize = 0;
    while index < ports.len()
        invariant
            index <= ports.len(),
            is_rule(rule),
            inputs@ == given.inputs@,
            outputs@ == given.outputs@,
            world.wf(),
            distances_fit(world),
            world.size == given.world.size,
            worlds.len() == index + 1,
            results.len() == index,
            worlds[0] == given.world,
            worlds.last() == world,
            made@ == made_ports(results),
            forall|k: int|
                0 <= k < index ==> is_port_step(
                    rule,
                    given,
                    *constraints,
                    rules,
                    ports@[k],
                    #[trigger] worlds[k],
                    next_world(worlds, k),
                    results[k],
                ),
        decreases ports.len() - index,
    {
        let ghost before = worlds;
        let ghost past = results;
        let port = make_port(rule, &inputs, &outputs, constraints, rules, &ports[index], &mut world, Ghost(given));
        proof {
            worlds = before.push(world);
            results = past.push(port);
            assert(results.drop_last() =~= past);
            assert forall|k: int| 0 <= k < index + 1 implies is_port_step(
                rule,
                given,
                *constraints,
                rules,
                ports@[k],
                #[trigger] worlds[k],
                next_world(worlds, k),
                results[k],
            ) by {
                assert(worlds[k] == before[k]);
                if k < index {
                    assert(next_world(worlds, k) == next_world(before, k));
                    assert(results[k] == past[k]);
                }
            }
        }
        if let Some(port) = port {
            made.push(port);
        }
        index += 1;
    }
    let ghost mut cleared = seq![world];
    let mut index: usize = 0;
    while index < inputs.len()
        invariant
            index <= inputs.len(),
            is_rule(rule),
            inputs@ == given.inputs@,
            world.wf(),
            distances_fit(world),
            world.size == given.world.size,
            cleared.len() == index + 1,
            cleared[0] == worlds.last(),
            cleared.last() == world,
            forall|k: int|
                0 <= k < index ==> is_cleared_step(
                    rule,
                    rules,
                    #[trigger] cleared[k],
                    next_world(cleared, k),
                    inputs@[k].position,
                ),
        decreases inputs.len() - index,
    {
        let ghost before = cleared;
        let ghost old_world = world;
        let exposed = expose_switchless_input_port(
            rule,
            &mut world,
            inputs[index].position,
            rules.preserve,
            rules.direct,
        );
        proof {
            cleared = before.push(world);
            assert(is_exposed(
                rule,
                old_world,
                world,
                inputs@[index as int].position,
                rules.preserve,
                rules.direct,
                exposed,
            ));
            assert forall|k: int| 0 <= k < index + 1 implies is_cleared_step(
                rule,
                rules,
                #[trigger] cleared[k],
                next_world(cleared, k),
                inputs@[k].position,
            ) by {
                assert(cleared[k] == before[k]);
                if k < index {
                    assert(next_world(cleared, k) == next_world(before, k));
                }
            }
        }
        index += 1;
    }
    let ghost last = world;
    remove_local_input_switches(&mut world);
    let ghost made_before = made@;
    let sorted = sort_ports(made);
    proof {
        let trace = LayoutTrace { worlds, made: results, cleared };
        assert forall|k: int| 0 <= k < ports@.len() implies #[trigger] makes_port(
            rule,
            given,
            *constraints,
            rules,
            ports@,
            trace,
            k,
        ) by {
            assert(worlds[k] == trace.worlds[k]);
        }
        assert forall|k: int| 0 <= k < given.inputs@.len() implies #[trigger] clears_input(
            rule,
            given,
            rules,
            trace,
            k,
        ) by {
            assert(cleared[k] == trace.cleared[k]);
        }
        assert(is_trace(rule, given, *constraints, rules, ports@, trace));
        assert(is_switchless(trace.cleared.last(), world));
        assert(in_name_order(made_ports(trace.made), sorted@));
    }
    (world, sorted)
}

/// The world after step `k` of a list of worlds.
spec fn next_world(worlds: Seq<World3D>, k: int) -> World3D {
    worlds[k + 1]
}

spec fn is_cleared_step<F: Fn(&World3D, Position, Position) -> bool>(
    rule: &F,
    rules: PortRules,
    before: World3D,
    after: World3D,
    cell: Position,
) -> bool {
    exists|port: Option<Position>| #[trigger] is_exposed(rule, before, after, cell, rules.preserve, rules.direct, port)
}

} // verus!

//! Routing a placed design.

use super::input_ports::{input_fits, InputFailure, InputMoment, InputTask};
use super::inputs::{dotted, GlobalRoutingConfig};
use super::nets::{end_label, var_fits, vars_fit, NetFailure, NetTask};
use super::plan::{is_net_order, ordered_module_variables, NetOrderStrategy, RoutingConnection, RoutingTopInput};
use super::ports::{
    is_placed_world, placed_candidate_world, placement_fits, ports_fit, PlacedModule, PlacedWorldError,
};
use super::tools::RouteTools;
use super::topology::{
    are_bound, bind_route_topology, connection_view, end_from, net_from, pair_fits, pair_views, pairs_fit, plan_fits,
    planned, planned_fits, topology_fits, PlanError, ResolvedPnrTopology, RoutingPlan,
};
use super::words::{plan_chars, routing_chars};
use crate::order::{is_stable_order, stable_order};
use crate::text::{contains_text, has_part, same_text};
use crate::transform::place_and_route::global_pnr::ir::LayoutCandidate;
use crate::transform::place_and_route::global_pnr::route_engine::negotiation::{
    assemble_world_with_routes_raw, is_assembled, is_finisher,
};
use crate::transform::place_and_route::global_pnr::route_engine::route::{
    same_course, same_identity, ResolvedEndpoint, RoutedNet,
};
use crate::transform::place_and_route::global_pnr::route_engine::search::PlaceRequest;
use crate::transform::place_and_route::global_pnr::route_engine::state::PlaceBound;
use crate::transform::place_and_route::global_pnr::route_engine::validation::{
    first_invalid_active_route, is_contract_check, RouteValidationMode,
};
use crate::world::block::Block;
use crate::world::grid::{Placed, World3D};
use crate::world::position::{in_bounds, DimSize, Position};
use vstd::prelude::*;

verus! {

/// Why a design was not routed.
#[derive(Clone, Copy, Debug, PartialEq, Eq, Structural)]
pub enum RoutingError {
    /// Its nets do not fit together.
    Plan { error: PlanError },
    /// Its modules do not fit together.
    World { error: PlacedWorldError },
    /// A route that is given has a block outside the world.
    PrefixOutside { cell: Position },
    /// An input was not routed.
    Input { index: usize, failure: InputFailure },
    /// A connection was not routed.
    Net { failure: NetFailure },
    /// A route does not power its sink any more once all are there.
    Unpowered { route: usize },
}

/// A design that was not routed, with the routes that were found.
#[derive(Debug)]
pub struct PartialRoutingFailure {
    pub error: RoutingError,
    /// The error in words.
    pub message: String,
    pub routed_nets: Vec<RoutedNet>,
}

/// The routes of a design.
pub type RoutingResult = Result<Vec<RoutedNet>, PartialRoutingFailure>;

// ---------------------------------------------------------------------------
// Routes that are given
// ---------------------------------------------------------------------------
/// The first block from `start` on that is outside a world.
pub open spec fn first_outside(size: DimSize, blocks: Seq<Placed>, start: nat) -> Option<Position>
    decreases blocks.len() - start,
{
    if start >= blocks.len() {
        None
    } else if !in_bounds(size, blocks[start as int].0) {
        Some(blocks[start as int].0)
    } else {
        first_outside(size, blocks, start + 1)
    }
}

/// The first block of the first `count` routes that is outside a world.
pub open spec fn outside_cell(size: DimSize, routes: Seq<RoutedNet>, count: nat) -> Option<Position>
    decreases count,
{
    if count == 0 {
        None
    } else {
        match outside_cell(size, routes, (count - 1) as nat) {
            Some(cell) => Some(cell),
            None => first_outside(size, routes[count - 1].blocks@, 0),
        }
    }
}

fn find_outside(size: DimSize, routes: &Vec<RoutedNet>) -> (found: Option<Position>)
    ensures
        found == outside_cell(size, routes@, routes@.len()),
{
    let mut found: Option<Position> = None;
    let mut index: usize = 0;
    while index < routes.len()
        invariant
            index <= routes.len(),
            found == outside_cell(size, routes@, index as nat),
        decreases routes.len() - index,
    {
        if found.is_none() {
            let blocks = &routes[index].blocks;
            let mut at: usize = 0;
            while at < blocks.len() && size.bound_on(blocks[at].0)
                invariant
                    at <= blocks.len(),
                    first_outside(size, blocks@, 0) == first_outside(size, blocks@, at as nat),
                decreases blocks.len() - at,
            {
                at += 1;
            }
            if at < blocks.len() {
                found = Some(blocks[at].0);
            }
        }
        index += 1;
    }
    found
}

/// Whether routes are copies of others.
pub open spec fn are_copies(copies: Seq<RoutedNet>, routes: Seq<RoutedNet>) -> bool {
    &&& copies.len() == routes.len()
    &&& forall|i: int|
        0 <= i < copies.len() ==> same_course(#[trigger] copies[i], routes[i]) && same_identity(copies[i], routes[i])
}

fn copy_routes(routes: &Vec<RoutedNet>) -> (copies: Vec<RoutedNet>)
    ensures
        are_copies(copies@, routes@),
{
    let mut copies: Vec<RoutedNet> = Vec::new();
    let mut index: usize = 0;
    while index < routes.len()
        invariant
            index <= routes.len(),
            copies.len() == index,
            forall|i: int|
                0 <= i < index ==> same_course(#[trigger] copies@[i], routes@[i]) && same_identity(
                    copies@[i],
                    routes@[i],
                ),
        decreases routes.len() - index,
    {
        let ghost before = copies@;
        copies.push(routes[index].copy());
        assert forall|i: int| 0 <= i < index + 1 implies same_course(#[trigger] copies@[i], routes@[i])
            && same_identity(copies@[i], routes@[i]) by {
            if i < index {
                assert(copies@[i] == before[i]);
            }
        }
        index += 1;
    }
    copies
}

/// Whether a route starts at a module.
pub open spec fn is_internal(route: RoutedNet) -> bool {
    ||| route.source_endpoint matches Some(end) && end is InstancePort
    ||| route.source_label matches Some(label) && has_part(label@, "."@)
}

/// Whether one of the routes starts at a module.
pub open spec fn has_internal(routes: Seq<RoutedNet>) -> bool {
    exists|i: int| 0 <= i < routes.len() && is_internal(#[trigger] routes[i])
}

fn find_internal(routes: &Vec<RoutedNet>) -> (found: bool)
    ensures
        found == has_internal(routes@),
{
    let mut found = false;
    let mut index: usize = 0;
    while index < routes.len()
        invariant
            index <= routes.len(),
            found == exists|i: int| 0 <= i < index && is_internal(#[trigger] routes@[i]),
        decreases routes.len() - index,
    {
        let by_end = match routes[index].source_endpoint {
            Some(ResolvedEndpoint::InstancePort { .. }) => true,
            _ => false,
        };
        let by_label = match &routes[index].source_label {
            Some(label) => contains_text(label.as_str(), "."),
            None => false,
        };
        if by_end || by_label {
            assert(is_internal(routes@[index as int]));
            found = true;
        }
        index += 1;
    }
    found
}

/// Whether a name is that of an input with a route.
pub open spec fn is_routed_input_name(routes: Seq<RoutedNet>, name: Seq<char>) -> bool {
    exists|i: int|
        0 <= i < routes.len() && (#[trigger] routes[i]).source_label is Some && routes[i].source_label->0@ == name
            && !has_part(name, "."@)
}

/// Whether names are those of the inputs with a route.
pub open spec fn are_routed_names(routes: Seq<RoutedNet>, names: Seq<String>) -> bool {
    &&& forall|k: int| 0 <= k < names.len() ==> is_routed_input_name(routes, (#[trigger] names[k])@)
    &&& forall|i: int|
        0 <= i < routes.len() && (#[trigger] routes[i]).source_label is Some && !has_part(
            routes[i].source_label->0@,
            "."@,
        ) ==> exists|k: int| 0 <= k < names.len() && (#[trigger] names[k])@ == routes[i].source_label->0@
}

fn find_routed_names(routes: &Vec<RoutedNet>) -> (names: Vec<String>)
    ensures
        are_routed_names(routes@, names@),
{
    let mut names: Vec<String> = Vec::new();
    let mut index: usize = 0;
    while index < routes.len()
        invariant
            index <= routes.len(),
            forall|k: int| 0 <= k < names.len() ==> is_routed_input_name(routes@, (#[trigger] names@[k])@),
            forall|i: int|
                0 <= i < index && (#[trigger] routes@[i]).source_label is Some && !has_part(
                    routes@[i].source_label->0@,
                    "."@,
                ) ==> exists|k: int| 0 <= k < names.len() && (#[trigger] names@[k])@ == routes@[i].source_label->0@,
        decreases routes.len() - index,
    {
        if let Some(label) = &routes[index].source_label {
            if !contains_text(label.as_str(), ".") {
                let ghost before = names@;
                names.push(label.clone());
                proof {
                    assert(routes@[index as int].source_label->0@ == label@);
                    assert(is_routed_input_name(routes@, label@));
                    assert(names@[before.len() as int]@ == label@);
                    assert forall|k: int| 0 <= k < names.len() implies is_routed_input_name(
                        routes@,
                        (#[trigger] names@[k])@,
                    ) by {
                        if k < before.len() {
                            assert(names@[k] == before[k]);
                        }
                    }
                    assert forall|i: int|
                        0 <= i < index + 1 && (#[trigger] routes@[i]).source_label is Some && !has_part(
                            routes@[i].source_label->0@,
                            "."@,
                        ) implies exists|k: int|
                        0 <= k < names.len() && (#[trigger] names@[k])@ == routes@[i].source_label->0@ by {
                        if i < index {
                            let k = choose|k: int|
                                0 <= k < before.len() && (#[trigger] before[k])@ == routes@[i].source_label->0@;
                            assert(names@[k]@ == routes@[i].source_label->0@);
                        }
                    }
                }
            }
        }
        index += 1;
    }
    names
}

// ---------------------------------------------------------------------------
// Connections that are left
// ---------------------------------------------------------------------------
/// The end that a connection leads to, with the number of its net.
pub open spec fn typed_connection(
    topology: Option<ResolvedPnrTopology>,
    var: RoutingConnection,
) -> Option<(usize, ResolvedEndpoint)> {
    match topology {
        None => None,
        Some(topology) => match net_from(topology, end_label(var.source), 0) {
            None => None,
            Some(net) => match end_from(topology, net.sinks@, end_label(var.target), 0) {
                None => None,
                Some(end) => Some((net.id, end)),
            },
        },
    }
}

/// Whether a route is that of a connection.
pub open spec fn serves(topology: Option<ResolvedPnrTopology>, route: RoutedNet, var: RoutingConnection) -> bool {
    match typed_connection(topology, var) {
        Some((id, end)) => route.net_id == Some(id) && route.sink_endpoint == Some(end),
        None => {
            &&& route.source_label is Some
            &&& route.source_label->0@ == end_label(var.source)
            &&& route.sink_label is Some
            &&& route.sink_label->0@ == end_label(var.target)
        },
    }
}

/// Whether one of the routes is that of a connection.
pub open spec fn is_served(
    topology: Option<ResolvedPnrTopology>,
    routes: Seq<RoutedNet>,
    var: RoutingConnection,
) -> bool {
    exists|i: int| 0 <= i < routes.len() && serves(topology, #[trigger] routes[i], var)
}

/// The topology behind a reference.
pub open spec fn known_topology(topology: Option<&ResolvedPnrTopology>) -> Option<ResolvedPnrTopology> {
    match topology {
        Some(topology) => Some(*topology),
        None => None,
    }
}

fn serves_var(
    topology: Option<&ResolvedPnrTopology>,
    routes: &Vec<RoutedNet>,
    var: &RoutingConnection,
) -> (found: bool)
    ensures
        found == is_served(known_topology(topology), routes@, *var),
{
    let source = dotted(var.source.0.as_str(), var.source.1.as_str());
    let target = dotted(var.target.0.as_str(), var.target.1.as_str());
    let typed = match topology {
        None => None,
        Some(topology) => match topology.net_by_driver_label(source.as_str()) {
            None => None,
            Some(net) => match topology.sink_by_label(net, target.as_str()) {
                None => None,
                Some(end) => Some((net.id, end)),
            },
        },
    };
    assert(typed == typed_connection(known_topology(topology), *var));
    let mut found = false;
    let mut index: usize = 0;
    while index < routes.len()
        invariant
            index <= routes.len(),
            source@ == end_label(var.source),
            target@ == end_label(var.target),
            typed == typed_connection(known_topology(topology), *var),
            found == exists|i: int| 0 <= i < index && serves(known_topology(topology), #[trigger] routes@[i], *var),
        decreases routes.len() - index,
    {
        let route = &routes[index];
        let served = match typed {
            Some((id, end)) => match (route.net_id, route.sink_endpoint) {
                (Some(own), Some(sink)) => own == id && sink == end,
                _ => false,
            },
            None => match (&route.source_label, &route.sink_label) {
                (Some(from), Some(to)) => same_text(from.as_str(), source.as_str()) && same_text(
                    to.as_str(),
                    target.as_str(),
                ),
                _ => false,
            },
        };
        assert(served == serves(known_topology(topology), routes@[index as int], *var));
        if served {
            found = true;
        }
        index += 1;
    }
    found
}

/// Whether something answers every question about the priority of a net.
pub open spec fn is_prioritiser<Q: Fn(usize) -> usize>(priority: &Q) -> bool {
    forall|net: usize| #[trigger] call_requires(*priority, (net,))
}

/// Whether a key is that of a connection: the higher the priority of its net the
/// smaller.
pub open spec fn is_priority_key<Q: Fn(usize) -> usize>(
    priority: &Q,
    topology: ResolvedPnrTopology,
    var: RoutingConnection,
    key: usize,
) -> bool {
    match net_from(topology, end_label(var.source), 0) {
        None => key == usize::MAX,
        Some(net) => exists|level: usize| #[trigger]
            call_ensures(*priority, (net.id,), level) && key == (usize::MAX - level) as usize,
    }
}

/// Whether an order is another with connections of a higher priority first.
pub open spec fn is_priority_order<Q: Fn(usize) -> usize>(
    priority: &Q,
    topology: Option<ResolvedPnrTopology>,
    vars: Seq<RoutingConnection>,
    order: Seq<usize>,
    result: Seq<usize>,
) -> bool {
    match topology {
        None => result == order,
        Some(topology) => is_sorted_by_priority(priority, topology, vars, order, result),
    }
}

/// Indices at some places.
pub open spec fn at_places(order: Seq<usize>, places: Seq<usize>) -> Seq<usize> {
    Seq::new(order.len(), |i: int| order[places[i] as int])
}

/// Whether an order is another with connections of a higher priority first.
pub open spec fn is_sorted_by_priority<Q: Fn(usize) -> usize>(
    priority: &Q,
    topology: ResolvedPnrTopology,
    vars: Seq<RoutingConnection>,
    order: Seq<usize>,
    result: Seq<usize>,
) -> bool {
    exists|keys: Seq<usize>, places: Seq<usize>|
        {
            &&& #[trigger] are_priority_keys(priority, topology, vars, order, keys)
            &&& #[trigger] is_stable_order(keys, places)
            &&& result == at_places(order, places)
        }
}

/// Whether keys are those of connections in an order.
pub open spec fn are_priority_keys<Q: Fn(usize) -> usize>(
    priority: &Q,
    topology: ResolvedPnrTopology,
    vars: Seq<RoutingConnection>,
    order: Seq<usize>,
    keys: Seq<usize>,
) -> bool {
    &&& keys.len() == order.len()
    &&& forall|i: int|
        0 <= i < keys.len() ==> is_priority_key(priority, topology, vars[order[i] as int], #[trigger] keys[i])
}

fn prioritise<Q: Fn(usize) -> usize>(
    priority: &Q,
    topology: Option<&ResolvedPnrTopology>,
    vars: &Vec<RoutingConnection>,
    order: Vec<usize>,
) -> (result: Vec<usize>)
    requires
        is_prioritiser(priority),
        forall|i: int| 0 <= i < order.len() ==> #[trigger] order@[i] < vars.len(),
    ensures
        is_priority_order(priority, known_topology(topology), vars@, order@, result@),
        forall|i: int| 0 <= i < result.len() ==> #[trigger] result@[i] < vars.len(),
{
    let design = match topology {
        None => return order,
        Some(design) => design,
    };
    let mut keys: Vec<usize> = Vec::new();
    let mut index: usize = 0;
    while index < order.len()
        invariant
            index <= order.len(),
            is_prioritiser(priority),
            forall|i: int| 0 <= i < order.len() ==> #[trigger] order@[i] < vars.len(),
            keys.len() == index,
            forall|i: int|
                0 <= i < index ==> is_priority_key(
                    priority,
                    *design,
                    vars@[order@[i] as int],
                    #[trigger] keys@[i],
                ),
        decreases order.len() - index,
    {
        let at: usize = order[index];
        assert(order@[index as int] < vars.len());
        let var = &vars[at];
        let label = dotted(var.source.0.as_str(), var.source.1.as_str());
        let key: usize = match design.net_by_driver_label(label.as_str()) {
            None => usize::MAX,
            Some(net) => {
                let level: usize = priority(net.id);
                assert(call_ensures(*priority, (net.id,), level));
                usize::MAX - level
            },
        };
        assert(is_priority_key(priority, *design, vars@[order@[index as int] as int], key));
        let ghost before = keys@;
        keys.push(key);
        assert forall|i: int| 0 <= i < index + 1 implies is_priority_key(
            priority,
            *design,
            vars@[order@[i] as int],
            #[trigger] keys@[i],
        ) by {
            if i < index {
                assert(keys@[i] == before[i]);
            }
        }
        index += 1;
    }
    let places = stable_order(&keys);
    let mut result: Vec<usize> = Vec::new();
    let mut index: usize = 0;
    while index < places.len()
        invariant
            index <= places.len(),
            places.len() == order.len(),
            forall|i: int| 0 <= i < order.len() ==> #[trigger] order@[i] < vars.len(),
            forall|i: int| 0 <= i < places.len() ==> #[trigger] places@[i] < order.len(),
            result.len() == index,
            forall|i: int| 0 <= i < index ==> #[trigger] result@[i] == order@[places@[i] as int],
            forall|i: int| 0 <= i < index ==> #[trigger] result@[i] < vars.len(),
        decreases places.len() - index,
    {
        let at: usize = places[index];
        assert(places@[index as int] < order.len());
        result.push(order[at]);
        index += 1;
    }
    proof {
        assert(result@ =~= at_places(order@, places@));
        assert(are_priority_keys(priority, *design, vars@, order@, keys@));
        assert(is_stable_order(keys@, places@));
        assert(is_sorted_by_priority(priority, *design, vars@, order@, result@));
    }
    result
}

/// Connections in an order, without those that have a route.
pub open spec fn left_over(
    topology: Option<ResolvedPnrTopology>,
    routes: Seq<RoutedNet>,
    vars: Seq<RoutingConnection>,
    order: Seq<usize>,
    count: nat,
) -> Seq<RoutingConnection>
    decreases count,
{
    if count == 0 {
        Seq::empty()
    } else {
        let rest = left_over(topology, routes, vars, order, (count - 1) as nat);
        let var = vars[order[count - 1] as int];
        if is_served(topology, routes, var) {
            rest
        } else {
            rest.push(var)
        }
    }
}

fn copy_connection(var: &RoutingConnection) -> (copy: RoutingConnection)
    ensures
        copy == *var,
{
    RoutingConnection {
        source: (var.source.0.clone(), var.source.1.clone()),
        target: (var.target.0.clone(), var.target.1.clone()),
    }
}

fn find_left_over(
    topology: Option<&ResolvedPnrTopology>,
    routes: &Vec<RoutedNet>,
    vars: &Vec<RoutingConnection>,
    order: &Vec<usize>,
) -> (left: Vec<RoutingConnection>)
    requires
        forall|i: int| 0 <= i < order.len() ==> #[trigger] order@[i] < vars.len(),
    ensures
        left@ == left_over(known_topology(topology), routes@, vars@, order@, order@.len()),
        forall|k: int| 0 <= k < left.len() ==> vars@.contains(#[trigger] left@[k]),
{
    let mut left: Vec<RoutingConnection> = Vec::new();
    assert(left@ =~= left_over(known_topology(topology), routes@, vars@, order@, 0));
    let mut index: usize = 0;
    while index < order.len()
        invariant
            index <= order.len(),
            forall|i: int| 0 <= i < order.len() ==> #[trigger] order@[i] < vars.len(),
            left@ == left_over(known_topology(topology), routes@, vars@, order@, index as nat),
            forall|k: int| 0 <= k < left.len() ==> vars@.contains(#[trigger] left@[k]),
        decreases order.len() - index,
    {
        let at: usize = order[index];
        assert(order@[index as int] < vars.len());
        if !serves_var(topology, routes, &vars[at]) {
            let ghost before = left@;
            left.push(copy_connection(&vars[at]));
            proof {
                assert(vars@.contains(vars@[at as int]));
                assert forall|k: int| 0 <= k < left.len() implies vars@.contains(#[trigger] left@[k]) by {
                    if k < before.len() {
                        assert(left@[k] == before[k]);
                    }
                }
            }
        }
        index += 1;
    }
    left
}

// ---------------------------------------------------------------------------
// Designs
// ---------------------------------------------------------------------------
/// What stays the same while a design is routed.
pub ghost struct DesignTask {
    pub topology: Option<ResolvedPnrTopology>,
    pub inputs: Seq<RoutingTopInput>,
    pub vars: Seq<RoutingConnection>,
    pub candidates: Seq<LayoutCandidate>,
    pub placed: Seq<PlacedModule>,
    pub config: GlobalRoutingConfig,
    pub strategy: NetOrderStrategy,
    pub prefix: Seq<RoutedNet>,
}

/// What the result of a failure is, where inputs and connections are those that it
/// tells by their index.
pub open spec fn fails_with(
    result: RoutingResult,
    error: RoutingError,
    inputs: Seq<RoutingTopInput>,
    vars: Seq<RoutingConnection>,
    routes: Seq<RoutedNet>,
) -> bool {
    &&& result matches Err(failure) && failure.error == error && failure.routed_nets@ == routes && failure.message@
        == routing_chars(error, inputs, vars, routes)
}

/// Whether all ends of a design stay in range.
pub open spec fn design_fits(task: DesignTask) -> bool {
    &&& placement_fits(task.candidates, task.placed)
    &&& forall|i: int|
        0 <= i < task.inputs.len() ==> input_fits(task.candidates, task.placed, #[trigger] task.inputs[i])
    &&& vars_fit(
        NetTask { vars: task.vars, candidates: task.candidates, placed: task.placed, config: task.config },
    )
}

/// Whether a world is one with the blocks of the given routes, brought into
/// shape; or which of their blocks is outside.
pub open spec fn is_prefix_world<I: Fn(&World3D) -> World3D>(
    finish: &I,
    base: World3D,
    prefix: Seq<RoutedNet>,
    result: Result<World3D, Position>,
) -> bool {
    match outside_cell(base.size, prefix, prefix.len()) {
        Some(cell) => result == Err::<World3D, Position>(cell),
        None => result is Ok && exists|raw: World3D| #[trigger]
            is_assembled(base, prefix, raw) && call_ensures(*finish, (&raw,), result->Ok_0),
    }
}

/// What preparing a design comes to: a world of its modules, with the routes
/// that are given if one of them starts at a module, and else without any.
pub open spec fn is_prepared<I: Fn(&World3D) -> World3D>(
    finish: &I,
    task: DesignTask,
    result: Result<(World3D, Seq<RoutedNet>), RoutingError>,
) -> bool {
    exists|base: Result<World3D, PlacedWorldError>| #[trigger]
        is_placed_world(finish, task.candidates, task.placed, base) && match base {
            Err(error) => result == Err::<(World3D, Seq<RoutedNet>), RoutingError>(RoutingError::World { error }),
            Ok(base) => is_prepared_on(finish, task, base, result),
        }
}

/// What preparing a design comes to once its modules are placed.
pub open spec fn is_prepared_on<I: Fn(&World3D) -> World3D>(
    finish: &I,
    task: DesignTask,
    base: World3D,
    result: Result<(World3D, Seq<RoutedNet>), RoutingError>,
) -> bool {
    exists|with: Result<World3D, Position>| #[trigger]
        is_prefix_world(finish, base, task.prefix, with) && match with {
            Err(cell) => result == Err::<(World3D, Seq<RoutedNet>), RoutingError>(
                RoutingError::PrefixOutside { cell },
            ),
            Ok(world) => if has_internal(task.prefix) {
                result matches Ok((own, routes)) && own == world && are_copies(routes, task.prefix)
            } else {
                is_prepared_anew(finish, task, result)
            },
        }
}

/// What preparing a design without any routes comes to.
pub open spec fn is_prepared_anew<I: Fn(&World3D) -> World3D>(
    finish: &I,
    task: DesignTask,
    result: Result<(World3D, Seq<RoutedNet>), RoutingError>,
) -> bool {
    exists|base: Result<World3D, PlacedWorldError>| #[trigger]
        is_placed_world(finish, task.candidates, task.placed, base) && match base {
            Err(error) => result == Err::<(World3D, Seq<RoutedNet>), RoutingError>(RoutingError::World { error }),
            Ok(world) => result == Ok::<(World3D, Seq<RoutedNet>), RoutingError>((world, Seq::empty())),
        }
}

/// The result of preparing a design, by the routes that it holds.
pub open spec fn prepared_view(result: Result<(World3D, Vec<RoutedNet>), RoutingError>) -> Result<
    (World3D, Seq<RoutedNet>),
    RoutingError,
> {
    match result {
        Ok((world, routes)) => Ok((world, routes@)),
        Err(error) => Err(error),
    }
}

fn prepare<I: Fn(&World3D) -> World3D>(
    finish: &I,
    candidates: &Vec<LayoutCandidate>,
    placed: &Vec<PlacedModule>,
    prefix: &Vec<RoutedNet>,
    Ghost(task): Ghost<DesignTask>,
) -> (result: Result<(World3D, Vec<RoutedNet>), RoutingError>)
    requires
        is_finisher(finish),
        placement_fits(candidates@, placed@),
        task.candidates == candidates@,
        task.placed == placed@,
        task.prefix == prefix@,
    ensures
        is_prepared(finish, task, prepared_view(result)),
        result matches Ok((world, _)) ==> world.wf(),
{
    let placed_world = placed_candidate_world(finish, candidates, placed);
    let ghost known = placed_world;
    assert(is_placed_world(finish, task.candidates, task.placed, known));
    let base = match placed_world {
        Err(error) => return Err(RoutingError::World { error }),
        Ok(base) => base,
    };
    if let Some(cell) = find_outside(base.size, prefix) {
        let ghost with: Result<World3D, Position> = Err(cell);
        assert(is_prefix_world(finish, base, task.prefix, with));
        assert(is_prepared_on(finish, task, base, Err(RoutingError::PrefixOutside { cell })));
        return Err(RoutingError::PrefixOutside { cell });
    }
    let raw = assemble_world_with_routes_raw(&base, prefix);
    let world = finish(&raw);
    let ghost with: Result<World3D, Position> = Ok(world);
    assert(is_assembled(base, task.prefix, raw) && call_ensures(*finish, (&raw,), with->Ok_0));
    assert(is_prefix_world(finish, base, task.prefix, with));
    if find_internal(prefix) {
        let routes = copy_routes(prefix);
        let result: Result<(World3D, Vec<RoutedNet>), RoutingError> = Ok((world, routes));
        assert(is_prepared_on(finish, task, base, prepared_view(result)));
        return result;
    }
    let anew = placed_candidate_world(finish, candidates, placed);
    let ghost again = anew;
    assert(is_placed_world(finish, task.candidates, task.placed, again));
    let result: Result<(World3D, Vec<RoutedNet>), RoutingError> = match anew {
        Err(error) => Err(RoutingError::World { error }),
        Ok(world) => {
            let none: Vec<RoutedNet> = Vec::new();
            assert(none@ =~= Seq::<RoutedNet>::empty());
            Ok((world, none))
        },
    };
    assert(is_prepared_anew(finish, task, prepared_view(result)));
    assert(is_prepared_on(finish, task, base, prepared_view(result)));
    result
}

impl<
    F: Fn(&World3D, Position, Position) -> bool,
    C: Fn(&World3D, Position, Position) -> bool,
    B: Fn(&World3D, Position) -> Vec<PlaceBound>,
    L: Fn(&World3D, &PlaceRequest) -> Option<(World3D, Position)>,
    P: Fn(&World3D, Position, Block, &Vec<Position>) -> Option<World3D>,
    S: Fn(&World3D, Position, Option<bool>, &Vec<Position>) -> Option<Vec<bool>>,
> RouteTools<F, C, B, L, P, S> {
    /// What checking all routes of a design in the end comes to.
    pub open spec fn is_checked(
        &self,
        config: GlobalRoutingConfig,
        world: World3D,
        routes: Seq<RoutedNet>,
        result: RoutingResult,
    ) -> bool {
        if config.validation == RouteValidationMode::Incremental {
            match result {
                Ok(list) => {
                    &&& list@ == routes
                    &&& forall|i: int|
                        0 <= i < routes.len() ==> is_contract_check(
                            &self.rule,
                            &self.settle,
                            world,
                            world,
                            #[trigger] routes[i],
                            true,
                        )
                },
                Err(failure) => {
                    &&& failure.routed_nets@ == routes
                    &&& failure.message@ == routing_chars(failure.error, Seq::empty(), Seq::empty(), routes)
                    &&& failure.error is Unpowered
                    &&& failure.error->route < routes.len()
                    &&& forall|i: int|
                        0 <= i < failure.error->route ==> is_contract_check(
                            &self.rule,
                            &self.settle,
                            world,
                            world,
                            #[trigger] routes[i],
                            true,
                        )
                    &&& is_contract_check(
                        &self.rule,
                        &self.settle,
                        world,
                        world,
                        routes[failure.error->route as int],
                        false,
                    )
                },
            }
        } else {
            result matches Ok(list) && list@ == routes
        }
    }

    /// What routing the connections of a design comes to once its inputs are
    /// routed.
    pub open spec fn is_finished(
        &self,
        task: DesignTask,
        vars: Seq<RoutingConnection>,
        start: InputMoment,
        result: RoutingResult,
    ) -> bool {
        exists|routes: Seq<RoutedNet>, outcome: Result<World3D, NetFailure>| #[trigger]
            self.are_routed_nets(
                NetTask { vars, candidates: task.candidates, placed: task.placed, config: task.config },
                start,
                routes,
                outcome,
            ) && match outcome {
                Err(failure) => fails_with(result, RoutingError::Net { failure }, task.inputs, vars, routes),
                Ok(world) => self.is_checked(task.config, world, routes, result),
            }
    }

    /// What routing a design that is prepared comes to: its inputs, then its
    /// connections, and in the end a check of all routes.
    pub open spec fn is_continued(
        &self,
        task: DesignTask,
        vars: Seq<RoutingConnection>,
        completed: Seq<String>,
        start: InputMoment,
        result: RoutingResult,
    ) -> bool {
        exists|routes: Seq<RoutedNet>, outcome: Result<World3D, (usize, InputFailure)>| #[trigger]
            self.are_routed_inputs(
                InputTask {
                    candidates: task.candidates,
                    placed: task.placed,
                    inputs: task.inputs,
                    config: task.config,
                    completed,
                },
                start,
                routes,
                outcome,
            ) && match outcome {
                Err((index, failure)) => fails_with(
                    result,
                    RoutingError::Input { index, failure },
                    task.inputs,
                    vars,
                    routes,
                ),
                Ok(world) => self.is_finished(task, vars, InputMoment { world, routes }, result),
            }
    }

    /// Whether connections are those of a design that are left, in the order in
    /// which they are routed.
    pub open spec fn are_left<Q: Fn(usize) -> usize>(
        &self,
        priority: &Q,
        task: DesignTask,
        vars: Seq<RoutingConnection>,
    ) -> bool {
        exists|first: Seq<usize>, order: Seq<usize>|
            {
                &&& #[trigger] is_net_order(task.vars, task.strategy, first)
                &&& #[trigger] is_priority_order(priority, task.topology, task.vars, first, order)
                &&& vars == left_over(task.topology, task.prefix, task.vars, order, order.len())
            }
    }

    /// What routing a design from given routes on comes to.
    pub open spec fn is_routed_design<Q: Fn(usize) -> usize, I: Fn(&World3D) -> World3D>(
        &self,
        priority: &Q,
        finish: &I,
        task: DesignTask,
        result: RoutingResult,
    ) -> bool {
        exists|start: Result<(World3D, Seq<RoutedNet>), RoutingError>| #[trigger]
            is_prepared(finish, task, start) && match start {
                Err(error) => fails_with(result, error, task.inputs, task.vars, Seq::empty()),
                Ok((world, routes)) => self.is_routed_on(
                    priority,
                    task,
                    InputMoment { world, routes },
                    result,
                ),
            }
    }

    /// What routing a design that is prepared comes to.
    pub open spec fn is_routed_on<Q: Fn(usize) -> usize>(
        &self,
        priority: &Q,
        task: DesignTask,
        start: InputMoment,
        result: RoutingResult,
    ) -> bool {
        exists|vars: Seq<RoutingConnection>, completed: Seq<String>|
            {
                &&& #[trigger] self.are_left(priority, task, vars)
                &&& #[trigger] are_routed_names(start.routes, completed)
                &&& self.is_continued(task, vars, completed, start, result)
            }
    }

    fn route_prepared(
        &self,
        inputs: &Vec<RoutingTopInput>,
        vars: &Vec<RoutingConnection>,
        candidates: &Vec<LayoutCandidate>,
        placed: &Vec<PlacedModule>,
        config: GlobalRoutingConfig,
        completed: &Vec<String>,
        world: World3D,
        routes: Vec<RoutedNet>,
        Ghost(task): Ghost<DesignTask>,
    ) -> (result: RoutingResult)
        requires
            self.valid(),
            world.wf(),
            task.inputs == inputs@,
            task.candidates == candidates@,
            task.placed == placed@,
            task.config == config,
            forall|i: int| 0 <= i < inputs.len() ==> input_fits(candidates@, placed@, #[trigger] inputs@[i]),
            vars_fit(NetTask { vars: vars@, candidates: candidates@, placed: placed@, config }),
        ensures
            self.is_continued(task, vars@, completed@, InputMoment { world, routes: routes@ }, result),
    {
        let ghost start = InputMoment { world, routes: routes@ };
        let mut routes = routes;
        let outcome = self.route_top_input_ports(inputs, candidates, placed, config, completed, world, &mut routes);
        let ghost known = outcome;
        let ghost after_inputs = routes@;
        assert(self.are_routed_inputs(
            InputTask {
                candidates: task.candidates,
                placed: task.placed,
                inputs: task.inputs,
                config: task.config,
                completed: completed@,
            },
            start,
            after_inputs,
            known,
        ));
        let world = match outcome {
            Err((index, failure)) => {
                let error = RoutingError::Input { index, failure };
                let message = error.message(inputs, vars, &routes);
                let result: RoutingResult = Err(PartialRoutingFailure { error, message, routed_nets: routes });
                assert(fails_with(result, error, task.inputs, vars@, after_inputs));
                return result;
            },
            Ok(world) => world,
        };
        let ghost middle = InputMoment { world, routes: routes@ };
        let outcome = self.route_internal_module_nets(vars, candidates, placed, config, world, &mut routes);
        let ghost settled = outcome;
        let ghost after_nets = routes@;
        assert(self.are_routed_nets(
            NetTask { vars: vars@, candidates: task.candidates, placed: task.placed, config: task.config },
            middle,
            after_nets,
            settled,
        ));
        let result: RoutingResult = match outcome {
            Err(failure) => {
                let error = RoutingError::Net { failure };
                let message = error.message(inputs, vars, &routes);
                Err(PartialRoutingFailure { error, message, routed_nets: routes })
            },
            Ok(world) => {
                let mut invalid: Option<usize> = None;
                if config.validation == RouteValidationMode::Incremental {
                    invalid = first_invalid_active_route(&self.rule, &self.settle, &world, &routes);
                }
                let result: RoutingResult = match invalid {
                    Some(route) => {
                        let error = RoutingError::Unpowered { route };
                        let message = error.message(inputs, vars, &routes);
                        Err(PartialRoutingFailure { error, message, routed_nets: routes })
                    },
                    None => Ok(routes),
                };
                assert(self.is_checked(task.config, world, after_nets, result));
                result
            },
        };
        assert(self.is_finished(task, vars@, middle, result));
        result
    }

    /// Routes a design from given routes on.
    pub fn route_module_variables_with_order_from_prefix<Q: Fn(usize) -> usize, I: Fn(&World3D) -> World3D>(
        &self,
        priority: &Q,
        finish: &I,
        topology: Option<&ResolvedPnrTopology>,
        plan: &RoutingPlan,
        candidates: &Vec<LayoutCandidate>,
        placed: &Vec<PlacedModule>,
        config: GlobalRoutingConfig,
        strategy: NetOrderStrategy,
        prefix: &Vec<RoutedNet>,
    ) -> (result: RoutingResult)
        requires
            self.valid(),
            is_prioritiser(priority),
            is_finisher(finish),
            design_fits(
                DesignTask {
                    topology: known_topology(topology),
                    inputs: plan.top_inputs@,
                    vars: plan.vars@,
                    candidates: candidates@,
                    placed: placed@,
                    config,
                    strategy,
                    prefix: prefix@,
                },
            ),
        ensures
            self.is_routed_design(
                priority,
                finish,
                DesignTask {
                    topology: known_topology(topology),
                    inputs: plan.top_inputs@,
                    vars: plan.vars@,
                    candidates: candidates@,
                    placed: placed@,
                    config,
                    strategy,
                    prefix: prefix@,
                },
                result,
            ),
    {
        let ghost task = DesignTask {
            topology: known_topology(topology),
            inputs: plan.top_inputs@,
            vars: plan.vars@,
            candidates: candidates@,
            placed: placed@,
            config,
            strategy,
            prefix: prefix@,
        };
        let start = prepare(finish, candidates, placed, prefix, Ghost(task));
        let ghost begun = prepared_view(start);
        assert(is_prepared(finish, task, begun));
        let (world, routes) = match start {
            Err(error) => {
                let none: Vec<RoutedNet> = Vec::new();
                assert(none@ =~= Seq::<RoutedNet>::empty());
                let message = error.message(&plan.top_inputs, &plan.vars, &none);
                let result: RoutingResult = Err(PartialRoutingFailure { error, message, routed_nets: none });
                assert(fails_with(result, error, task.inputs, task.vars, Seq::empty()));
                return result;
            },
            Ok(found) => found,
        };
        let ghost moment = InputMoment { world, routes: routes@ };
        let first = ordered_module_variables(&plan.vars, strategy);
        let ghost plain = first@;
        let order = prioritise(priority, topology, &plan.vars, first);
        let vars = find_left_over(topology, prefix, &plan.vars, &order);
        let completed = find_routed_names(&routes);
        proof {
            assert(is_net_order(task.vars, task.strategy, plain));
            assert(is_priority_order(priority, task.topology, task.vars, plain, order@));
            assert(self.are_left(priority, task, vars@));
            assert(are_routed_names(moment.routes, completed@));
            left_over_fits(
                NetTask { vars: plan.vars@, candidates: candidates@, placed: placed@, config },
                NetTask { vars: vars@, candidates: candidates@, placed: placed@, config },
            );
        }
        let result = self.route_prepared(
            &plan.top_inputs,
            &vars,
            candidates,
            placed,
            config,
            &completed,
            world,
            routes,
            Ghost(task),
        );
        assert(self.is_routed_on(priority, task, moment, result));
        result
    }

    /// Whether a result is another whose routes are bound to their nets.
    pub open spec fn is_bound_result(
        &self,
        topology: ResolvedPnrTopology,
        candidates: Seq<LayoutCandidate>,
        placed: Seq<PlacedModule>,
        before: RoutingResult,
        after: RoutingResult,
    ) -> bool {
        match (before, after) {
            (Ok(before), Ok(after)) => are_bound(topology, candidates, placed, before@, after@),
            (Err(before), Err(after)) => before.error == after.error && before.message@ == after.message@ && are_bound(
                topology,
                candidates,
                placed,
                before.routed_nets@,
                after.routed_nets@,
            ),
            _ => false,
        }
    }

    /// What routing the nets of a design comes to.
    pub open spec fn is_routed_topology<Q: Fn(usize) -> usize, I: Fn(&World3D) -> World3D>(
        &self,
        priority: &Q,
        finish: &I,
        topology: ResolvedPnrTopology,
        task: DesignTask,
        result: RoutingResult,
    ) -> bool {
        exists|routed: RoutingResult| #[trigger]
            self.is_routed_design(priority, finish, task, routed) && self.is_bound_result(
                topology,
                task.candidates,
                task.placed,
                routed,
                result,
            )
    }

    /// Routes the nets of a design from given routes on, and binds each route to
    /// its net.
    pub fn route_resolved_topology_with_order_from_prefix<Q: Fn(usize) -> usize, I: Fn(&World3D) -> World3D>(
        &self,
        priority: &Q,
        finish: &I,
        topology: &ResolvedPnrTopology,
        candidates: &Vec<LayoutCandidate>,
        placed: &Vec<PlacedModule>,
        config: GlobalRoutingConfig,
        strategy: NetOrderStrategy,
        prefix: &Vec<RoutedNet>,
    ) -> (result: RoutingResult)
        requires
            self.valid(),
            is_prioritiser(priority),
            is_finisher(finish),
            placement_fits(candidates@, placed@),
            topology_fits(*topology, candidates@, placed@),
        ensures
            match planned(*topology, topology.nets@.len()) {
                Err(error) => result matches Err(failure) && failure.error == (RoutingError::Plan { error })
                    && failure.message@ == plan_chars(error) && are_copies(failure.routed_nets@, prefix@),
                Ok(plan) => exists|made: RoutingPlan| #[trigger]
                    made.by_names() == plan && self.is_routed_topology(
                        priority,
                        finish,
                        *topology,
                        DesignTask {
                            topology: Some(*topology),
                            inputs: made.top_inputs@,
                            vars: made.vars@,
                            candidates: candidates@,
                            placed: placed@,
                            config,
                            strategy,
                            prefix: prefix@,
                        },
                        result,
                    ),
            },
    {
        let plan = match RoutingPlan::from_resolved(topology) {
            Err(error) => {
                let routed_nets = copy_routes(prefix);
                let message = error.message();
                return Err(PartialRoutingFailure { error: RoutingError::Plan { error }, message, routed_nets });
            },
            Ok(plan) => plan,
        };
        let ghost task = DesignTask {
            topology: Some(*topology),
            inputs: plan.top_inputs@,
            vars: plan.vars@,
            candidates: candidates@,
            placed: placed@,
            config,
            strategy,
            prefix: prefix@,
        };
        proof {
            planned_fits(*topology, candidates@, placed@, topology.nets@.len());
            made_plan_fits(plan, task);
        }
        let routed = self.route_module_variables_with_order_from_prefix(
            priority,
            finish,
            Some(topology),
            &plan,
            candidates,
            placed,
            config,
            strategy,
            prefix,
        );
        let ghost known = routed;
        assert(self.is_routed_design(priority, finish, task, known));
        let result: RoutingResult = match routed {
            Ok(routes) => Ok(bind_route_topology(topology, candidates, placed, routes)),
            Err(failure) => {
                let error = failure.error;
                let message = failure.message;
                let routed_nets = bind_route_topology(topology, candidates, placed, failure.routed_nets);
                Err(PartialRoutingFailure { error, message, routed_nets })
            },
        };
        proof {
            assert(self.is_bound_result(*topology, task.candidates, task.placed, known, result));
            assert(self.is_routed_topology(priority, finish, *topology, task, result));
            assert(plan.by_names() == planned(*topology, topology.nets@.len())->Ok_0);
        }
        result
    }
}

proof fn made_plan_fits(plan: RoutingPlan, task: DesignTask)
    requires
        plan_fits(task.candidates, task.placed, plan.by_names()),
        task.inputs == plan.top_inputs@,
        task.vars == plan.vars@,
        placement_fits(task.candidates, task.placed),
    ensures
        design_fits(task),
{
    let view = plan.by_names();
    assert forall|i: int| 0 <= i < task.inputs.len() implies input_fits(
        task.candidates,
        task.placed,
        #[trigger] task.inputs[i],
    ) by {
        let input = task.inputs[i];
        assert(view.top_inputs[i] == (input.name@, pair_views(input.targets@)));
        assert(pairs_fit(task.candidates, task.placed, view.top_inputs[i].1));
        assert forall|k: int| 0 <= k < input.targets@.len() implies ports_fit(
            task.candidates,
            task.placed,
            (#[trigger] input.targets@[k]).0@,
            input.targets@[k].1@,
        ) by {
            assert(pair_views(input.targets@)[k] == (input.targets@[k].0@, input.targets@[k].1@));
            assert(pair_fits(task.candidates, task.placed, pair_views(input.targets@)[k]));
        }
    }
    let nets = NetTask { vars: task.vars, candidates: task.candidates, placed: task.placed, config: task.config };
    assert forall|i: int| 0 <= i < nets.vars.len() implies #[trigger] var_fits(nets, i) by {
        assert(view.vars[i] == connection_view(nets.vars[i]));
        assert(pair_fits(task.candidates, task.placed, view.vars[i].0));
    }
}

proof fn left_over_fits(all: NetTask, left: NetTask)
    requires
        vars_fit(all),
        left.candidates == all.candidates,
        left.placed == all.placed,
        forall|k: int| 0 <= k < left.vars.len() ==> all.vars.contains(#[trigger] left.vars[k]),
    ensures
        vars_fit(left),
{
    assert forall|i: int| 0 <= i < left.vars.len() implies #[trigger] var_fits(left, i) by {
        assert(all.vars.contains(left.vars[i]));
        let j = choose|j: int| 0 <= j < all.vars.len() && all.vars[j] == left.vars[i];
        assert(var_fits(all, j));
    }
}

} // verus!

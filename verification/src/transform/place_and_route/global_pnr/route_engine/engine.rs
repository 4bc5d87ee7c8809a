//! Routes between two cells: first into the cells where power spreads, and where
//! that leads nowhere into those nearby.

use super::congestion::CongestionConfig;
use super::cost::RouteCostModel;
use super::goal::{goal_of, RouteGoal};
use super::route::{GlobalRoutingStrategy, RouteFailure, RoutedNet};
use super::search::{
    is_placer, is_routed, is_spreader, route_point_to_point_with_initial_queue, PlaceRequest, RouteQuestion,
};
use super::state::{
    initial_signal_strength, starting_strength, PlaceBound, PoweredRouteSource, RouteSearchState,
};
use crate::transform::place_and_route::global_pnr::dust::is_rule;
use crate::world::grid::{same_world, World3D};
use crate::world::position::Position;
use vstd::prelude::*;

verus! {

/// Whether two routes that are being extended are the same.
pub open spec fn same_state(left: RouteSearchState, right: RouteSearchState) -> bool {
    &&& same_world(left.world, right.world)
    &&& left.terminal == right.terminal
    &&& left.route@ == right.route@
    &&& left.signal_strength == right.signal_strength
    &&& left.powered_taps@ == right.powered_taps@
    &&& match (left.pending_bounds, right.pending_bounds) {
        (Some(left), Some(right)) => left@ == right@,
        (None, None) => true,
        _ => false,
    }
}

/// Whether a route has not left its source.
pub open spec fn is_fresh(world: World3D, source: Position, strength: usize, state: RouteSearchState) -> bool {
    &&& same_world(state.world, world)
    &&& state.terminal == source
    &&& state.route@ == seq![source]
    &&& state.signal_strength == strength
    &&& state.powered_taps@ == seq![PoweredRouteSource { position: source, strength }]
    &&& state.pending_bounds is None
}

/// A well-formed world has well-formed copies.
pub proof fn copies_are_wf(left: World3D, right: World3D)
    requires
        left.wf(),
        same_world(left, right),
    ensures
        right.wf(),
        forall|cell: Position| #[trigger] right.at(cell) == left.at(cell),
{
}

/// A route that has not left its source.
pub fn fresh_state(world: &World3D, source: Position, strength: usize) -> (state: RouteSearchState)
    requires
        world.wf(),
    ensures
        is_fresh(*world, source, strength, state),
        state.world.wf(),
{
    let route = vec![source];
    let powered_taps = vec![PoweredRouteSource { position: source, strength }];
    assert(route@ =~= seq![source]);
    assert(powered_taps@ =~= seq![PoweredRouteSource { position: source, strength }]);
    let copy = world.copy();
    RouteSearchState {
        world: copy,
        terminal: source,
        route,
        signal_strength: strength,
        powered_taps,
        pending_bounds: None,
    }
}

/// An equal route.
pub fn copy_state(state: &RouteSearchState) -> (copy: RouteSearchState)
    ensures
        same_state(copy, *state),
{
    let route = state.route.clone();
    let powered_taps = state.powered_taps.clone();
    assert(route@ =~= state.route@);
    assert(powered_taps@ =~= state.powered_taps@);
    let pending_bounds = match &state.pending_bounds {
        Some(bounds) => {
            let copy = bounds.clone();
            assert(copy@ =~= bounds@);
            Some(copy)
        },
        None => None,
    };
    RouteSearchState {
        world: state.world.copy(),
        terminal: state.terminal,
        route,
        signal_strength: state.signal_strength,
        powered_taps,
        pending_bounds,
    }
}

/// The same question about the cells nearby.
pub open spec fn nearby_question(question: RouteQuestion) -> RouteQuestion {
    RouteQuestion { nearby: true, ..question }
}

/// What asking for a route twice comes to: into cells where power spreads, and
/// where there is none, into cells nearby.
pub open spec fn is_routed_twice<
    F: Fn(&World3D, Position, Position) -> bool,
    C: Fn(&World3D, Position, Position) -> bool,
    B: Fn(&World3D, Position) -> Vec<PlaceBound>,
    L: Fn(&World3D, &PlaceRequest) -> Option<(World3D, Position)>,
>(
    rule: &F,
    cobble_rule: &C,
    spread: &B,
    place: &L,
    question: RouteQuestion,
    initial: RouteSearchState,
    result: Result<(RoutedNet, World3D), RouteFailure>,
) -> bool {
    let goal = goal_of(question.world, question.sink);
    exists|first: RouteSearchState, tried: Result<(RoutedNet, World3D), RouteFailure>| #[trigger]
        is_routed(rule, cobble_rule, spread, place, question, goal, first, tried) && same_state(first, initial)
            && match tried {
            Ok(_) => result == tried,
            Err(_) => is_routed(
                rule,
                cobble_rule,
                spread,
                place,
                nearby_question(question),
                goal,
                initial,
                result,
            ),
        }
}

/// Routes from the end of a route that is given.
pub fn route_point_to_point_from_initial_state_with_cost<
    F: Fn(&World3D, Position, Position) -> bool,
    C: Fn(&World3D, Position, Position) -> bool,
    B: Fn(&World3D, Position) -> Vec<PlaceBound>,
    L: Fn(&World3D, &PlaceRequest) -> Option<(World3D, Position)>,
>(
    rule: &F,
    cobble_rule: &C,
    spread: &B,
    place: &L,
    world: &World3D,
    source: Position,
    sink: Position,
    initial: RouteSearchState,
    strategy: GlobalRoutingStrategy,
    allowed: &Vec<Position>,
    cost_model: RouteCostModel,
) -> (result: Result<(RoutedNet, World3D), RouteFailure>)
    requires
        is_rule(rule),
        is_rule(cobble_rule),
        is_spreader(spread),
        is_placer(place),
        world.wf(),
        initial.world.wf(),
    ensures
        is_routed_twice(
            rule,
            cobble_rule,
            spread,
            place,
            RouteQuestion {
                world: *world,
                source,
                sink,
                nearby: false,
                strategy,
                model: cost_model,
                allowed: allowed@,
            },
            initial,
            result,
        ),
        result matches Ok((_, world)) ==> world.wf(),
{
    let goal = RouteGoal::for_sink(world, sink);
    let first = copy_state(&initial);
    let ghost question = RouteQuestion {
        world: *world,
        source,
        sink,
        nearby: false,
        strategy,
        model: cost_model,
        allowed: allowed@,
    };
    proof {
        copies_are_wf(initial.world, first.world);
    }
    let ghost started = first;
    let tried = route_point_to_point_with_initial_queue(
        rule,
        cobble_rule,
        spread,
        place,
        world,
        source,
        sink,
        goal,
        false,
        first,
        strategy,
        allowed,
        cost_model,
    );
    assert(is_routed(rule, cobble_rule, spread, place, question, goal, started, tried));
    if tried.is_ok() {
        return tried;
    }
    let result = route_point_to_point_with_initial_queue(
        rule,
        cobble_rule,
        spread,
        place,
        world,
        source,
        sink,
        goal,
        true,
        initial,
        strategy,
        allowed,
        cost_model,
    );
    assert(is_routed(rule, cobble_rule, spread, place, nearby_question(question), goal, initial, result));
    result
}

/// What asking for a route from a source comes to.
pub open spec fn is_routed_from<
    F: Fn(&World3D, Position, Position) -> bool,
    C: Fn(&World3D, Position, Position) -> bool,
    B: Fn(&World3D, Position) -> Vec<PlaceBound>,
    L: Fn(&World3D, &PlaceRequest) -> Option<(World3D, Position)>,
>(
    rule: &F,
    cobble_rule: &C,
    spread: &B,
    place: &L,
    question: RouteQuestion,
    strength: usize,
    result: Result<(RoutedNet, World3D), RouteFailure>,
) -> bool {
    exists|initial: RouteSearchState| #[trigger]
        is_fresh(question.world, question.source, strength, initial) && is_routed_twice(
            rule,
            cobble_rule,
            spread,
            place,
            question,
            initial,
            result,
        )
}

/// Routes from a source whose signal has a strength that is given, and may touch
/// signals that are given.
pub fn route_point_to_point_with_strategy_and_allowed_contacts_and_initial_strength<
    F: Fn(&World3D, Position, Position) -> bool,
    C: Fn(&World3D, Position, Position) -> bool,
    B: Fn(&World3D, Position) -> Vec<PlaceBound>,
    L: Fn(&World3D, &PlaceRequest) -> Option<(World3D, Position)>,
>(
    rule: &F,
    cobble_rule: &C,
    spread: &B,
    place: &L,
    world: &World3D,
    source: Position,
    sink: Position,
    strategy: GlobalRoutingStrategy,
    allowed: &Vec<Position>,
    initial_strength: usize,
    cost_model: RouteCostModel,
) -> (result: Result<(RoutedNet, World3D), RouteFailure>)
    requires
        is_rule(rule),
        is_rule(cobble_rule),
        is_spreader(spread),
        is_placer(place),
        world.wf(),
    ensures
        is_routed_from(
            rule,
            cobble_rule,
            spread,
            place,
            RouteQuestion {
                world: *world,
                source,
                sink,
                nearby: false,
                strategy,
                model: cost_model,
                allowed: allowed@,
            },
            initial_strength,
            result,
        ),
        result matches Ok((_, world)) ==> world.wf(),
{
    let initial = fresh_state(world, source, initial_strength);
    let ghost question = RouteQuestion {
        world: *world,
        source,
        sink,
        nearby: false,
        strategy,
        model: cost_model,
        allowed: allowed@,
    };
    assert(is_fresh(question.world, question.source, initial_strength, initial));
    route_point_to_point_from_initial_state_with_cost(
        rule,
        cobble_rule,
        spread,
        place,
        world,
        source,
        sink,
        initial,
        strategy,
        allowed,
        cost_model,
    )
}

/// Routes between two cells with a strategy and a cost model.
pub fn route_point_to_point_with_cost_model<
    F: Fn(&World3D, Position, Position) -> bool,
    C: Fn(&World3D, Position, Position) -> bool,
    B: Fn(&World3D, Position) -> Vec<PlaceBound>,
    L: Fn(&World3D, &PlaceRequest) -> Option<(World3D, Position)>,
>(
    rule: &F,
    cobble_rule: &C,
    spread: &B,
    place: &L,
    world: &World3D,
    source: Position,
    sink: Position,
    strategy: GlobalRoutingStrategy,
    cost_model: RouteCostModel,
) -> (result: Result<(RoutedNet, World3D), RouteFailure>)
    requires
        is_rule(rule),
        is_rule(cobble_rule),
        is_spreader(spread),
        is_placer(place),
        world.wf(),
    ensures
        is_routed_from(
            rule,
            cobble_rule,
            spread,
            place,
            RouteQuestion {
                world: *world,
                source,
                sink,
                nearby: false,
                strategy,
                model: cost_model,
                allowed: Seq::empty(),
            },
            starting_strength(world.at(source).kind),
            result,
        ),
        result matches Ok((_, world)) ==> world.wf(),
{
    let allowed: Vec<Position> = Vec::new();
    assert(allowed@ =~= Seq::<Position>::empty());
    let strength: usize = initial_signal_strength(world, source);
    route_point_to_point_with_strategy_and_allowed_contacts_and_initial_strength(
        rule,
        cobble_rule,
        spread,
        place,
        world,
        source,
        sink,
        strategy,
        &allowed,
        strength,
        cost_model,
    )
}

/// Routes between two cells with a strategy.
pub fn route_point_to_point_with_strategy<
    F: Fn(&World3D, Position, Position) -> bool,
    C: Fn(&World3D, Position, Position) -> bool,
    B: Fn(&World3D, Position) -> Vec<PlaceBound>,
    L: Fn(&World3D, &PlaceRequest) -> Option<(World3D, Position)>,
>(
    rule: &F,
    cobble_rule: &C,
    spread: &B,
    place: &L,
    world: &World3D,
    source: Position,
    sink: Position,
    strategy: GlobalRoutingStrategy,
) -> (result: Result<(RoutedNet, World3D), RouteFailure>)
    requires
        is_rule(rule),
        is_rule(cobble_rule),
        is_spreader(spread),
        is_placer(place),
        world.wf(),
    ensures
        is_default_route(rule, cobble_rule, spread, place, *world, source, sink, strategy, result),
        result matches Ok((_, world)) ==> world.wf(),
{
    let cost_model = RouteCostModel::default();
    route_point_to_point_with_cost_model(
        rule,
        cobble_rule,
        spread,
        place,
        world,
        source,
        sink,
        strategy,
        cost_model,
    )
}

/// What asking for a route at the default costs comes to.
pub open spec fn is_default_route<
    F: Fn(&World3D, Position, Position) -> bool,
    C: Fn(&World3D, Position, Position) -> bool,
    B: Fn(&World3D, Position) -> Vec<PlaceBound>,
    L: Fn(&World3D, &PlaceRequest) -> Option<(World3D, Position)>,
>(
    rule: &F,
    cobble_rule: &C,
    spread: &B,
    place: &L,
    world: World3D,
    source: Position,
    sink: Position,
    strategy: GlobalRoutingStrategy,
    result: Result<(RoutedNet, World3D), RouteFailure>,
) -> bool {
    is_routed_from(
        rule,
        cobble_rule,
        spread,
        place,
        RouteQuestion {
            world,
            source,
            sink,
            nearby: false,
            strategy,
            model: RouteCostModel {
                step_cost: 1,
                turn_cost: 0,
                repeater_cost: 0,
                low_strength_penalty: 4,
                congestion: CongestionConfig { present_penalty: 0, history_penalty: 0 },
            },
            allowed: Seq::empty(),
        },
        starting_strength(world.at(source).kind),
        result,
    )
}

/// Routes between two cells, the oldest route first.
pub fn route_point_to_point<
    F: Fn(&World3D, Position, Position) -> bool,
    C: Fn(&World3D, Position, Position) -> bool,
    B: Fn(&World3D, Position) -> Vec<PlaceBound>,
    L: Fn(&World3D, &PlaceRequest) -> Option<(World3D, Position)>,
>(
    rule: &F,
    cobble_rule: &C,
    spread: &B,
    place: &L,
    world: &World3D,
    source: Position,
    sink: Position,
) -> (result: Result<(RoutedNet, World3D), RouteFailure>)
    requires
        is_rule(rule),
        is_rule(cobble_rule),
        is_spreader(spread),
        is_placer(place),
        world.wf(),
    ensures
        is_default_route(
            rule,
            cobble_rule,
            spread,
            place,
            *world,
            source,
            sink,
            GlobalRoutingStrategy::BreadthFirst,
            result,
        ),
        result matches Ok((_, world)) ==> world.wf(),
{
    route_point_to_point_with_strategy(
        rule,
        cobble_rule,
        spread,
        place,
        world,
        source,
        sink,
        GlobalRoutingStrategy::BreadthFirst,
    )
}

} // verus!

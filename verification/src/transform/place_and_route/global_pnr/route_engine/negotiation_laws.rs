//! Routing the same nets again gives the same routes.

use super::congestion::CongestionMap;
use super::cost::RouteCostModel;
use super::negotiation::{
    all_blocks, are_copies, are_renegotiations, are_steps, as_options, attempt_follows, comes_of_rounds, is_accepted,
    is_assembled, is_attempt, is_tried, is_used, may_reroute, net_follows_at, painted_at, renegotiation_follows_at,
    routes_of, support_holds, supports_hold, Moment, NegotiationOutcome,
};
use super::pathfinder::{
    are_rounds, before_round, crosses_overused, is_answer, is_clean, is_map_of, is_negotiated, is_round, is_routed_at,
    lists_round, meanwhile, model_of, past_overuse, ripped_up, round_follows, rounds_of, uses, PathfinderConfig,
    PathfinderNet, PathfinderResult, PathfinderRoute,
};
use super::route::{same_course, same_identity, GlobalRoutingStrategy, RoutedNet};
use crate::world::grid::{block_in_listed, lists_cell, World3D};
use crate::world::position::{is_sorted, Position};
use vstd::prelude::*;

verus! {

/// Whether two answers of a router are the same.
pub open spec fn alike(left: Option<RoutedNet>, right: Option<RoutedNet>) -> bool {
    match (left, right) {
        (Some(left), Some(right)) => same_course(left, right) && same_identity(left, right),
        (None, None) => true,
        _ => false,
    }
}

/// Whether two lists of answers are the same.
pub open spec fn all_alike(left: Seq<Option<RoutedNet>>, right: Seq<Option<RoutedNet>>) -> bool {
    &&& left.len() == right.len()
    &&& forall|i: int| 0 <= i < left.len() ==> alike(#[trigger] left[i], right[i])
}

/// Whether two maps count the same.
pub open spec fn count_alike(left: CongestionMap, right: CongestionMap) -> bool {
    forall|cell: Position| #[trigger]
        left.usage_at(cell) == right.usage_at(cell) && left.history_at(cell) == right.history_at(cell)
}

/// Whether a router gives the same answer to the same question.
pub open spec fn answers_alike<
    R: Fn(&World3D, Position, Position, GlobalRoutingStrategy, RouteCostModel, &CongestionMap) -> Option<RoutedNet>,
>(route: &R) -> bool {
    forall|
        world: World3D,
        source: Position,
        sink: Position,
        strategy: GlobalRoutingStrategy,
        model: RouteCostModel,
        left_map: CongestionMap,
        right_map: CongestionMap,
        left: Option<RoutedNet>,
        right: Option<RoutedNet>,
    |
        #![trigger call_ensures(*route, (&world, source, sink, strategy, model, &left_map), left), call_ensures(*route, (&world, source, sink, strategy, model, &right_map), right)]
        call_ensures(*route, (&world, source, sink, strategy, model, &left_map), left) && call_ensures(
            *route,
            (&world, source, sink, strategy, model, &right_map),
            right,
        ) && count_alike(left_map, right_map) ==> alike(left, right)
}

proof fn uses_alike(left: Seq<Option<RoutedNet>>, right: Seq<Option<RoutedNet>>, cell: Position, count: nat)
    requires
        all_alike(left, right),
        count <= left.len(),
    ensures
        uses(left, cell, count) == uses(right, cell, count),
    decreases count,
{
    if count > 0 {
        uses_alike(left, right, cell, (count - 1) as nat);
        assert(alike(left[count - 1], right[count - 1]));
    }
}

spec fn rounds_alike(left: Seq<Seq<Option<RoutedNet>>>, right: Seq<Seq<Option<RoutedNet>>>, count: int) -> bool {
    forall|k: int| 0 <= k < count ==> all_alike(#[trigger] left[k], right[k])
}

proof fn past_alike(
    left: Seq<Seq<Option<RoutedNet>>>,
    right: Seq<Seq<Option<RoutedNet>>>,
    cell: Position,
    count: nat,
)
    requires
        rounds_alike(left, right, count as int),
    ensures
        past_overuse(left, cell, count) == past_overuse(right, cell, count),
    decreases count,
{
    if count > 0 {
        past_alike(left, right, cell, (count - 1) as nat);
        assert(all_alike(left[count - 1], right[count - 1]));
        uses_alike(left[count - 1], right[count - 1], cell, left[count - 1].len());
    }
}

/// The same question, beside the same routes and after the same rounds, has the
/// same answer.
proof fn answer_is_unique<
    R: Fn(&World3D, Position, Position, GlobalRoutingStrategy, RouteCostModel, &CongestionMap) -> Option<RoutedNet>,
>(
    route: &R,
    world: World3D,
    source: Position,
    sink: Position,
    config: PathfinderConfig,
    left_others: Seq<Option<RoutedNet>>,
    right_others: Seq<Option<RoutedNet>>,
    left_rounds: Seq<Seq<Option<RoutedNet>>>,
    right_rounds: Seq<Seq<Option<RoutedNet>>>,
    left: Option<RoutedNet>,
    right: Option<RoutedNet>,
)
    requires
        answers_alike(route),
        all_alike(left_others, right_others),
        left_rounds.len() == right_rounds.len(),
        rounds_alike(left_rounds, right_rounds, left_rounds.len() as int),
        is_answer(route, world, source, sink, config, left_others, left_rounds, left),
        is_answer(route, world, source, sink, config, right_others, right_rounds, right),
    ensures
        alike(left, right),
{
    let left_map = choose|map: CongestionMap| #[trigger]
        call_ensures(*route, (&world, source, sink, config.strategy, model_of(config), &map), left) && is_map_of(
            map,
            left_others,
            left_rounds,
        );
    let right_map = choose|map: CongestionMap| #[trigger]
        call_ensures(*route, (&world, source, sink, config.strategy, model_of(config), &map), right) && is_map_of(
            map,
            right_others,
            right_rounds,
        );
    assert forall|cell: Position| #[trigger]
        left_map.usage_at(cell) == right_map.usage_at(cell) && left_map.history_at(cell) == right_map.history_at(
            cell,
        ) by {
        uses_alike(left_others, right_others, cell, left_others.len());
        past_alike(left_rounds, right_rounds, cell, left_rounds.len());
        assert(right_map.usage_at(cell) == uses(right_others, cell, right_others.len()));
        assert(right_map.history_at(cell) == past_overuse(right_rounds, cell, right_rounds.len()));
        assert(left_map.history_at(cell) == past_overuse(left_rounds, cell, left_rounds.len()));
    }
}

proof fn ripping_alike(left: Seq<Option<RoutedNet>>, right: Seq<Option<RoutedNet>>)
    requires
        all_alike(left, right),
    ensures
        all_alike(ripped_up(left), ripped_up(right)),
        is_clean(left) == is_clean(right),
{
    assert forall|cell: Position| #[trigger] uses(left, cell, left.len()) == uses(right, cell, right.len()) by {
        uses_alike(left, right, cell, left.len());
    }
    assert forall|i: int| 0 <= i < left.len() implies alike(#[trigger] ripped_up(left)[i], ripped_up(right)[i]) by {
        assert(alike(left[i], right[i]));
        if left[i] is Some {
            let path = left[i]->0.path@;
            assert(crosses_overused(left, path) == crosses_overused(right, path)) by {
                if crosses_overused(left, path) {
                    let k = choose|k: int| 0 <= k < path.len() && uses(left, #[trigger] path[k], left.len()) > 1;
                    assert(uses(right, path[k], right.len()) > 1);
                }
                if crosses_overused(right, path) {
                    let k = choose|k: int| 0 <= k < path.len() && uses(right, #[trigger] path[k], right.len()) > 1;
                    assert(uses(left, path[k], left.len()) > 1);
                }
            }
        }
    }
    if is_clean(left) {
        assert forall|cell: Position| #[trigger] uses(right, cell, right.len()) <= 1 by {
            assert(uses(left, cell, left.len()) <= 1);
        }
    }
    if is_clean(right) {
        assert forall|cell: Position| #[trigger] uses(left, cell, left.len()) <= 1 by {
            assert(uses(right, cell, right.len()) <= 1);
        }
    }
}

/// A round that begins with the same routes ends with the same.
proof fn round_is_unique<
    R: Fn(&World3D, Position, Position, GlobalRoutingStrategy, RouteCostModel, &CongestionMap) -> Option<RoutedNet>,
>(
    route: &R,
    world: World3D,
    nets: Seq<PathfinderNet>,
    config: PathfinderConfig,
    left_rounds: Seq<Seq<Option<RoutedNet>>>,
    right_rounds: Seq<Seq<Option<RoutedNet>>>,
    left_before: Seq<Option<RoutedNet>>,
    right_before: Seq<Option<RoutedNet>>,
    left: Seq<Option<RoutedNet>>,
    right: Seq<Option<RoutedNet>>,
    count: int,
)
    requires
        answers_alike(route),
        left_rounds.len() == right_rounds.len(),
        rounds_alike(left_rounds, right_rounds, left_rounds.len() as int),
        all_alike(left_before, right_before),
        left_before.len() == nets.len(),
        is_round(route, world, nets, config, left_rounds, left_before, left),
        is_round(route, world, nets, config, right_rounds, right_before, right),
        0 <= count <= nets.len(),
    ensures
        forall|i: int| 0 <= i < count ==> alike(#[trigger] left[i], right[i]),
    decreases count,
{
    if count > 0 {
        let last = count - 1;
        round_is_unique(
            route,
            world,
            nets,
            config,
            left_rounds,
            right_rounds,
            left_before,
            right_before,
            left,
            right,
            last,
        );
        assert(is_routed_at(route, world, nets, config, left_rounds, left_before, left, last));
        assert(is_routed_at(route, world, nets, config, right_rounds, right_before, right, last));
        assert(alike(left_before[last], right_before[last]));
        if left_before[last] is None {
            let left_others = meanwhile(left_before, left, last);
            let right_others = meanwhile(right_before, right, last);
            assert forall|i: int| 0 <= i < left_others.len() implies alike(#[trigger] left_others[i], right_others[i]) by {
                if i < last {
                    assert(alike(left[i], right[i]));
                } else {
                    assert(alike(left_before[i], right_before[i]));
                }
            }
            answer_is_unique(
                route,
                world,
                nets[last].source,
                nets[last].sink,
                config,
                left_others,
                right_others,
                left_rounds,
                right_rounds,
                left[last],
                right[last],
            );
        }
    }
}

proof fn rounds_are_unique<
    R: Fn(&World3D, Position, Position, GlobalRoutingStrategy, RouteCostModel, &CongestionMap) -> Option<RoutedNet>,
>(
    route: &R,
    world: World3D,
    nets: Seq<PathfinderNet>,
    config: PathfinderConfig,
    left: Seq<Seq<Option<RoutedNet>>>,
    right: Seq<Seq<Option<RoutedNet>>>,
    count: int,
)
    requires
        answers_alike(route),
        are_rounds(route, world, nets, config, left),
        are_rounds(route, world, nets, config, right),
        0 <= count <= left.len(),
        count <= right.len(),
    ensures
        rounds_alike(left, right, count),
    decreases count,
{
    if count > 0 {
        let last = count - 1;
        rounds_are_unique(route, world, nets, config, left, right, last);
        assert(round_follows(route, world, nets, config, left, last));
        assert(round_follows(route, world, nets, config, right, last));
        let left_before = before_round(nets.len(), left, last);
        let right_before = before_round(nets.len(), right, last);
        if last > 0 {
            assert(all_alike(left[last - 1], right[last - 1]));
            assert(round_follows(route, world, nets, config, left, last - 1));
            ripping_alike(left[last - 1], right[last - 1]);
        }
        assert forall|k: int| 0 <= k < last implies all_alike(#[trigger] left.take(last)[k], right.take(last)[k]) by {
            assert(all_alike(left[k], right[k]));
        }
        round_is_unique(
            route,
            world,
            nets,
            config,
            left.take(last),
            right.take(last),
            left_before,
            right_before,
            left[last],
            right[last],
            nets.len() as int,
        );
    }
}

/// The routes of a result, one for each net that has one.
pub open spec fn found_routes(result: PathfinderResult) -> Seq<Option<RoutedNet>> {
    result.routes@.map_values(|own: PathfinderRoute| own.route)
}

/// Routing nets gives an answer for each of them, in order, after one round at least
/// and no more than are allowed. It tells in order which cells the routes use more
/// than once, and ends early only where there are none.
pub proof fn negotiation_tells_what_is_overused<
    R: Fn(&World3D, Position, Position, GlobalRoutingStrategy, RouteCostModel, &CongestionMap) -> Option<RoutedNet>,
>(route: &R, world: World3D, nets: Seq<PathfinderNet>, config: PathfinderConfig, result: PathfinderResult)
    requires
        is_negotiated(route, world, nets, config, result),
    ensures
        result.routes@.len() == nets.len(),
        forall|i: int| 0 <= i < nets.len() ==> (#[trigger] result.routes@[i]).net == i,
        1 <= result.iterations <= rounds_of(config),
        is_sorted(result.overused_cells@),
        forall|cell: Position| #[trigger]
            result.overused_cells@.contains(cell) <==> uses(found_routes(result), cell, nets.len()) > 1,
        result.iterations < rounds_of(config) ==> result.overused_cells@.len() == 0,
{
    let rounds = choose|rounds: Seq<Seq<Option<RoutedNet>>>|
        {
            &&& #[trigger] are_rounds(route, world, nets, config, rounds)
            &&& 1 <= rounds.len() <= rounds_of(config)
            &&& rounds.len() == result.iterations
            &&& rounds.len() == rounds_of(config) || is_clean(rounds.last())
            &&& lists_round(rounds.last(), result)
        };
    assert(round_follows(route, world, nets, config, rounds, rounds.len() - 1));
    assert forall|i: int| 0 <= i < nets.len() implies (#[trigger] result.routes@[i]).net == i && result.routes@[i].route
        == rounds.last()[i] by {
    }
    assert(found_routes(result) =~= rounds.last());
    if result.iterations < rounds_of(config) && result.overused_cells@.len() > 0 {
        let cell = result.overused_cells@[0];
        assert(result.overused_cells@.contains(cell));
        assert(uses(rounds.last(), cell, rounds.last().len()) <= 1);
    }
}

/// Routing the same nets twice, with a router that gives the same answer to the
/// same question, takes as many rounds and gives the same routes, with the same
/// cells used more than once.
pub proof fn negotiation_is_deterministic<
    R: Fn(&World3D, Position, Position, GlobalRoutingStrategy, RouteCostModel, &CongestionMap) -> Option<RoutedNet>,
>(
    route: &R,
    world: World3D,
    nets: Seq<PathfinderNet>,
    config: PathfinderConfig,
    left: PathfinderResult,
    right: PathfinderResult,
)
    requires
        answers_alike(route),
        is_negotiated(route, world, nets, config, left),
        is_negotiated(route, world, nets, config, right),
    ensures
        left.iterations == right.iterations,
        left.routes@.len() == right.routes@.len(),
        forall|i: int|
            0 <= i < left.routes@.len() ==> (#[trigger] left.routes@[i]).net == right.routes@[i].net && alike(
                left.routes@[i].route,
                right.routes@[i].route,
            ),
        forall|cell: Position| #[trigger] left.overused_cells@.contains(cell) == right.overused_cells@.contains(cell),
{
    let first = choose|rounds: Seq<Seq<Option<RoutedNet>>>|
        {
            &&& #[trigger] are_rounds(route, world, nets, config, rounds)
            &&& 1 <= rounds.len() <= rounds_of(config)
            &&& rounds.len() == left.iterations
            &&& rounds.len() == rounds_of(config) || is_clean(rounds.last())
            &&& lists_round(rounds.last(), left)
        };
    let second = choose|rounds: Seq<Seq<Option<RoutedNet>>>|
        {
            &&& #[trigger] are_rounds(route, world, nets, config, rounds)
            &&& 1 <= rounds.len() <= rounds_of(config)
            &&& rounds.len() == right.iterations
            &&& rounds.len() == rounds_of(config) || is_clean(rounds.last())
            &&& lists_round(rounds.last(), right)
        };
    let shorter = if first.len() <= second.len() {
        first.len() as int
    } else {
        second.len() as int
    };
    rounds_are_unique(route, world, nets, config, first, second, shorter);
    assert(all_alike(first[shorter - 1], second[shorter - 1]));
    ripping_alike(first[shorter - 1], second[shorter - 1]);
    assert(round_follows(route, world, nets, config, first, shorter - 1));
    assert(round_follows(route, world, nets, config, second, shorter - 1));
    assert(first.len() == second.len());
    assert forall|i: int| 0 <= i < left.routes@.len() implies (#[trigger] left.routes@[i]).net == right.routes@[i].net
        && alike(left.routes@[i].route, right.routes@[i].route) by {
        assert(right.routes@[i].net == i);
        assert(alike(first.last()[i], second.last()[i]));
    }
    assert forall|cell: Position| #[trigger] left.overused_cells@.contains(cell) == right.overused_cells@.contains(
        cell,
    ) by {
        uses_alike(first.last(), second.last(), cell, first.last().len());
    }
}

// ---------------------------------------------------------------------------
// Routing anew
// ---------------------------------------------------------------------------
/// Whether two worlds have the same block in every cell.
pub open spec fn look_alike(left: World3D, right: World3D) -> bool {
    &&& left.wf()
    &&& right.wf()
    &&& left.size == right.size
    &&& forall|cell: Position| #[trigger] left.at(cell) == right.at(cell)
}

/// Whether the same route in the same world is judged the same.
pub open spec fn judges_alike<
    F: Fn(&World3D, Position, Position) -> bool,
    S: Fn(&World3D, Position, Option<bool>, &Vec<Position>) -> Option<Vec<bool>>,
    I: Fn(&World3D) -> World3D,
>(rule: &F, settle: &S, finish: &I) -> bool {
    forall|
        left_world: World3D,
        right_world: World3D,
        left: RoutedNet,
        right: RoutedNet,
        left_taken: bool,
        right_taken: bool,
    |
        #![trigger is_accepted(rule, settle, finish, left_world, left, left_taken), is_accepted(rule, settle, finish, right_world, right, right_taken)]
        is_accepted(rule, settle, finish, left_world, left, left_taken) && is_accepted(
            rule,
            settle,
            finish,
            right_world,
            right,
            right_taken,
        ) && look_alike(left_world, right_world) && same_course(left, right) && same_identity(left, right)
            ==> left_taken == right_taken
}

/// Whether two moments are the same.
pub open spec fn moments_alike(left: Moment, right: Moment) -> bool {
    are_copies(left.routes, right.routes) && left.rerouted == right.rerouted
}

proof fn options_alike(left: Seq<RoutedNet>, right: Seq<RoutedNet>)
    requires
        are_copies(left, right),
    ensures
        all_alike(as_options(left), as_options(right)),
{
    assert forall|i: int| 0 <= i < left.len() implies alike(#[trigger] as_options(left)[i], as_options(right)[i]) by {
        assert(same_course(left[i], right[i]));
    }
}

proof fn blocks_alike(left: Seq<RoutedNet>, right: Seq<RoutedNet>, count: nat)
    requires
        are_copies(left, right),
        count <= left.len(),
    ensures
        all_blocks(left, count) == all_blocks(right, count),
    decreases count,
{
    if count > 0 {
        blocks_alike(left, right, (count - 1) as nat);
        assert(same_course(left[count - 1], right[count - 1]));
    }
}

proof fn supports_carry_over(left: World3D, right: World3D)
    requires
        look_alike(left, right),
        supports_hold(left),
    ensures
        supports_hold(right),
{
    assert forall|i: int| 0 <= i < right.listed().len() implies #[trigger] support_holds(right, i) by {
        let placed = right.listed()[i];
        right.listed_at(i);
        assert(left.at(placed.0) == placed.1);
        if placed.1.kind is Redstone {
            assert(lists_cell(left.listed(), placed.0));
            block_in_listed(left.listed(), placed.0);
            let j = choose|j: int| 0 <= j < left.listed().len() && left.listed()[j] == placed;
            assert(support_holds(left, j));
        }
    }
}

proof fn tried_is_unique<
    F: Fn(&World3D, Position, Position) -> bool,
    S: Fn(&World3D, Position, Option<bool>, &Vec<Position>) -> Option<Vec<bool>>,
    I: Fn(&World3D) -> World3D,
>(
    rule: &F,
    settle: &S,
    finish: &I,
    base: World3D,
    left_before: Seq<RoutedNet>,
    right_before: Seq<RoutedNet>,
    index: int,
    left_found: RoutedNet,
    right_found: RoutedNet,
    left_after: Seq<RoutedNet>,
    right_after: Seq<RoutedNet>,
    left_taken: bool,
    right_taken: bool,
)
    requires
        judges_alike(rule, settle, finish),
        are_copies(left_before, right_before),
        0 <= index < left_before.len(),
        same_course(left_found, right_found),
        is_tried(rule, settle, finish, base, left_before, index, left_found, left_after, left_taken),
        is_tried(rule, settle, finish, base, right_before, index, right_found, right_after, right_taken),
    ensures
        left_taken == right_taken,
        are_copies(left_after, right_after),
{
    let (left, left_raw) = choose|fresh: RoutedNet, raw: World3D|
        {
            &&& same_course(fresh, left_found)
            &&& same_identity(fresh, left_before[index])
            &&& #[trigger] is_assembled(base, left_before.update(index, fresh), raw)
            &&& if supports_hold(raw) {
                is_accepted(rule, settle, finish, raw, fresh, left_taken)
            } else {
                !left_taken
            }
            &&& left_after == (if left_taken {
                left_before.update(index, fresh)
            } else {
                left_before
            })
        };
    let (right, right_raw) = choose|fresh: RoutedNet, raw: World3D|
        {
            &&& same_course(fresh, right_found)
            &&& same_identity(fresh, right_before[index])
            &&& #[trigger] is_assembled(base, right_before.update(index, fresh), raw)
            &&& if supports_hold(raw) {
                is_accepted(rule, settle, finish, raw, fresh, right_taken)
            } else {
                !right_taken
            }
            &&& right_after == (if right_taken {
                right_before.update(index, fresh)
            } else {
                right_before
            })
        };
    assert(same_course(left_before[index], right_before[index]));
    let left_routes = left_before.update(index, left);
    let right_routes = right_before.update(index, right);
    assert forall|i: int| 0 <= i < left_routes.len() implies same_course(#[trigger] left_routes[i], right_routes[i])
        && same_identity(left_routes[i], right_routes[i]) by {
        assert(same_course(left_before[i], right_before[i]));
    }
    blocks_alike(left_routes, right_routes, left_routes.len());
    assert forall|cell: Position| #[trigger] left_raw.at(cell) == right_raw.at(cell) by {
        let blocks = all_blocks(right_routes, right_routes.len());
        assert(right_raw.at(cell) == painted_at(base, blocks, cell, blocks.len()));
    }
    assert(look_alike(left_raw, right_raw));
    assert(look_alike(right_raw, left_raw)) by {
        assert forall|cell: Position| #[trigger] right_raw.at(cell) == left_raw.at(cell) by {
            assert(left_raw.at(cell) == right_raw.at(cell));
        }
    }
    if supports_hold(left_raw) {
        supports_carry_over(left_raw, right_raw);
    }
    if supports_hold(right_raw) {
        supports_carry_over(right_raw, left_raw);
    }
    assert(left_taken == right_taken);
}

proof fn attempt_is_unique<
    F: Fn(&World3D, Position, Position) -> bool,
    S: Fn(&World3D, Position, Option<bool>, &Vec<Position>) -> Option<Vec<bool>>,
    R: Fn(&World3D, Position, Position, GlobalRoutingStrategy, RouteCostModel, &CongestionMap) -> Option<RoutedNet>,
    I: Fn(&World3D) -> World3D,
>(
    rule: &F,
    settle: &S,
    route: &R,
    finish: &I,
    base: World3D,
    config: PathfinderConfig,
    left_rounds: Seq<Seq<Option<RoutedNet>>>,
    right_rounds: Seq<Seq<Option<RoutedNet>>>,
    index: int,
    left_before: Moment,
    right_before: Moment,
    left: Moment,
    right: Moment,
)
    requires
        answers_alike(route),
        judges_alike(rule, settle, finish),
        left_rounds.len() == right_rounds.len(),
        rounds_alike(left_rounds, right_rounds, left_rounds.len() as int),
        moments_alike(left_before, right_before),
        0 <= index < left_before.routes.len(),
        attempt_follows(rule, settle, route, finish, base, config, left_rounds, index, left_before, left),
        attempt_follows(rule, settle, route, finish, base, config, right_rounds, index, right_before, right),
    ensures
        moments_alike(left, right),
{
    let left_taken = choose|taken: bool| #[trigger]
        is_attempt(
            rule,
            settle,
            route,
            finish,
            base,
            config,
            left_rounds,
            left_before.routes,
            index,
            left.routes,
            taken,
        ) && left.rerouted == left_before.rerouted + (if taken {
            1int
        } else {
            0
        });
    let right_taken = choose|taken: bool| #[trigger]
        is_attempt(
            rule,
            settle,
            route,
            finish,
            base,
            config,
            right_rounds,
            right_before.routes,
            index,
            right.routes,
            taken,
        ) && right.rerouted == right_before.rerouted + (if taken {
            1int
        } else {
            0
        });
    let first = left_before.routes;
    let second = right_before.routes;
    let left_answer = choose|answer: Option<RoutedNet>| #[trigger]
        is_answer(
            route,
            base,
            first[index].source,
            first[index].sink,
            config,
            as_options(first).update(index, None),
            left_rounds,
            answer,
        ) && is_used(rule, settle, finish, base, first, index, answer, left.routes, left_taken);
    let right_answer = choose|answer: Option<RoutedNet>| #[trigger]
        is_answer(
            route,
            base,
            second[index].source,
            second[index].sink,
            config,
            as_options(second).update(index, None),
            right_rounds,
            answer,
        ) && is_used(rule, settle, finish, base, second, index, answer, right.routes, right_taken);
    options_alike(first, second);
    assert(same_course(first[index], second[index]));
    let left_others = as_options(first).update(index, None);
    let right_others = as_options(second).update(index, None);
    assert forall|i: int| 0 <= i < left_others.len() implies alike(#[trigger] left_others[i], right_others[i]) by {
        assert(alike(as_options(first)[i], as_options(second)[i]));
    }
    answer_is_unique(
        route,
        base,
        first[index].source,
        first[index].sink,
        config,
        left_others,
        right_others,
        left_rounds,
        right_rounds,
        left_answer,
        right_answer,
    );
    match (left_answer, right_answer) {
        (Some(left_found), Some(right_found)) => {
            tried_is_unique(
                rule,
                settle,
                finish,
                base,
                first,
                second,
                index,
                left_found,
                right_found,
                left.routes,
                right.routes,
                left_taken,
                right_taken,
            );
        },
        _ => {},
    }
}

proof fn steps_are_unique<
    F: Fn(&World3D, Position, Position) -> bool,
    S: Fn(&World3D, Position, Option<bool>, &Vec<Position>) -> Option<Vec<bool>>,
    R: Fn(&World3D, Position, Position, GlobalRoutingStrategy, RouteCostModel, &CongestionMap) -> Option<RoutedNet>,
    I: Fn(&World3D) -> World3D,
>(
    rule: &F,
    settle: &S,
    route: &R,
    finish: &I,
    base: World3D,
    config: PathfinderConfig,
    left_rounds: Seq<Seq<Option<RoutedNet>>>,
    right_rounds: Seq<Seq<Option<RoutedNet>>>,
    left: Seq<Moment>,
    right: Seq<Moment>,
    nets: int,
    count: int,
)
    requires
        answers_alike(route),
        judges_alike(rule, settle, finish),
        left_rounds.len() == right_rounds.len() > 0,
        rounds_alike(left_rounds, right_rounds, left_rounds.len() as int),
        are_steps(rule, settle, route, finish, base, config, left_rounds, left),
        are_steps(rule, settle, route, finish, base, config, right_rounds, right),
        moments_alike(left[0], right[0]),
        left[0].routes.len() == nets,
        left.len() == nets + 1,
        right.len() == nets + 1,
        0 <= count <= nets,
    ensures
        moments_alike(left[count], right[count]),
        left[count].routes.len() == nets,
    decreases count,
{
    if count > 0 {
        let k = count - 1;
        steps_are_unique(
            rule,
            settle,
            route,
            finish,
            base,
            config,
            left_rounds,
            right_rounds,
            left,
            right,
            nets,
            k,
        );
        assert(net_follows_at(rule, settle, route, finish, base, config, left_rounds, left, k));
        assert(net_follows_at(rule, settle, route, finish, base, config, right_rounds, right, k));
        let net = left[k].routes[k];
        let other = right[k].routes[k];
        assert(same_course(net, other));
        assert(all_alike(left_rounds[left_rounds.len() - 1], right_rounds[left_rounds.len() - 1]));
        crossing_alike(left_rounds.last(), right_rounds.last(), net.path@);
        if may_reroute(net) && crosses_overused(left_rounds.last(), net.path@) {
            attempt_is_unique(
                rule,
                settle,
                route,
                finish,
                base,
                config,
                left_rounds,
                right_rounds,
                k,
                left[k],
                right[k],
                left[k + 1],
                right[k + 1],
            );
            attempt_keeps_count(
                rule,
                settle,
                route,
                finish,
                base,
                config,
                left_rounds,
                k,
                left[k],
                left[k + 1],
            );
        }
    }
}

proof fn attempt_keeps_count<
    F: Fn(&World3D, Position, Position) -> bool,
    S: Fn(&World3D, Position, Option<bool>, &Vec<Position>) -> Option<Vec<bool>>,
    R: Fn(&World3D, Position, Position, GlobalRoutingStrategy, RouteCostModel, &CongestionMap) -> Option<RoutedNet>,
    I: Fn(&World3D) -> World3D,
>(
    rule: &F,
    settle: &S,
    route: &R,
    finish: &I,
    base: World3D,
    config: PathfinderConfig,
    rounds: Seq<Seq<Option<RoutedNet>>>,
    index: int,
    before: Moment,
    after: Moment,
)
    requires
        0 <= index < before.routes.len(),
        attempt_follows(rule, settle, route, finish, base, config, rounds, index, before, after),
    ensures
        after.routes.len() == before.routes.len(),
{
}

proof fn crossing_alike(left: Seq<Option<RoutedNet>>, right: Seq<Option<RoutedNet>>, path: Seq<Position>)
    requires
        all_alike(left, right),
    ensures
        crosses_overused(left, path) == crosses_overused(right, path),
{
    if crosses_overused(left, path) {
        let k = choose|k: int| 0 <= k < path.len() && uses(left, #[trigger] path[k], left.len()) > 1;
        uses_alike(left, right, path[k], left.len());
        assert(uses(right, path[k], right.len()) > 1);
    }
    if crosses_overused(right, path) {
        let k = choose|k: int| 0 <= k < path.len() && uses(right, #[trigger] path[k], right.len()) > 1;
        uses_alike(left, right, path[k], left.len());
        assert(uses(left, path[k], left.len()) > 1);
    }
}

proof fn moments_are_unique<
    F: Fn(&World3D, Position, Position) -> bool,
    S: Fn(&World3D, Position, Option<bool>, &Vec<Position>) -> Option<Vec<bool>>,
    R: Fn(&World3D, Position, Position, GlobalRoutingStrategy, RouteCostModel, &CongestionMap) -> Option<RoutedNet>,
    I: Fn(&World3D) -> World3D,
>(
    rule: &F,
    settle: &S,
    route: &R,
    finish: &I,
    base: World3D,
    config: PathfinderConfig,
    left: Seq<Moment>,
    right: Seq<Moment>,
    count: int,
)
    requires
        answers_alike(route),
        judges_alike(rule, settle, finish),
        are_renegotiations(rule, settle, route, finish, base, config, left),
        are_renegotiations(rule, settle, route, finish, base, config, right),
        0 < left.len(),
        0 < right.len(),
        moments_alike(left[0], right[0]),
        0 <= count < left.len(),
        count < right.len(),
    ensures
        forall|k: int| 0 <= k <= count ==> moments_alike(#[trigger] left[k], right[k]),
    decreases count,
{
    if count > 0 {
        let k = count - 1;
        moments_are_unique(rule, settle, route, finish, base, config, left, right, k);
        assert(renegotiation_follows_at(rule, settle, route, finish, base, config, left, k));
        assert(renegotiation_follows_at(rule, settle, route, finish, base, config, right, k));
        let left_rounds = routes_of(left.take(k + 1));
        let right_rounds = routes_of(right.take(k + 1));
        assert forall|i: int| 0 <= i < left_rounds.len() implies all_alike(
            #[trigger] left_rounds[i],
            right_rounds[i],
        ) by {
            assert(moments_alike(left[i], right[i]));
            options_alike(left[i].routes, right[i].routes);
        }
        let left_steps = choose|steps: Seq<Moment>|
            {
                &&& #[trigger] are_steps(rule, settle, route, finish, base, config, left_rounds, steps)
                &&& steps.len() == left[k].routes.len() + 1
                &&& steps[0] == left[k]
                &&& steps.last() == left[k + 1]
            };
        let right_steps = choose|steps: Seq<Moment>|
            {
                &&& #[trigger] are_steps(rule, settle, route, finish, base, config, right_rounds, steps)
                &&& steps.len() == right[k].routes.len() + 1
                &&& steps[0] == right[k]
                &&& steps.last() == right[k + 1]
            };
        assert(moments_alike(left[k], right[k]));
        let nets = left[k].routes.len() as int;
        steps_are_unique(
            rule,
            settle,
            route,
            finish,
            base,
            config,
            left_rounds,
            right_rounds,
            left_steps,
            right_steps,
            nets,
            nets,
        );
    }
}

/// Routing the same routes anew twice, where the router gives the same answer to
/// the same question and the same route in the same world is judged the same,
/// gives the same routes, as many of them new.
pub proof fn renegotiation_is_deterministic<
    F: Fn(&World3D, Position, Position) -> bool,
    S: Fn(&World3D, Position, Option<bool>, &Vec<Position>) -> Option<Vec<bool>>,
    R: Fn(&World3D, Position, Position, GlobalRoutingStrategy, RouteCostModel, &CongestionMap) -> Option<RoutedNet>,
    I: Fn(&World3D) -> World3D,
>(
    rule: &F,
    settle: &S,
    route: &R,
    finish: &I,
    base: World3D,
    config: PathfinderConfig,
    routes: Seq<RoutedNet>,
    left: NegotiationOutcome,
    right: NegotiationOutcome,
)
    requires
        answers_alike(route),
        judges_alike(rule, settle, finish),
        comes_of_rounds(rule, settle, route, finish, base, config, routes, left),
        comes_of_rounds(rule, settle, route, finish, base, config, routes, right),
    ensures
        are_copies(left.routes@, right.routes@),
        left.rerouted == right.rerouted,
{
    let first = choose|moments: Seq<Moment>|
        {
            &&& #[trigger] are_renegotiations(rule, settle, route, finish, base, config, moments)
            &&& 1 <= moments.len() <= rounds_of(config) + 1
            &&& are_copies(moments[0].routes, routes)
            &&& moments[0].rerouted == 0
            &&& moments.len() == rounds_of(config) + 1 || is_clean(as_options(moments.last().routes))
            &&& left.routes@ == moments.last().routes
            &&& left.rerouted == moments.last().rerouted
        };
    let second = choose|moments: Seq<Moment>|
        {
            &&& #[trigger] are_renegotiations(rule, settle, route, finish, base, config, moments)
            &&& 1 <= moments.len() <= rounds_of(config) + 1
            &&& are_copies(moments[0].routes, routes)
            &&& moments[0].rerouted == 0
            &&& moments.len() == rounds_of(config) + 1 || is_clean(as_options(moments.last().routes))
            &&& right.routes@ == moments.last().routes
            &&& right.rerouted == moments.last().rerouted
        };
    let shorter = if first.len() <= second.len() {
        first.len() as int
    } else {
        second.len() as int
    };
    assert forall|i: int| 0 <= i < first[0].routes.len() implies same_course(
        #[trigger] first[0].routes[i],
        second[0].routes[i],
    ) && same_identity(first[0].routes[i], second[0].routes[i]) by {
        assert(same_course(second[0].routes[i], routes[i]));
    }
    moments_are_unique(rule, settle, route, finish, base, config, first, second, shorter - 1);
    assert(moments_alike(first[shorter - 1], second[shorter - 1]));
    options_alike(first[shorter - 1].routes, second[shorter - 1].routes);
    ripping_alike(as_options(first[shorter - 1].routes), as_options(second[shorter - 1].routes));
    if first.len() > shorter {
        assert(renegotiation_follows_at(rule, settle, route, finish, base, config, first, shorter - 1));
    }
    if second.len() > shorter {
        assert(renegotiation_follows_at(rule, settle, route, finish, base, config, second, shorter - 1));
    }
    assert(first.len() == second.len());
}

} // verus!

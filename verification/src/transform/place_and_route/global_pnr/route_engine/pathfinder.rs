//! Routing nets over one world until no cell is used by more than one of them:
//! those that cross a cell that others use are ripped up and routed anew.

use super::congestion::{crossings, minus, occurrences_bound, CongestionConfig, CongestionMap};
use super::cost::RouteCostModel;
use super::route::{GlobalRoutingStrategy, RoutedNet};
use super::search::GLOBAL_ROUTE_MAX_STEPS;
use super::contacts::has_cell;
use crate::world::grid::World3D;
use crate::world::position::{is_sorted, Position};
use vstd::prelude::*;

verus! {

/// A net between two cells.
#[derive(Clone, Debug)]
pub struct PathfinderNet {
    pub name: String,
    pub source: Position,
    pub sink: Position,
}

/// How nets are routed.
#[derive(Clone, Copy, Debug, PartialEq, Eq, Structural)]
pub struct PathfinderConfig {
    pub max_iterations: usize,
    pub present_penalty: usize,
    pub history_penalty: usize,
    pub cost_model: RouteCostModel,
    pub strategy: GlobalRoutingStrategy,
}

impl Default for PathfinderConfig {
    fn default() -> (config: Self)
        ensures
            config.max_iterations == 8,
            config.present_penalty == 10,
            config.history_penalty == 5,
            config.cost_model == (RouteCostModel {
                step_cost: 1,
                turn_cost: 0,
                repeater_cost: 0,
                low_strength_penalty: 4,
                congestion: CongestionConfig { present_penalty: 0, history_penalty: 0 },
            }),
            config.strategy == GlobalRoutingStrategy::AStar,
    {
        PathfinderConfig {
            max_iterations: 8,
            present_penalty: 10,
            history_penalty: 5,
            cost_model: RouteCostModel::default(),
            strategy: GlobalRoutingStrategy::AStar,
        }
    }
}

/// The cost model of a configuration, with its penalties.
pub open spec fn model_of(config: PathfinderConfig) -> RouteCostModel {
    RouteCostModel {
        congestion: CongestionConfig {
            present_penalty: config.present_penalty,
            history_penalty: config.history_penalty,
        },
        ..config.cost_model
    }
}

/// The cost model of a configuration, with its penalties.
pub fn negotiated_model(config: &PathfinderConfig) -> (model: RouteCostModel)
    ensures
        model == model_of(*config),
{
    RouteCostModel {
        step_cost: config.cost_model.step_cost,
        turn_cost: config.cost_model.turn_cost,
        repeater_cost: config.cost_model.repeater_cost,
        low_strength_penalty: config.cost_model.low_strength_penalty,
        congestion: CongestionConfig {
            present_penalty: config.present_penalty,
            history_penalty: config.history_penalty,
        },
    }
}

/// The route of a net, if it has one.
#[derive(Clone, Debug)]
pub struct PathfinderRoute {
    pub net: usize,
    pub route: Option<RoutedNet>,
}

/// What routing nets came to.
#[derive(Clone, Debug)]
pub struct PathfinderResult {
    pub routes: Vec<PathfinderRoute>,
    pub iterations: usize,
    /// The cells that more than one route uses, in order.
    pub overused_cells: Vec<Position>,
}

/// How many of the first `count` nets have no route.
pub open spec fn unrouted_among(routes: Seq<PathfinderRoute>, count: nat) -> nat
    decreases count,
{
    if count == 0 {
        0
    } else {
        unrouted_among(routes, (count - 1) as nat) + if routes[count - 1].route is None {
            1nat
        } else {
            0
        }
    }
}

impl PathfinderResult {
    /// How many nets have no route.
    pub fn unrouted(&self) -> (count: usize)
        ensures
            count == unrouted_among(self.routes@, self.routes@.len()),
    {
        let mut count: usize = 0;
        let mut index: usize = 0;
        while index < self.routes.len()
            invariant
                index <= self.routes.len(),
                count <= index,
                count == unrouted_among(self.routes@, index as nat),
            decreases self.routes.len() - index,
        {
            if self.routes[index].route.is_none() {
                count += 1;
            }
            index += 1;
        }
        count
    }
}

// ---------------------------------------------------------------------------
// Totals
// ---------------------------------------------------------------------------
/// How often the first `count` routes use a cell.
pub open spec fn uses(routes: Seq<Option<RoutedNet>>, cell: Position, count: nat) -> nat
    decreases count,
{
    if count == 0 {
        0
    } else {
        uses(routes, cell, (count - 1) as nat) + match routes[count - 1] {
            Some(route) => crossings(route.path@, cell),
            None => 0,
        }
    }
}

/// The longest path that a router returns.
pub open spec fn longest() -> int {
    GLOBAL_ROUTE_MAX_STEPS + 1
}

/// Whether no path is longer than a limit.
pub open spec fn are_short(routes: Seq<Option<RoutedNet>>, limit: int) -> bool {
    forall|i: int|
        0 <= i < routes.len() ==> ((#[trigger] routes[i]) matches Some(route) ==> route.path@.len() <= limit)
}

/// Routes use a cell no more often than their paths are long.
pub proof fn uses_bound(routes: Seq<Option<RoutedNet>>, limit: int, cell: Position, count: nat)
    requires
        are_short(routes, limit),
        limit >= 0,
        count <= routes.len(),
    ensures
        uses(routes, cell, count) <= count * limit,
    decreases count,
{
    if count > 0 {
        uses_bound(routes, limit, cell, (count - 1) as nat);
        let last = routes[count - 1];
        if last is Some {
            occurrences_bound(last->0.path@, cell, last->0.path@.len());
        }
        assert(count * limit == (count - 1) * limit + limit) by (nonlinear_arith);
    } else {
        assert(0 * limit == 0);
    }
}

/// Changing one route changes the use of cells by that route alone.
pub proof fn uses_update(
    before: Seq<Option<RoutedNet>>,
    after: Seq<Option<RoutedNet>>,
    cell: Position,
    at: int,
    count: nat,
)
    requires
        before.len() == after.len(),
        0 <= at < before.len(),
        count <= before.len(),
        forall|i: int| 0 <= i < before.len() && i != at ==> #[trigger] before[i] == after[i],
    ensures
        uses(after, cell, count) == uses(before, cell, count) + (if at < count {
            uses_one(after[at], cell) - uses_one(before[at], cell)
        } else {
            0
        }),
    decreases count,
{
    if count > 0 {
        uses_update(before, after, cell, at, (count - 1) as nat);
        if count - 1 != at {
            assert(before[count - 1] == after[count - 1]);
        }
    }
}

/// How often one route uses a cell.
pub open spec fn uses_one(route: Option<RoutedNet>, cell: Position) -> int {
    match route {
        Some(route) => crossings(route.path@, cell) as int,
        None => 0,
    }
}

/// The use of a cell by one route is part of that by all.
pub proof fn one_is_part(routes: Seq<Option<RoutedNet>>, cell: Position, at: int, count: nat)
    requires
        0 <= at < count <= routes.len(),
    ensures
        uses_one(routes[at], cell) <= uses(routes, cell, count),
    decreases count,
{
    if at < count - 1 {
        one_is_part(routes, cell, at, (count - 1) as nat);
    }
}

/// Whether a map counts the use of every cell by some routes.
pub open spec fn counts_uses(map: CongestionMap, routes: Seq<Option<RoutedNet>>) -> bool {
    &&& map.wf()
    &&& forall|cell: Position| #[trigger] map.usage_at(cell) == uses(routes, cell, routes.len())
}

/// Whether a map remembers no more than that many times the most that can be
/// used.
spec fn remembers(map: CongestionMap, count: nat, times: nat) -> bool {
    forall|cell: Position| #[trigger] map.history_at(cell) <= times * (count * longest())
}

// ---------------------------------------------------------------------------
// Routing
// ---------------------------------------------------------------------------
/// Whether a router answers every question, with routes between the cells that
/// it was asked about and of a limited length.
pub open spec fn is_router<
    R: Fn(&World3D, Position, Position, GlobalRoutingStrategy, RouteCostModel, &CongestionMap) -> Option<RoutedNet>,
>(route: &R) -> bool {
    &&& forall|
        world: World3D,
        source: Position,
        sink: Position,
        strategy: GlobalRoutingStrategy,
        model: RouteCostModel,
        map: CongestionMap,
    | #[trigger]
        call_requires(*route, (&world, source, sink, strategy, model, &map))
    &&& forall|
        world: World3D,
        source: Position,
        sink: Position,
        strategy: GlobalRoutingStrategy,
        model: RouteCostModel,
        map: CongestionMap,
        net: RoutedNet,
    | #[trigger]
        call_ensures(*route, (&world, source, sink, strategy, model, &map), Some(net)) ==> net.path@.len() <= longest()
            && net.source == source && net.sink == sink
}

/// How often a cell was used by too many in the first `count` rounds.
pub open spec fn past_overuse(rounds: Seq<Seq<Option<RoutedNet>>>, cell: Position, count: nat) -> nat
    decreases count,
{
    if count == 0 {
        0
    } else {
        past_overuse(rounds, cell, (count - 1) as nat) + minus(
            uses(rounds[count - 1], cell, rounds[count - 1].len()),
            1,
        )
    }
}

/// Whether a map is that of some routes, after some rounds.
pub open spec fn is_map_of(
    map: CongestionMap,
    routes: Seq<Option<RoutedNet>>,
    rounds: Seq<Seq<Option<RoutedNet>>>,
) -> bool {
    &&& counts_uses(map, routes)
    &&& forall|cell: Position| #[trigger] map.history_at(cell) == past_overuse(rounds, cell, rounds.len())
}

/// Whether a router, asked for a route beside others and after some rounds, gave
/// an answer.
pub open spec fn is_answer<
    R: Fn(&World3D, Position, Position, GlobalRoutingStrategy, RouteCostModel, &CongestionMap) -> Option<RoutedNet>,
>(
    route: &R,
    world: World3D,
    source: Position,
    sink: Position,
    config: PathfinderConfig,
    others: Seq<Option<RoutedNet>>,
    rounds: Seq<Seq<Option<RoutedNet>>>,
    answer: Option<RoutedNet>,
) -> bool {
    exists|map: CongestionMap| #[trigger]
        call_ensures(*route, (&world, source, sink, config.strategy, model_of(config), &map), answer) && is_map_of(
            map,
            others,
            rounds,
        )
}

/// How often nets are routed at most.
pub open spec fn rounds_of(config: PathfinderConfig) -> int {
    if config.max_iterations == 0 {
        1
    } else {
        config.max_iterations as int
    }
}

/// Whether the numbers of uses stay in range.
pub open spec fn uses_fit(nets: nat, rounds: int) -> bool {
    (rounds + 1) * (nets * longest()) <= usize::MAX
}

/// The routes while a round is under way, when the first `index` nets were
/// routed.
pub open spec fn meanwhile(
    before: Seq<Option<RoutedNet>>,
    after: Seq<Option<RoutedNet>>,
    index: int,
) -> Seq<Option<RoutedNet>> {
    after.take(index) + before.skip(index)
}

/// Whether a net was left alone in a round, where it had a route, and else has
/// the answer of the router.
pub open spec fn is_routed_at<
    R: Fn(&World3D, Position, Position, GlobalRoutingStrategy, RouteCostModel, &CongestionMap) -> Option<RoutedNet>,
>(
    route: &R,
    world: World3D,
    nets: Seq<PathfinderNet>,
    config: PathfinderConfig,
    rounds: Seq<Seq<Option<RoutedNet>>>,
    before: Seq<Option<RoutedNet>>,
    after: Seq<Option<RoutedNet>>,
    index: int,
) -> bool {
    if before[index] is Some {
        after[index] == before[index]
    } else {
        is_answer(
            route,
            world,
            nets[index].source,
            nets[index].sink,
            config,
            meanwhile(before, after, index),
            rounds,
            after[index],
        )
    }
}

/// Whether a path crosses a cell that the routes use more than once.
pub open spec fn crosses_overused(routes: Seq<Option<RoutedNet>>, path: Seq<Position>) -> bool {
    exists|k: int| 0 <= k < path.len() && uses(routes, #[trigger] path[k], routes.len()) > 1
}

/// The routes without those that cross a cell that is used more than once.
pub open spec fn ripped_up(routes: Seq<Option<RoutedNet>>) -> Seq<Option<RoutedNet>> {
    Seq::new(
        routes.len(),
        |i: int|
            match routes[i] {
                Some(net) => if crosses_overused(routes, net.path@) {
                    None
                } else {
                    routes[i]
                },
                None => None,
            },
    )
}

/// Whether no cell is used more than once.
pub open spec fn is_clean(routes: Seq<Option<RoutedNet>>) -> bool {
    forall|cell: Position| #[trigger] uses(routes, cell, routes.len()) <= 1
}

/// The routes that a round begins with: none at first, and later those that were
/// not ripped up.
pub open spec fn before_round(nets: nat, rounds: Seq<Seq<Option<RoutedNet>>>, k: int) -> Seq<Option<RoutedNet>> {
    if k == 0 {
        Seq::new(nets, |i: int| None::<RoutedNet>)
    } else {
        ripped_up(rounds[k - 1])
    }
}

/// Whether every net was routed or left alone in a round.
pub open spec fn is_round<
    R: Fn(&World3D, Position, Position, GlobalRoutingStrategy, RouteCostModel, &CongestionMap) -> Option<RoutedNet>,
>(
    route: &R,
    world: World3D,
    nets: Seq<PathfinderNet>,
    config: PathfinderConfig,
    rounds: Seq<Seq<Option<RoutedNet>>>,
    before: Seq<Option<RoutedNet>>,
    after: Seq<Option<RoutedNet>>,
) -> bool {
    &&& after.len() == nets.len()
    &&& forall|i: int|
        0 <= i < nets.len() ==> #[trigger] is_routed_at(route, world, nets, config, rounds, before, after, i)
}

/// Whether a round follows from the ones before it, and another one only where it
/// leaves a cell that is used more than once.
pub open spec fn round_follows<
    R: Fn(&World3D, Position, Position, GlobalRoutingStrategy, RouteCostModel, &CongestionMap) -> Option<RoutedNet>,
>(
    route: &R,
    world: World3D,
    nets: Seq<PathfinderNet>,
    config: PathfinderConfig,
    rounds: Seq<Seq<Option<RoutedNet>>>,
    k: int,
) -> bool {
    &&& is_round(route, world, nets, config, rounds.take(k), before_round(nets.len(), rounds, k), rounds[k])
    &&& k + 1 < rounds.len() ==> !is_clean(rounds[k])
}

/// Whether routes are those of rounds, one after the other.
pub open spec fn are_rounds<
    R: Fn(&World3D, Position, Position, GlobalRoutingStrategy, RouteCostModel, &CongestionMap) -> Option<RoutedNet>,
>(
    route: &R,
    world: World3D,
    nets: Seq<PathfinderNet>,
    config: PathfinderConfig,
    rounds: Seq<Seq<Option<RoutedNet>>>,
) -> bool {
    forall|k: int| 0 <= k < rounds.len() ==> #[trigger] round_follows(route, world, nets, config, rounds, k)
}

/// Whether a result lists the routes of the last round, and the cells that they
/// use more than once.
pub open spec fn lists_round(routes: Seq<Option<RoutedNet>>, result: PathfinderResult) -> bool {
    &&& result.routes@.len() == routes.len()
    &&& forall|i: int|
        0 <= i < routes.len() ==> (#[trigger] result.routes@[i]).net == i && result.routes@[i].route == routes[i]
    &&& is_sorted(result.overused_cells@)
    &&& forall|cell: Position| #[trigger]
        result.overused_cells@.contains(cell) <==> uses(routes, cell, routes.len()) > 1
}

/// What routing nets comes to: the routes of the last of some rounds. There are
/// no more rounds once no cell is used more than once.
pub open spec fn is_negotiated<
    R: Fn(&World3D, Position, Position, GlobalRoutingStrategy, RouteCostModel, &CongestionMap) -> Option<RoutedNet>,
>(
    route: &R,
    world: World3D,
    nets: Seq<PathfinderNet>,
    config: PathfinderConfig,
    result: PathfinderResult,
) -> bool {
    exists|rounds: Seq<Seq<Option<RoutedNet>>>|
        {
            &&& #[trigger] are_rounds(route, world, nets, config, rounds)
            &&& 1 <= rounds.len() <= rounds_of(config)
            &&& rounds.len() == result.iterations
            &&& rounds.len() == rounds_of(config) || is_clean(rounds.last())
            &&& lists_round(rounds.last(), result)
        }
}

/// Whether a path crosses one of some cells.
pub fn crosses(path: &Vec<Position>, cells: &Vec<Position>) -> (crossed: bool)
    ensures
        crossed == exists|i: int| 0 <= i < path@.len() && cells@.contains(#[trigger] path@[i]),
{
    let mut index: usize = 0;
    while index < path.len()
        invariant
            index <= path.len(),
            forall|i: int| 0 <= i < index ==> !cells@.contains(#[trigger] path@[i]),
        decreases path.len() - index,
    {
        if has_cell(cells, path[index]) {
            assert(cells@.contains(path@[index as int]));
            return true;
        }
        index += 1;
    }
    false
}

/// Routes nets over one world. Each round routes the nets that have no route;
/// then those that cross a cell that others use are ripped up, until none does
/// or the rounds are used up.
pub fn negotiate_routes<
    R: Fn(&World3D, Position, Position, GlobalRoutingStrategy, RouteCostModel, &CongestionMap) -> Option<RoutedNet>,
>(world: &World3D, nets: &Vec<PathfinderNet>, config: &PathfinderConfig, route: &R) -> (result: PathfinderResult)
    requires
        is_router(route),
        uses_fit(nets@.len(), rounds_of(*config)),
    ensures
        is_negotiated(route, *world, nets@, *config, result),
{
    let model = negotiated_model(config);
    let rounds: usize = if config.max_iterations == 0 {
        1
    } else {
        config.max_iterations
    };
    let count: usize = nets.len();
    let mut map = CongestionMap::new();
    let mut routes: Vec<Option<RoutedNet>> = Vec::new();
    while routes.len() < count
        invariant
            routes.len() <= count,
            forall|i: int| 0 <= i < routes.len() ==> (#[trigger] routes@[i]) is None,
        decreases count - routes.len(),
    {
        routes.push(None);
    }
    proof {
        assert forall|cell: Position| #[trigger] map.usage_at(cell) == uses(routes@, cell, routes@.len()) by {
            unused(routes@, cell, routes@.len());
        }
        assert forall|cell: Position| #[trigger] map.history_at(cell) <= 0 * (count * longest()) by {
            assert(0 * (count * longest()) == 0);
        }
    }
    let mut round: usize = 0;
    let ghost mut done: Seq<Seq<Option<RoutedNet>>> = Seq::empty();
    assert(routes@ =~= before_round(nets@.len(), done, 0));
    loop
        invariant
            is_router(route),
            uses_fit(count as nat, rounds as int),
            model == model_of(*config),
            rounds == rounds_of(*config),
            round < rounds,
            count == nets@.len(),
            routes.len() == count,
            are_short(routes@, longest()),
            counts_uses(map, routes@),
            remembers(map, count as nat, round as nat),
            is_map_of(map, routes@, done),
            done.len() == round,
            routes@ == before_round(nets@.len(), done, round as int),
            are_rounds(route, *world, nets@, *config, done),
            forall|k: int| 0 <= k < round ==> !is_clean(#[trigger] done[k]),
        decreases rounds - round,
    {
        let ghost begun = routes@;
        let mut index: usize = 0;
        while index < count
            invariant
                index <= count,
                is_router(route),
                uses_fit(count as nat, rounds as int),
                model == model_of(*config),
                rounds >= 1,
                count == nets@.len(),
                routes.len() == count,
                are_short(routes@, longest()),
                counts_uses(map, routes@),
                remembers(map, count as nat, round as nat),
                is_map_of(map, routes@, done),
                begun.len() == count,
                forall|i: int| index <= i < count ==> #[trigger] routes@[i] == begun[i],
                forall|i: int|
                    0 <= i < index ==> #[trigger] is_routed_at(
                        route,
                        *world,
                        nets@,
                        *config,
                        done,
                        begun,
                        routes@,
                        i,
                    ),
            decreases count - index,
        {
            let ghost held = routes@;
            assert(held =~= meanwhile(begun, held, index as int));
            if routes[index].is_none() {
                let answer = route(world, nets[index].source, nets[index].sink, config.strategy, model, &map);
                let ghost asked = map;
                let ghost answer_given = answer;
                let ghost before = routes@;
                assert(call_ensures(
                    *route,
                    (world, nets@[index as int].source, nets@[index as int].sink, config.strategy, model_of(*config), &asked),
                    answer,
                ));
                if let Some(net) = answer {
                    proof {
                        let after = before.update(index as int, Some(net));
                        assert(are_short(after, longest())) by {
                            assert forall|i: int| 0 <= i < after.len() implies ((#[trigger] after[i]) matches Some(found)
                                ==> found.path@.len() <= longest()) by {
                                if i != index {
                                    assert(after[i] == before[i]);
                                }
                            }
                        }
                        assert forall|cell: Position| #[trigger] map.usage_at(cell) + crossings(net.path@, cell)
                            <= usize::MAX && uses(after, cell, after.len()) == map.usage_at(cell) + crossings(
                            net.path@,
                            cell,
                        ) by {
                            assert(map.usage_at(cell) == uses(before, cell, before.len()));
                            uses_update(before, after, cell, index as int, before.len());
                            uses_bound(after, longest(), cell, after.len());
                            assert((rounds + 1) * (count * longest()) >= count * longest()) by (nonlinear_arith)
                                requires
                                    count * longest() >= 0,
                                    rounds >= 0,
                            ;
                        }
                    }
                    map.add_route(&net.path);
                    routes[index] = Some(net);
                    proof {
                        assert(routes@ =~= before.update(index as int, Some(net)));
                        assert forall|cell: Position| #[trigger] map.usage_at(cell) == uses(
                            routes@,
                            cell,
                            routes@.len(),
                        ) by {
                            assert(asked.usage_at(cell) + crossings(net.path@, cell) <= usize::MAX);
                        }
                        assert forall|cell: Position| #[trigger] map.history_at(cell) <= round * (count * longest())
                            && map.history_at(cell) == past_overuse(done, cell, done.len()) by {
                            assert(asked.history_at(cell) <= round * (count * longest()));
                            assert(asked.history_at(cell) == past_overuse(done, cell, done.len()));
                        }
                    }
                }
                proof {
                    assert(meanwhile(begun, routes@, index as int) =~= held);
                    assert(is_map_of(asked, held, done));
                    assert(is_answer(
                        route,
                        *world,
                        nets@[index as int].source,
                        nets@[index as int].sink,
                        *config,
                        held,
                        done,
                        answer_given,
                    ));
                }
            }
            proof {
                assert(is_routed_at(route, *world, nets@, *config, done, begun, routes@, index as int));
                assert forall|i: int| 0 <= i < index implies #[trigger] is_routed_at(
                    route,
                    *world,
                    nets@,
                    *config,
                    done,
                    begun,
                    routes@,
                    i,
                ) by {
                    assert(is_routed_at(route, *world, nets@, *config, done, begun, held, i));
                    assert(meanwhile(begun, routes@, i) =~= meanwhile(begun, held, i));
                }
            }
            index += 1;
        }
        let overused = map.overused_cells();
        if overused.len() == 0 || round + 1 == rounds {
            let ghost last = routes@;
            let ghost overused_count = overused@.len();
            let listed = number_routes(routes);
            let result = PathfinderResult { routes: listed, iterations: round + 1, overused_cells: overused };
            proof {
                add_round(route, *world, nets@, *config, done, last);
                let rounds_done = done.push(last);
                assert(rounds_done.last() == last);
                assert forall|cell: Position| #[trigger] result.overused_cells@.contains(cell) <==> uses(
                    last,
                    cell,
                    last.len(),
                ) > 1 by {
                    assert(map.usage_at(cell) == uses(last, cell, last.len()));
                }
                assert(lists_round(last, result));
                if overused_count == 0 {
                    assert forall|cell: Position| #[trigger] uses(last, cell, last.len()) <= 1 by {
                        assert(!result.overused_cells@.contains(cell));
                    }
                }
                assert(are_rounds(route, *world, nets@, *config, rounds_done));
            }
            return result;
        }
        let ghost known = map;
        let ghost full = routes@;
        proof {
            add_round(route, *world, nets@, *config, done, full);
            let crowded = overused@[0];
            assert(overused@.contains(crowded));
            assert(map.usage_at(crowded) == uses(full, crowded, full.len()));
            assert(!is_clean(full));
            assert forall|cell: Position| #[trigger] map.history_at(cell) + map.overuse_at(cell) <= (round + 1) * (count
                * longest()) by {
                assert(map.history_at(cell) <= round * (count * longest()));
                assert(map.usage_at(cell) == uses(routes@, cell, routes@.len()));
                uses_bound(routes@, longest(), cell, routes@.len());
                assert((round + 1) * (count * longest()) == round * (count * longest()) + count * longest())
                    by (nonlinear_arith);
            }
            assert((round + 1) * (count * longest()) <= (rounds + 1) * (count * longest())) by (nonlinear_arith)
                requires
                    round + 1 <= rounds + 1,
                    count * longest() >= 0,
            ;
        }
        map.commit_iteration();
        proof {
            assert forall|cell: Position| #[trigger] map.history_at(cell) <= (round + 1) * (count * longest()) by {
                assert(known.history_at(cell) + known.overuse_at(cell) <= (round + 1) * (count * longest()));
            }
            assert forall|cell: Position| #[trigger] map.usage_at(cell) == uses(routes@, cell, routes@.len()) by {
                assert(known.usage_at(cell) == uses(routes@, cell, routes@.len()));
                assert(map.used@ == known.used@);
            }
            let more = done.push(full);
            assert forall|cell: Position| #[trigger] map.history_at(cell) == past_overuse(more, cell, more.len()) by {
                assert(known.history_at(cell) == past_overuse(done, cell, done.len()));
                assert(known.usage_at(cell) == uses(full, cell, full.len()));
                past_is_past(done, full, cell, done.len());
                assert(more[done.len() as int] == full);
            }
            done = more;
        }
        let mut index: usize = 0;
        while index < count
            invariant
                index <= count,
                count == nets@.len(),
                routes.len() == count,
                are_short(routes@, longest()),
                counts_uses(map, routes@),
                remembers(map, count as nat, (round + 1) as nat),
                is_map_of(map, routes@, done),
                full.len() == count,
                forall|cell: Position| #[trigger] overused@.contains(cell) <==> uses(full, cell, full.len()) > 1,
                forall|i: int| index <= i < count ==> #[trigger] routes@[i] == full[i],
                forall|i: int| 0 <= i < index ==> #[trigger] routes@[i] == ripped_up(full)[i],
            decreases count - index,
        {
            assert(routes@[index as int] == full[index as int]);
            let ghost before = routes@;
            let ghost here = map;
            let mut ripped = false;
            if let Some(current) = &routes[index] {
                if crosses(&current.path, &overused) {
                    map.rip_route(&current.path);
                    ripped = true;
                }
            }
            if ripped {
                routes[index] = None;
                proof {
                    assert(routes@ =~= before.update(index as int, None));
                    assert forall|cell: Position| #[trigger] map.usage_at(cell) == uses(
                        routes@,
                        cell,
                        routes@.len(),
                    ) by {
                        assert(here.usage_at(cell) == uses(before, cell, before.len()));
                        uses_update(before, routes@, cell, index as int, before.len());
                        one_is_part(before, cell, index as int, before.len());
                    }
                    assert forall|cell: Position| #[trigger] map.history_at(cell) <= (round + 1) * (count * longest())
                        && map.history_at(cell) == past_overuse(done, cell, done.len()) by {
                        assert(here.history_at(cell) <= (round + 1) * (count * longest()));
                        assert(here.history_at(cell) == past_overuse(done, cell, done.len()));
                    }
                }
            }
            index += 1;
        }
        assert(routes@ =~= ripped_up(full));
        round += 1;
    }
}

/// Another round does not change what came before.
pub proof fn past_is_past(rounds: Seq<Seq<Option<RoutedNet>>>, next: Seq<Option<RoutedNet>>, cell: Position, count: nat)
    requires
        count <= rounds.len(),
    ensures
        past_overuse(rounds.push(next), cell, count) == past_overuse(rounds, cell, count),
    decreases count,
{
    if count > 0 {
        past_is_past(rounds, next, cell, (count - 1) as nat);
        assert(rounds.push(next)[count - 1] == rounds[count - 1]);
    }
}

proof fn add_round<
    R: Fn(&World3D, Position, Position, GlobalRoutingStrategy, RouteCostModel, &CongestionMap) -> Option<RoutedNet>,
>(
    route: &R,
    world: World3D,
    nets: Seq<PathfinderNet>,
    config: PathfinderConfig,
    rounds: Seq<Seq<Option<RoutedNet>>>,
    next: Seq<Option<RoutedNet>>,
)
    requires
        are_rounds(route, world, nets, config, rounds),
        forall|k: int| 0 <= k < rounds.len() ==> !is_clean(#[trigger] rounds[k]),
        is_round(route, world, nets, config, rounds, before_round(nets.len(), rounds, rounds.len() as int), next),
    ensures
        are_rounds(route, world, nets, config, rounds.push(next)),
{
    let more = rounds.push(next);
    assert forall|k: int| 0 <= k < more.len() implies #[trigger] round_follows(route, world, nets, config, more, k) by {
        if k < rounds.len() {
            assert(round_follows(route, world, nets, config, rounds, k));
            assert(more.take(k) =~= rounds.take(k));
            assert(more[k] == rounds[k]);
            assert(!is_clean(rounds[k]));
            assert(before_round(nets.len(), more, k) == before_round(nets.len(), rounds, k));
        } else {
            assert(more.take(k) =~= rounds);
            assert(before_round(nets.len(), more, k) == before_round(nets.len(), rounds, k));
        }
    }
}

proof fn unused(routes: Seq<Option<RoutedNet>>, cell: Position, count: nat)
    requires
        count <= routes.len(),
        forall|i: int| 0 <= i < routes.len() ==> (#[trigger] routes[i]) is None,
    ensures
        uses(routes, cell, count) == 0,
    decreases count,
{
    if count > 0 {
        unused(routes, cell, (count - 1) as nat);
        assert(routes[count - 1] is None);
    }
}

/// Gives each route the number of its net.
fn number_routes(routes: Vec<Option<RoutedNet>>) -> (listed: Vec<PathfinderRoute>)
    ensures
        listed.len() == routes.len(),
        forall|i: int|
            0 <= i < listed.len() ==> (#[trigger] listed@[i]).net == i && listed@[i].route == routes@[i],
{
    let ghost given = routes@;
    let mut waiting = routes;
    let mut listed: Vec<PathfinderRoute> = Vec::new();
    while waiting.len() > 0
        invariant
            listed.len() + waiting.len() == given.len(),
            waiting@ == given.skip(listed.len() as int),
            forall|i: int|
                0 <= i < listed.len() ==> (#[trigger] listed@[i]).net == i && listed@[i].route == given[i],
        decreases waiting.len(),
    {
        let ghost at = listed.len() as int;
        assert(waiting@[0] == given[at]);
        let route = waiting.remove(0);
        assert(waiting@ =~= given.skip(at + 1));
        let net: usize = listed.len();
        listed.push(PathfinderRoute { net, route });
    }
    listed
}

} // verus!

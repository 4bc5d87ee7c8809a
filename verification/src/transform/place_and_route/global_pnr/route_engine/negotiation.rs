//! Routing nets anew that cross others, once all of them are routed.

use super::congestion::{crossings, CongestionMap};
use super::cost::RouteCostModel;
use super::pathfinder::{
    are_short, crosses, crosses_overused, is_answer, is_clean, is_map_of, is_router, longest, model_of,
    negotiated_model, one_is_part, past_is_past, past_overuse, rounds_of, uses, uses_bound, uses_update,
    PathfinderConfig,
};
use super::route::{same_course, same_identity, GlobalRoutingStrategy, RoutedNet};
use super::validation::{is_contract_check, is_settler, route_power_contract_holds};
use crate::transform::place_and_route::global_pnr::dust::is_rule;
use crate::world::block::{air, Block};
use crate::world::grid::{Placed, World3D};
use crate::world::position::{in_bounds, is_sorted, neighbour, Direction, Position};
use vstd::prelude::*;

verus! {

/// What routing nets anew came to.
#[derive(Debug)]
pub struct NegotiationOutcome {
    pub routes: Vec<RoutedNet>,
    /// How many nets were routed anew.
    pub rerouted: usize,
    /// How many cells more than one route uses.
    pub overused_cells: usize,
}

// ---------------------------------------------------------------------------
// Worlds with routes
// ---------------------------------------------------------------------------
/// The block of a cell after the first `count` of some blocks were put into a
/// world, each unless it lies outside.
pub open spec fn painted_at(base: World3D, blocks: Seq<Placed>, cell: Position, count: nat) -> Block
    decreases count,
{
    if count == 0 {
        base.at(cell)
    } else if blocks[count - 1].0 == cell && in_bounds(base.size, cell) {
        if blocks[count - 1].1.kind is Air {
            air()
        } else {
            blocks[count - 1].1
        }
    } else {
        painted_at(base, blocks, cell, (count - 1) as nat)
    }
}

/// The blocks of the first `count` routes.
pub open spec fn all_blocks(routes: Seq<RoutedNet>, count: nat) -> Seq<Placed>
    decreases count,
{
    if count == 0 {
        Seq::empty()
    } else {
        all_blocks(routes, (count - 1) as nat) + routes[count - 1].blocks@
    }
}

/// Whether a world is another with the blocks of some routes.
pub open spec fn is_assembled(base: World3D, routes: Seq<RoutedNet>, world: World3D) -> bool {
    let blocks = all_blocks(routes, routes.len());
    &&& world.wf()
    &&& world.size == base.size
    &&& forall|cell: Position| #[trigger] world.at(cell) == painted_at(base, blocks, cell, blocks.len())
}

proof fn painted_prefix(base: World3D, blocks: Seq<Placed>, more: Seq<Placed>, cell: Position, count: nat)
    requires
        count <= blocks.len() <= more.len(),
        forall|i: int| 0 <= i < blocks.len() ==> #[trigger] blocks[i] == more[i],
    ensures
        painted_at(base, blocks, cell, count) == painted_at(base, more, cell, count),
    decreases count,
{
    if count > 0 {
        painted_prefix(base, blocks, more, cell, (count - 1) as nat);
        assert(blocks[count - 1] == more[count - 1]);
    }
}

/// Puts the blocks of routes into a world.
pub fn assemble_world_with_routes_raw(base: &World3D, routes: &Vec<RoutedNet>) -> (world: World3D)
    requires
        base.wf(),
    ensures
        is_assembled(*base, routes@, world),
{
    let mut world = base.copy();
    let ghost mut done = Seq::<Placed>::empty();
    assert(all_blocks(routes@, 0) =~= done);
    let mut index: usize = 0;
    while index < routes.len()
        invariant
            index <= routes.len(),
            world.wf(),
            world.size == base.size,
            done == all_blocks(routes@, index as nat),
            forall|cell: Position| #[trigger] world.at(cell) == painted_at(*base, done, cell, done.len()),
        decreases routes.len() - index,
    {
        let ghost start = done;
        let ghost own = routes@[index as int].blocks@;
        assert(start + own.take(0) =~= start);
        let count: usize = routes[index].blocks.len();
        let mut part: usize = 0;
        while part < count
            invariant
                part <= count,
                index < routes.len(),
                own == routes@[index as int].blocks@,
                count == own.len(),
                world.wf(),
                world.size == base.size,
                done == start + own.take(part as int),
                forall|cell: Position| #[trigger] world.at(cell) == painted_at(*base, done, cell, done.len()),
            decreases count - part,
        {
            let position = routes[index].blocks[part].0;
            let block = routes[index].blocks[part].1;
            let ghost before = world;
            let ghost past = done;
            if world.size.bound_on(position) {
                world.set(position, block);
            }
            proof {
                done = start + own.take(part + 1);
                assert(done =~= past.push((position, block)));
                assert forall|cell: Position| #[trigger] world.at(cell) == painted_at(*base, done, cell, done.len()) by {
                    assert(before.at(cell) == painted_at(*base, past, cell, past.len()));
                    painted_prefix(*base, past, done, cell, past.len());
                }
            }
            part += 1;
        }
        proof {
            assert(own.take(part as int) =~= own);
        }
        index += 1;
    }
    world
}

/// Whether every dust of a world stands on a support block, or at the bottom.
pub open spec fn supports_hold(world: World3D) -> bool {
    forall|i: int| 0 <= i < world.listed().len() ==> #[trigger] support_holds(world, i)
}

pub open spec fn support_holds(world: World3D, index: int) -> bool {
    let placed = world.listed()[index];
    placed.1.kind is Redstone ==> match neighbour(placed.0, Direction::Bottom) {
        None => true,
        Some(below) => world.at(below).kind is Cobble,
    }
}

/// Whether every dust of a world stands on a support block, or at the bottom.
pub fn redstone_supports_are_consistent(world: &World3D) -> (holds: bool)
    requires
        world.wf(),
    ensures
        holds == supports_hold(*world),
{
    let mut index: usize = 0;
    while index < world.blocks.len()
        invariant
            index <= world.blocks.len(),
            world.wf(),
            forall|i: int| 0 <= i < index ==> #[trigger] support_holds(*world, i),
        decreases world.blocks.len() - index,
    {
        if world.blocks[index].1.kind.is_redstone() {
            if let Some(below) = world.blocks[index].0.down() {
                if !world.get(below).kind.is_cobble() {
                    assert(!support_holds(*world, index as int));
                    return false;
                }
            }
        }
        index += 1;
    }
    true
}

/// Whether a route may be routed anew: it asks for power at its sink alone.
pub open spec fn may_reroute(route: RoutedNet) -> bool {
    &&& route.source != route.sink
    &&& route.required_powered_positions@ == seq![route.sink]
    &&& route.required_released_positions@ == seq![route.sink]
}

/// Whether a route may be routed anew.
pub fn is_negotiable(route: &RoutedNet) -> (negotiable: bool)
    ensures
        negotiable == may_reroute(*route),
{
    let plain = route.source != route.sink && route.required_powered_positions.len() == 1
        && route.required_powered_positions[0] == route.sink && route.required_released_positions.len() == 1
        && route.required_released_positions[0] == route.sink;
    proof {
        if plain {
            assert(route.required_powered_positions@ =~= seq![route.sink]);
            assert(route.required_released_positions@ =~= seq![route.sink]);
        } else if may_reroute(*route) {
            assert(route.required_powered_positions@[0] == route.sink);
            assert(route.required_released_positions@[0] == route.sink);
        }
    }
    plain
}

// ---------------------------------------------------------------------------
// Rerouting
// ---------------------------------------------------------------------------
/// Routes, each of them there.
pub open spec fn as_options(routes: Seq<RoutedNet>) -> Seq<Option<RoutedNet>> {
    routes.map_values(|route: RoutedNet| Some(route))
}

/// The longest path of the first `count` routes, or that of a router.
pub open spec fn longest_of(routes: Seq<RoutedNet>, count: nat) -> int
    decreases count,
{
    if count == 0 {
        longest()
    } else {
        let rest = longest_of(routes, (count - 1) as nat);
        if routes[count - 1].path@.len() > rest {
            routes[count - 1].path@.len() as int
        } else {
            rest
        }
    }
}

proof fn longest_bounds(routes: Seq<RoutedNet>, count: nat)
    requires
        count <= routes.len(),
    ensures
        longest_of(routes, count) >= longest(),
        forall|i: int| 0 <= i < count ==> (#[trigger] routes[i]).path@.len() <= longest_of(routes, count),
    decreases count,
{
    if count > 0 {
        longest_bounds(routes, (count - 1) as nat);
    }
}

/// Whether the numbers of uses stay in range.
pub open spec fn reroutes_fit(routes: Seq<RoutedNet>, rounds: int) -> bool {
    (rounds + 1) * (routes.len() * longest_of(routes, routes.len())) <= usize::MAX && rounds * routes.len() <= usize::MAX
}

/// Whether a finisher, which brings the dust of a world into shape, answers
/// every time, with a world that is well formed.
pub open spec fn is_finisher<I: Fn(&World3D) -> World3D>(finish: &I) -> bool {
    &&& forall|world: World3D| #[trigger] call_requires(*finish, (&world,))
    &&& forall|world: World3D, after: World3D| #[trigger] call_ensures(*finish, (&world,), after) ==> after.wf()
}

/// Whether a route was routed anew, and did what it is to do in the world of
/// the routes of that time.
pub open spec fn is_rerouted<
    F: Fn(&World3D, Position, Position) -> bool,
    S: Fn(&World3D, Position, Option<bool>, &Vec<Position>) -> Option<Vec<bool>>,
    R: Fn(&World3D, Position, Position, GlobalRoutingStrategy, RouteCostModel, &CongestionMap) -> Option<RoutedNet>,
    I: Fn(&World3D) -> World3D,
>(
    rule: &F,
    settle: &S,
    route: &R,
    finish: &I,
    base: World3D,
    config: PathfinderConfig,
    net: RoutedNet,
) -> bool {
    exists|
        others: Seq<Option<RoutedNet>>,
        rounds: Seq<Seq<Option<RoutedNet>>>,
        answer: RoutedNet,
        then: Seq<RoutedNet>,
        raw: World3D,
        world: World3D,
    |
        {
            &&& #[trigger] is_answer(route, base, net.source, net.sink, config, others, rounds, Some(answer))
            &&& same_course(net, answer)
            &&& #[trigger] is_assembled(base, then, raw)
            &&& then.contains(net)
            &&& supports_hold(raw)
            &&& #[trigger] call_ensures(*finish, (&raw,), world)
            &&& is_contract_check(rule, settle, world, world, net, true)
        }
}

/// Routes, and how many of them were routed anew.
pub ghost struct Moment {
    pub routes: Seq<RoutedNet>,
    pub rerouted: int,
}

/// Whether a new route does what it is to do in the world with it.
pub open spec fn is_accepted<
    F: Fn(&World3D, Position, Position) -> bool,
    S: Fn(&World3D, Position, Option<bool>, &Vec<Position>) -> Option<Vec<bool>>,
    I: Fn(&World3D) -> World3D,
>(rule: &F, settle: &S, finish: &I, raw: World3D, fresh: RoutedNet, taken: bool) -> bool {
    exists|world: World3D| #[trigger]
        call_ensures(*finish, (&raw,), world) && is_contract_check(rule, settle, world, world, fresh, taken)
}

/// What becomes of a route that was found in place of another: it takes its
/// identity, and its place where the world with it holds.
pub open spec fn is_tried<
    F: Fn(&World3D, Position, Position) -> bool,
    S: Fn(&World3D, Position, Option<bool>, &Vec<Position>) -> Option<Vec<bool>>,
    I: Fn(&World3D) -> World3D,
>(
    rule: &F,
    settle: &S,
    finish: &I,
    base: World3D,
    before: Seq<RoutedNet>,
    index: int,
    found: RoutedNet,
    after: Seq<RoutedNet>,
    taken: bool,
) -> bool {
    exists|fresh: RoutedNet, raw: World3D|
        {
            &&& same_course(fresh, found)
            &&& same_identity(fresh, before[index])
            &&& #[trigger] is_assembled(base, before.update(index, fresh), raw)
            &&& if supports_hold(raw) {
                is_accepted(rule, settle, finish, raw, fresh, taken)
            } else {
                !taken
            }
            &&& after == (if taken {
                before.update(index, fresh)
            } else {
                before
            })
        }
}

/// What becomes of the answer for a net.
pub open spec fn is_used<
    F: Fn(&World3D, Position, Position) -> bool,
    S: Fn(&World3D, Position, Option<bool>, &Vec<Position>) -> Option<Vec<bool>>,
    I: Fn(&World3D) -> World3D,
>(
    rule: &F,
    settle: &S,
    finish: &I,
    base: World3D,
    before: Seq<RoutedNet>,
    index: int,
    answer: Option<RoutedNet>,
    after: Seq<RoutedNet>,
    taken: bool,
) -> bool {
    match answer {
        Some(found) => is_tried(rule, settle, finish, base, before, index, found, after, taken),
        None => !taken && after == before,
    }
}

/// Whether the router was asked for a net beside the other routes, and its answer
/// used.
pub open spec fn is_attempt<
    F: Fn(&World3D, Position, Position) -> bool,
    S: Fn(&World3D, Position, Option<bool>, &Vec<Position>) -> Option<Vec<bool>>,
    R: Fn(&World3D, Position, Position, GlobalRoutingStrategy, RouteCostModel, &CongestionMap) -> Option<RoutedNet>,
    I: Fn(&World3D) -> World3D,
>(
    rule: &F,
    settle: &S,
    route: &R,
    finish: &I,
    base: World3D,
    config: PathfinderConfig,
    rounds: Seq<Seq<Option<RoutedNet>>>,
    before: Seq<RoutedNet>,
    index: int,
    after: Seq<RoutedNet>,
    taken: bool,
) -> bool {
    exists|answer: Option<RoutedNet>| #[trigger]
        is_answer(
            route,
            base,
            before[index].source,
            before[index].sink,
            config,
            as_options(before).update(index, None),
            rounds,
            answer,
        ) && is_used(rule, settle, finish, base, before, index, answer, after, taken)
}

/// Whether an attempt leads from one moment to the next.
pub open spec fn attempt_follows<
    F: Fn(&World3D, Position, Position) -> bool,
    S: Fn(&World3D, Position, Option<bool>, &Vec<Position>) -> Option<Vec<bool>>,
    R: Fn(&World3D, Position, Position, GlobalRoutingStrategy, RouteCostModel, &CongestionMap) -> Option<RoutedNet>,
    I: Fn(&World3D) -> World3D,
>(
    rule: &F,
    settle: &S,
    route: &R,
    finish: &I,
    base: World3D,
    config: PathfinderConfig,
    rounds: Seq<Seq<Option<RoutedNet>>>,
    index: int,
    before: Moment,
    after: Moment,
) -> bool {
    exists|taken: bool| #[trigger]
        is_attempt(
            rule,
            settle,
            route,
            finish,
            base,
            config,
            rounds,
            before.routes,
            index,
            after.routes,
            taken,
        ) && after.rerouted == before.rerouted + (if taken {
            1int
        } else {
            0
        })
}

/// Whether a net was tried where it may be routed anew and crosses a cell that
/// was used by too many when the round began, and else left alone. `rounds` are
/// the routes at the beginning of each round so far.
pub open spec fn net_follows_at<
    F: Fn(&World3D, Position, Position) -> bool,
    S: Fn(&World3D, Position, Option<bool>, &Vec<Position>) -> Option<Vec<bool>>,
    R: Fn(&World3D, Position, Position, GlobalRoutingStrategy, RouteCostModel, &CongestionMap) -> Option<RoutedNet>,
    I: Fn(&World3D) -> World3D,
>(
    rule: &F,
    settle: &S,
    route: &R,
    finish: &I,
    base: World3D,
    config: PathfinderConfig,
    rounds: Seq<Seq<Option<RoutedNet>>>,
    steps: Seq<Moment>,
    k: int,
) -> bool {
    let net = steps[k].routes[k];
    if may_reroute(net) && crosses_overused(rounds.last(), net.path@) {
        attempt_follows(rule, settle, route, finish, base, config, rounds, k, steps[k], steps[k + 1])
    } else {
        steps[k + 1] == steps[k]
    }
}

/// Whether all nets were tried or left alone, one after the other.
pub open spec fn are_steps<
    F: Fn(&World3D, Position, Position) -> bool,
    S: Fn(&World3D, Position, Option<bool>, &Vec<Position>) -> Option<Vec<bool>>,
    R: Fn(&World3D, Position, Position, GlobalRoutingStrategy, RouteCostModel, &CongestionMap) -> Option<RoutedNet>,
    I: Fn(&World3D) -> World3D,
>(
    rule: &F,
    settle: &S,
    route: &R,
    finish: &I,
    base: World3D,
    config: PathfinderConfig,
    rounds: Seq<Seq<Option<RoutedNet>>>,
    steps: Seq<Moment>,
) -> bool {
    &&& steps.len() > 0
    &&& forall|k: int|
        0 <= k < steps.len() - 1 ==> #[trigger] net_follows_at(
            rule,
            settle,
            route,
            finish,
            base,
            config,
            rounds,
            steps,
            k,
        )
}

/// Whether a round leads from one moment to another.
pub open spec fn is_renegotiation_round<
    F: Fn(&World3D, Position, Position) -> bool,
    S: Fn(&World3D, Position, Option<bool>, &Vec<Position>) -> Option<Vec<bool>>,
    R: Fn(&World3D, Position, Position, GlobalRoutingStrategy, RouteCostModel, &CongestionMap) -> Option<RoutedNet>,
    I: Fn(&World3D) -> World3D,
>(
    rule: &F,
    settle: &S,
    route: &R,
    finish: &I,
    base: World3D,
    config: PathfinderConfig,
    rounds: Seq<Seq<Option<RoutedNet>>>,
    before: Moment,
    after: Moment,
) -> bool {
    exists|steps: Seq<Moment>|
        {
            &&& #[trigger] are_steps(rule, settle, route, finish, base, config, rounds, steps)
            &&& steps.len() == before.routes.len() + 1
            &&& steps[0] == before
            &&& steps.last() == after
        }
}

/// The routes of some moments.
pub open spec fn routes_of(moments: Seq<Moment>) -> Seq<Seq<Option<RoutedNet>>> {
    moments.map_values(|moment: Moment| as_options(moment.routes))
}

/// Whether a round of a run follows from those before, which left a cell that is
/// used by too many.
pub open spec fn renegotiation_follows_at<
    F: Fn(&World3D, Position, Position) -> bool,
    S: Fn(&World3D, Position, Option<bool>, &Vec<Position>) -> Option<Vec<bool>>,
    R: Fn(&World3D, Position, Position, GlobalRoutingStrategy, RouteCostModel, &CongestionMap) -> Option<RoutedNet>,
    I: Fn(&World3D) -> World3D,
>(
    rule: &F,
    settle: &S,
    route: &R,
    finish: &I,
    base: World3D,
    config: PathfinderConfig,
    moments: Seq<Moment>,
    k: int,
) -> bool {
    &&& !is_clean(as_options(moments[k].routes))
    &&& is_renegotiation_round(
        rule,
        settle,
        route,
        finish,
        base,
        config,
        routes_of(moments.take(k + 1)),
        moments[k],
        moments[k + 1],
    )
}

/// Whether moments are those between rounds.
pub open spec fn are_renegotiations<
    F: Fn(&World3D, Position, Position) -> bool,
    S: Fn(&World3D, Position, Option<bool>, &Vec<Position>) -> Option<Vec<bool>>,
    R: Fn(&World3D, Position, Position, GlobalRoutingStrategy, RouteCostModel, &CongestionMap) -> Option<RoutedNet>,
    I: Fn(&World3D) -> World3D,
>(
    rule: &F,
    settle: &S,
    route: &R,
    finish: &I,
    base: World3D,
    config: PathfinderConfig,
    moments: Seq<Moment>,
) -> bool {
    forall|k: int|
        0 <= k < moments.len() - 1 ==> #[trigger] renegotiation_follows_at(
            rule,
            settle,
            route,
            finish,
            base,
            config,
            moments,
            k,
        )
}

/// Whether routes are those of others, in copies.
pub open spec fn are_copies(left: Seq<RoutedNet>, right: Seq<RoutedNet>) -> bool {
    &&& left.len() == right.len()
    &&& forall|i: int|
        0 <= i < left.len() ==> same_course(#[trigger] left[i], right[i]) && same_identity(left[i], right[i])
}

/// Whether an outcome is that of rounds that begin with some routes. There are no
/// more rounds once no cell is used by too many.
pub open spec fn comes_of_rounds<
    F: Fn(&World3D, Position, Position) -> bool,
    S: Fn(&World3D, Position, Option<bool>, &Vec<Position>) -> Option<Vec<bool>>,
    R: Fn(&World3D, Position, Position, GlobalRoutingStrategy, RouteCostModel, &CongestionMap) -> Option<RoutedNet>,
    I: Fn(&World3D) -> World3D,
>(
    rule: &F,
    settle: &S,
    route: &R,
    finish: &I,
    base: World3D,
    config: PathfinderConfig,
    routes: Seq<RoutedNet>,
    outcome: NegotiationOutcome,
) -> bool {
    exists|moments: Seq<Moment>|
        {
            &&& #[trigger] are_renegotiations(rule, settle, route, finish, base, config, moments)
            &&& 1 <= moments.len() <= rounds_of(config) + 1
            &&& are_copies(moments[0].routes, routes)
            &&& moments[0].rerouted == 0
            &&& moments.len() == rounds_of(config) + 1 || is_clean(as_options(moments.last().routes))
            &&& outcome.routes@ == moments.last().routes
            &&& outcome.rerouted == moments.last().rerouted
        }
}

/// What routing nets anew comes to, in rounds. Every route keeps its identity and its ends;
/// each is as it was, or may be routed anew and was. As many cells are overused
/// as more than one route uses.
pub open spec fn is_renegotiated<
    F: Fn(&World3D, Position, Position) -> bool,
    S: Fn(&World3D, Position, Option<bool>, &Vec<Position>) -> Option<Vec<bool>>,
    R: Fn(&World3D, Position, Position, GlobalRoutingStrategy, RouteCostModel, &CongestionMap) -> Option<RoutedNet>,
    I: Fn(&World3D) -> World3D,
>(
    rule: &F,
    settle: &S,
    route: &R,
    finish: &I,
    base: World3D,
    config: PathfinderConfig,
    routes: Seq<RoutedNet>,
    outcome: NegotiationOutcome,
) -> bool {
    &&& comes_of_rounds(rule, settle, route, finish, base, config, routes, outcome)
    &&& outcome.routes@.len() == routes.len()
    &&& forall|i: int|
        0 <= i < routes.len() ==> is_kept_or_rerouted(
            rule,
            settle,
            route,
            finish,
            base,
            config,
            routes[i],
            #[trigger] outcome.routes@[i],
        )
    &&& outcome.rerouted == 0 ==> forall|i: int|
        0 <= i < routes.len() ==> same_course(#[trigger] outcome.routes@[i], routes[i])
    &&& exists|cells: Seq<Position>| #[trigger]
        are_overused(outcome.routes@, cells) && outcome.overused_cells == cells.len()
    &&& (exists|cells: Seq<Position>| #[trigger] are_overused(routes, cells) && cells.len() == 0) ==> outcome.rerouted
        == 0
}

/// Whether a route is as it was, or was routed anew.
pub open spec fn is_kept_or_rerouted<
    F: Fn(&World3D, Position, Position) -> bool,
    S: Fn(&World3D, Position, Option<bool>, &Vec<Position>) -> Option<Vec<bool>>,
    R: Fn(&World3D, Position, Position, GlobalRoutingStrategy, RouteCostModel, &CongestionMap) -> Option<RoutedNet>,
    I: Fn(&World3D) -> World3D,
>(
    rule: &F,
    settle: &S,
    route: &R,
    finish: &I,
    base: World3D,
    config: PathfinderConfig,
    before: RoutedNet,
    after: RoutedNet,
) -> bool {
    &&& same_identity(after, before)
    &&& after.source == before.source
    &&& after.sink == before.sink
    &&& same_course(after, before) || is_rerouted(rule, settle, route, finish, base, config, after)
}

/// Whether cells are those that more than one route uses.
pub open spec fn are_overused(routes: Seq<RoutedNet>, cells: Seq<Position>) -> bool {
    &&& is_sorted(cells)
    &&& forall|cell: Position| #[trigger]
        cells.contains(cell) <==> uses(as_options(routes), cell, routes.len()) > 1
}

/// Whether a map counts the use of every cell by some routes.
spec fn counts_routes(map: CongestionMap, routes: Seq<RoutedNet>) -> bool {
    &&& map.wf()
    &&& forall|cell: Position| #[trigger] map.usage_at(cell) == uses(as_options(routes), cell, routes.len())
}

spec fn within_limit(routes: Seq<RoutedNet>, limit: int) -> bool {
    forall|i: int| 0 <= i < routes.len() ==> (#[trigger] routes[i]).path@.len() <= limit
}

spec fn history_within(map: CongestionMap, most: int) -> bool {
    forall|cell: Position| #[trigger] map.history_at(cell) <= most
}

fn copy_routes(routes: &Vec<RoutedNet>) -> (copy: Vec<RoutedNet>)
    ensures
        copy.len() == routes.len(),
        forall|i: int|
            0 <= i < copy.len() ==> same_course(#[trigger] copy@[i], routes@[i]) && same_identity(copy@[i], routes@[i]),
{
    let mut copy: Vec<RoutedNet> = Vec::new();
    let mut index: usize = 0;
    while index < routes.len()
        invariant
            index <= routes.len(),
            copy.len() == index,
            forall|i: int|
                0 <= i < index ==> same_course(#[trigger] copy@[i], routes@[i]) && same_identity(copy@[i], routes@[i]),
        decreases routes.len() - index,
    {
        copy.push(routes[index].copy());
        index += 1;
    }
    copy
}

/// Equal paths use cells alike.
proof fn same_paths_use(left: Seq<RoutedNet>, right: Seq<RoutedNet>, cell: Position, count: nat)
    requires
        left.len() == right.len(),
        count <= left.len(),
        forall|i: int| 0 <= i < left.len() ==> (#[trigger] left[i]).path@ == right[i].path@,
    ensures
        uses(as_options(left), cell, count) == uses(as_options(right), cell, count),
    decreases count,
{
    if count > 0 {
        same_paths_use(left, right, cell, (count - 1) as nat);
        assert(left[count - 1].path@ == right[count - 1].path@);
    }
}

proof fn options_short(routes: Seq<RoutedNet>, limit: int)
    requires
        within_limit(routes, limit),
    ensures
        are_short(as_options(routes), limit),
{
    assert forall|i: int| 0 <= i < as_options(routes).len() implies ((#[trigger] as_options(routes)[i]) matches Some(
        route,
    ) ==> route.path@.len() <= limit) by {
        assert(routes[i].path@.len() <= limit);
    }
}

/// Counting all routes.
fn count_all(map: &mut CongestionMap, routes: &Vec<RoutedNet>, Ghost(limit): Ghost<int>)
    requires
        old(map).wf(),
        forall|cell: Position| #[trigger] old(map).usage_at(cell) == 0,
        within_limit(routes@, limit),
        limit >= 0,
        routes@.len() * limit <= usize::MAX,
    ensures
        counts_routes(*final(map), routes@),
        final(map).past@ == old(map).past@,
{
    let ghost options = as_options(routes@);
    proof {
        options_short(routes@, limit);
    }
    let mut index: usize = 0;
    while index < routes.len()
        invariant
            index <= routes.len(),
            options == as_options(routes@),
            are_short(options, limit),
            limit >= 0,
            routes@.len() * limit <= usize::MAX,
            map.wf(),
            map.past@ == old(map).past@,
            forall|cell: Position| #[trigger] map.usage_at(cell) == uses(options, cell, index as nat),
        decreases routes.len() - index,
    {
        let ghost before = *map;
        proof {
            assert forall|cell: Position| #[trigger] map.usage_at(cell) + crossings(routes@[index as int].path@, cell)
                <= usize::MAX by {
                assert(map.usage_at(cell) == uses(options, cell, index as nat));
                uses_bound(options, limit, cell, (index + 1) as nat);
                assert((index + 1) * limit <= routes@.len() * limit) by (nonlinear_arith)
                    requires
                        index + 1 <= routes@.len(),
                        limit >= 0,
                ;
            }
        }
        map.add_route(&routes[index].path);
        proof {
            assert forall|cell: Position| #[trigger] map.usage_at(cell) == uses(options, cell, (index + 1) as nat) by {
                assert(before.usage_at(cell) == uses(options, cell, index as nat));
            }
        }
        index += 1;
    }
}

/// Tries to route one net anew. It is put back where there is no route, or where
/// the world with the new route does not hold.
fn reroute_one<
    F: Fn(&World3D, Position, Position) -> bool,
    S: Fn(&World3D, Position, Option<bool>, &Vec<Position>) -> Option<Vec<bool>>,
    R: Fn(&World3D, Position, Position, GlobalRoutingStrategy, RouteCostModel, &CongestionMap) -> Option<RoutedNet>,
    I: Fn(&World3D) -> World3D,
>(
    rule: &F,
    settle: &S,
    route: &R,
    finish: &I,
    base: &World3D,
    config: &PathfinderConfig,
    map: &mut CongestionMap,
    current: &mut Vec<RoutedNet>,
    index: usize,
    Ghost(limit): Ghost<int>,
    Ghost(rounds): Ghost<Seq<Seq<Option<RoutedNet>>>>,
) -> (accepted: bool)
    requires
        is_rule(rule),
        is_settler(settle),
        is_router(route),
        is_finisher(finish),
        base.wf(),
        index < old(current)@.len(),
        counts_routes(*old(map), old(current)@),
        is_map_of(*old(map), as_options(old(current)@), rounds),
        within_limit(old(current)@, limit),
        limit >= longest(),
        old(current)@.len() * limit <= usize::MAX,
    ensures
        counts_routes(*final(map), final(current)@),
        within_limit(final(current)@, limit),
        final(map).past@ == old(map).past@,
        final(current)@.len() == old(current)@.len(),
        forall|i: int| 0 <= i < old(current)@.len() && i != index ==> #[trigger] final(current)@[i] == old(current)@[i],
        !accepted ==> final(current)@ == old(current)@,
        same_identity(final(current)@[index as int], old(current)@[index as int]),
        final(current)@[index as int].source == old(current)@[index as int].source,
        final(current)@[index as int].sink == old(current)@[index as int].sink,
        accepted ==> is_rerouted(rule, settle, route, finish, *base, *config, final(current)@[index as int]),
        is_attempt(
            rule,
            settle,
            route,
            finish,
            *base,
            *config,
            rounds,
            old(current)@,
            index as int,
            final(current)@,
            accepted,
        ),
{
    let ghost before = current@;
    let ghost counted = *map;
    let ghost at = index as int;
    let ghost path = current@[at].path@;
    let ghost bare = as_options(before).update(at, None);
    proof {
        options_short(before, limit);
    }
    map.rip_route(&current[index].path);
    proof {
        assert forall|cell: Position| #[trigger] map.usage_at(cell) == uses(bare, cell, bare.len()) by {
            assert(counted.usage_at(cell) == uses(as_options(before), cell, before.len()));
            uses_update(as_options(before), bare, cell, at, before.len());
            one_is_part(as_options(before), cell, at, before.len());
        }
    }
    let model = negotiated_model(config);
    let answer = route(base, current[index].source, current[index].sink, config.strategy, model, map);
    let ghost asked = *map;
    assert(call_ensures(
        *route,
        (base, before[at].source, before[at].sink, config.strategy, model_of(*config), &asked),
        answer,
    ));
    let ghost reply = answer;
    proof {
        assert forall|cell: Position| #[trigger] asked.history_at(cell) == past_overuse(rounds, cell, rounds.len()) by {
            assert(counted.history_at(cell) == past_overuse(rounds, cell, rounds.len()));
        }
        assert(is_map_of(asked, bare, rounds));
        assert(is_answer(route, *base, before[at].source, before[at].sink, *config, bare, rounds, reply));
    }
    if let Some(found) = answer {
        let ghost given = found;
        let mut net = found;
        net.net_id = current[index].net_id;
        net.source_endpoint = current[index].source_endpoint;
        net.sink_endpoint = current[index].sink_endpoint;
        net.source_label = copy_text(&current[index].source_label);
        net.sink_label = copy_text(&current[index].sink_label);
        let ghost fresh = net;
        assert(same_course(fresh, given));
        let old_net = replace_route(current, index, net);
        let ghost candidate = current@;
        let raw = assemble_world_with_routes_raw(base, current);
        assert(is_assembled(*base, candidate, raw));
        if redstone_supports_are_consistent(&raw) {
            let world = finish(&raw);
            assert(call_ensures(*finish, (&raw,), world));
            if route_power_contract_holds(rule, settle, &world, &world, &current[index]) {
                proof {
                    assert(candidate[at] == fresh);
                    assert(candidate.contains(fresh));
                    assert(is_contract_check(rule, settle, world, world, fresh, true));
                    assert(is_accepted(rule, settle, finish, raw, fresh, true));
                    assert(is_tried(rule, settle, finish, *base, before, at, given, candidate, true));
                    assert(is_used(rule, settle, finish, *base, before, at, reply, candidate, true));
                    assert(is_rerouted(rule, settle, route, finish, *base, *config, fresh));
                    assert forall|i: int| 0 <= i < candidate.len() implies (#[trigger] candidate[i]).path@.len() <= limit by {
                        if i != at {
                            assert(candidate[i] == before[i]);
                        }
                    }
                    options_short(candidate, limit);
                    putting_back(before, candidate, bare, asked, at, limit);
                }
                map.add_route(&current[index].path);
                proof {
                    assert forall|cell: Position| #[trigger] map.usage_at(cell) == uses(
                        as_options(candidate),
                        cell,
                        candidate.len(),
                    ) by {
                        assert(asked.usage_at(cell) + crossings(candidate[at].path@, cell) <= usize::MAX);
                    }
                }
                return true;
            }
            assert(is_accepted(rule, settle, finish, raw, fresh, false));
        }
        let _dropped = replace_route(current, index, old_net);
        assert(current@ =~= before);
        assert(candidate == before.update(at, fresh));
        assert(is_tried(rule, settle, finish, *base, before, at, given, before, false));
        assert(is_used(rule, settle, finish, *base, before, at, reply, before, false));
    }
    assert(is_used(rule, settle, finish, *base, before, at, reply, before, false));
    proof {
        putting_back(before, before, bare, asked, at, limit);
    }
    map.add_route(&current[index].path);
    proof {
        assert forall|cell: Position| #[trigger] map.usage_at(cell) == uses(as_options(before), cell, before.len()) by {
            assert(asked.usage_at(cell) + crossings(before[at].path@, cell) <= usize::MAX);
        }
    }
    false
}

/// Counting a route that took the place of a ripped one.
proof fn putting_back(
    before: Seq<RoutedNet>,
    after: Seq<RoutedNet>,
    bare: Seq<Option<RoutedNet>>,
    map: CongestionMap,
    at: int,
    limit: int,
)
    requires
        before.len() == after.len(),
        0 <= at < before.len(),
        forall|i: int| 0 <= i < before.len() && i != at ==> #[trigger] after[i] == before[i],
        bare == as_options(before).update(at, None),
        are_short(as_options(after), limit),
        limit >= 0,
        after.len() * limit <= usize::MAX,
        forall|cell: Position| #[trigger] map.usage_at(cell) == uses(bare, cell, bare.len()),
    ensures
        forall|cell: Position| #[trigger]
            map.usage_at(cell) + crossings(after[at].path@, cell) <= usize::MAX && uses(
                as_options(after),
                cell,
                after.len(),
            ) == map.usage_at(cell) + crossings(after[at].path@, cell),
{
    assert forall|cell: Position| #[trigger] map.usage_at(cell) + crossings(after[at].path@, cell) <= usize::MAX && uses(
        as_options(after),
        cell,
        after.len(),
    ) == map.usage_at(cell) + crossings(after[at].path@, cell) by {
        assert(map.usage_at(cell) == uses(bare, cell, bare.len()));
        assert forall|i: int| 0 <= i < bare.len() && i != at implies #[trigger] bare[i] == as_options(after)[i] by {
            assert(after[i] == before[i]);
        }
        uses_update(bare, as_options(after), cell, at, after.len());
        uses_bound(as_options(after), limit, cell, after.len());
    }
}

fn copy_text(text: &Option<String>) -> (copy: Option<String>)
    ensures
        copy == *text,
{
    match text {
        Some(text) => Some(text.clone()),
        None => None,
    }
}

/// Puts a route into a list and returns the one that it replaces.
fn replace_route(routes: &mut Vec<RoutedNet>, index: usize, net: RoutedNet) -> (replaced: RoutedNet)
    requires
        index < old(routes)@.len(),
    ensures
        final(routes)@ == old(routes)@.update(index as int, net),
        replaced == old(routes)@[index as int],
{
    let ghost before = routes@;
    routes.push(net);
    let replaced = routes.swap_remove(index);
    assert(routes@ =~= before.update(index as int, net));
    replaced
}

/// Routes nets anew that cross cells that others use, and that ask for power at
/// their sink alone. A new route is kept only where the world with it holds.
pub fn negotiate_routed_nets<
    F: Fn(&World3D, Position, Position) -> bool,
    S: Fn(&World3D, Position, Option<bool>, &Vec<Position>) -> Option<Vec<bool>>,
    R: Fn(&World3D, Position, Position, GlobalRoutingStrategy, RouteCostModel, &CongestionMap) -> Option<RoutedNet>,
    I: Fn(&World3D) -> World3D,
>(
    rule: &F,
    settle: &S,
    route: &R,
    finish: &I,
    base: &World3D,
    routes: &Vec<RoutedNet>,
    config: &PathfinderConfig,
) -> (outcome: NegotiationOutcome)
    requires
        is_rule(rule),
        is_settler(settle),
        is_router(route),
        is_finisher(finish),
        base.wf(),
        reroutes_fit(routes@, rounds_of(*config)),
    ensures
        is_renegotiated(rule, settle, route, finish, *base, *config, routes@, outcome),
{
    let ghost given = routes@;
    let ghost limit = longest_of(given, given.len());
    let ghost most = given.len() * limit;
    let count: usize = routes.len();
    let rounds: usize = if config.max_iterations == 0 {
        1
    } else {
        config.max_iterations
    };
    proof {
        longest_bounds(given, given.len());
        assert((rounds + 1) * most >= most) by (nonlinear_arith)
            requires
                most >= 0,
                rounds >= 0,
        ;
        assert(most >= 0) by (nonlinear_arith)
            requires
                most == given.len() * limit,
                limit >= 0,
        ;
    }
    let mut current = copy_routes(routes);
    let mut map = CongestionMap::new();
    let ghost empty = map;
    count_all(&mut map, &current, Ghost(limit));
    let mut rerouted: usize = 0;
    let mut round: usize = 0;
    let ghost clean = exists|cells: Seq<Position>| #[trigger] are_overused(given, cells) && cells.len() == 0;
    proof {
        assert forall|cell: Position| #[trigger] map.history_at(cell) <= 0 * most by {
            assert(0 * most == 0);
            assert(empty.history_at(cell) == 0);
        }
        assert forall|i: int| 0 <= i < given.len() implies is_kept_or_rerouted(
            rule,
            settle,
            route,
            finish,
            *base,
            *config,
            given[i],
            #[trigger] current@[i],
        ) by {
            assert(same_course(current@[i], given[i]) && same_identity(current@[i], given[i]));
        }
    }
    let ghost begun = current@;
    let mut done = false;
    let ghost mut moments: Seq<Moment> = seq![Moment { routes: begun, rerouted: 0 }];
    proof {
        assert(are_renegotiations(rule, settle, route, finish, *base, *config, moments));
        assert(routes_of(moments.take(0)) =~= Seq::<Seq<Option<RoutedNet>>>::empty());
        assert(is_map_of(map, as_options(current@), routes_of(moments.take(0))));
    }
    while round < rounds && !done
        invariant
            is_rule(rule),
            is_settler(settle),
            is_router(route),
            is_finisher(finish),
            base.wf(),
            rounds == rounds_of(*config),
            round <= rounds,
            given == routes@,
            count == given.len(),
            current@.len() == count,
            most == count * limit,
            most >= 0,
            (rounds + 1) * most <= usize::MAX,
            rounds * count <= usize::MAX,
            limit >= longest(),
            within_limit(current@, limit),
            counts_routes(map, current@),
            history_within(map, round * most),
            is_map_of(map, as_options(current@), routes_of(moments.take(round as int))),
            moments.len() == round + 1,
            moments.last() == (Moment { routes: current@, rerouted: rerouted as int }),
            moments[0] == (Moment { routes: begun, rerouted: 0 }),
            are_renegotiations(rule, settle, route, finish, *base, *config, moments),
            done ==> is_clean(as_options(current@)),
            rerouted <= round * count,
            begun.len() == count,
            forall|i: int| 0 <= i < count ==> same_course(#[trigger] begun[i], given[i]),
            rerouted == 0 ==> current@ == begun,
            clean == (exists|cells: Seq<Position>| #[trigger] are_overused(given, cells) && cells.len() == 0),
            clean ==> rerouted == 0,
            forall|i: int|
                0 <= i < count ==> is_kept_or_rerouted(
                    rule,
                    settle,
                    route,
                    finish,
                    *base,
                    *config,
                    given[i],
                    #[trigger] current@[i],
                ),
        decreases rounds - round, (if done { 0int } else { 1int }),
    {
        let overused = map.overused_cells();
        if overused.len() == 0 {
            done = true;
            proof {
                assert forall|cell: Position| #[trigger] uses(as_options(current@), cell, as_options(current@).len()) <= 1 by {
                    assert(map.usage_at(cell) == uses(as_options(current@), cell, current@.len()));
                    assert(!overused@.contains(cell));
                }
            }
        } else {
            let ghost known = map;
            let ghost start = current@;
            let ghost earlier = routes_of(moments.take(round as int));
            let ghost now = routes_of(moments.take(round + 1));
            proof {
                assert(now =~= earlier.push(as_options(start)));
                let crowded = overused@[0];
                assert(overused@.contains(crowded));
                assert(map.usage_at(crowded) == uses(as_options(start), crowded, start.len()));
                assert(!is_clean(as_options(start)));
                options_short(current@, limit);
                assert forall|cell: Position| #[trigger] map.history_at(cell) + map.overuse_at(cell) <= (round + 1) * most by {
                    assert(map.history_at(cell) <= round * most);
                    assert(map.usage_at(cell) == uses(as_options(current@), cell, current@.len()));
                    uses_bound(as_options(current@), limit, cell, current@.len());
                    assert((round + 1) * most == round * most + most) by (nonlinear_arith);
                }
                assert((round + 1) * most <= (rounds + 1) * most) by (nonlinear_arith)
                    requires
                        round + 1 <= rounds + 1,
                        most >= 0,
                ;
                if clean && rerouted == 0 {
                    let cells = choose|cells: Seq<Position>| #[trigger] are_overused(given, cells) && cells.len() == 0;
                    let cell = overused@[0];
                    assert(overused@.contains(cell));
                    assert(map.usage_at(cell) == uses(as_options(current@), cell, current@.len()));
                    assert forall|i: int| 0 <= i < given.len() implies (#[trigger] current@[i]).path@ == given[i].path@ by {
                        assert(same_course(begun[i], given[i]));
                    }
                    same_paths_use(current@, given, cell, given.len());
                    assert(cells.contains(cell));
                }
            }
            map.commit_iteration();
            proof {
                assert forall|cell: Position| #[trigger] map.history_at(cell) <= (round + 1) * most by {
                    assert(known.history_at(cell) + known.overuse_at(cell) <= (round + 1) * most);
                }
                assert forall|cell: Position| #[trigger] map.usage_at(cell) == uses(
                    as_options(current@),
                    cell,
                    current@.len(),
                ) by {
                    assert(known.usage_at(cell) == uses(as_options(current@), cell, current@.len()));
                    assert(map.used@ == known.used@);
                }
                assert forall|cell: Position| #[trigger] map.history_at(cell) == past_overuse(now, cell, now.len()) by {
                    assert(known.history_at(cell) == past_overuse(earlier, cell, earlier.len()));
                    assert(known.usage_at(cell) == uses(as_options(start), cell, start.len()));
                    past_is_past(earlier, as_options(start), cell, earlier.len());
                    assert(now[earlier.len() as int] == as_options(start));
                }
                assert((round + 1) * count == round * count + count) by (nonlinear_arith);
                assert((round + 1) * count <= rounds * count) by (nonlinear_arith)
                    requires
                        round + 1 <= rounds,
                        count >= 0,
                ;
                assert((rounds + 1) * most >= most) by (nonlinear_arith)
                    requires
                        most >= 0,
                        rounds >= 0,
                ;
            }
            let mut index: usize = 0;
            let ghost mut steps: Seq<Moment> = seq![Moment { routes: start, rerouted: rerouted as int }];
            while index < count
                invariant
                    is_map_of(map, as_options(current@), now),
                    now.len() > 0,
                    now.last() == as_options(start),
                    start.len() == count,
                    forall|cell: Position| #[trigger]
                        overused@.contains(cell) <==> uses(as_options(start), cell, as_options(start).len()) > 1,
                    steps.len() == index + 1,
                    steps[0] == moments.last(),
                    steps.last() == (Moment { routes: current@, rerouted: rerouted as int }),
                    are_steps(rule, settle, route, finish, *base, *config, now, steps),
                    is_rule(rule),
                    is_settler(settle),
                    is_router(route),
                    is_finisher(finish),
                    base.wf(),
                    !clean,
                    index <= count,
                    count == given.len(),
                    current@.len() == count,
                    most == count * limit,
                    most <= usize::MAX,
                    limit >= longest(),
                    within_limit(current@, limit),
                    counts_routes(map, current@),
                    history_within(map, (round + 1) * most),
                    rerouted <= round * count + index,
                    round * count + count <= usize::MAX,
                    rerouted == 0 ==> current@ == begun,
                    forall|i: int|
                        0 <= i < count ==> is_kept_or_rerouted(
                            rule,
                            settle,
                            route,
                            finish,
                            *base,
                            *config,
                            given[i],
                            #[trigger] current@[i],
                        ),
                decreases count - index,
            {
                let ghost was = steps.last();
                if is_negotiable(&current[index]) && crosses(&current[index].path, &overused) {
                    let ghost before = current@;
                    let ghost past = map;
                    let accepted = reroute_one(
                        rule,
                        settle,
                        route,
                        finish,
                        base,
                        config,
                        &mut map,
                        &mut current,
                        index,
                        Ghost(limit),
                        Ghost(now),
                    );
                    if accepted {
                        rerouted += 1;
                    }
                    proof {
                        assert forall|cell: Position| #[trigger] map.history_at(cell) <= (round + 1) * most by {
                            assert(past.history_at(cell) <= (round + 1) * most);
                        }
                        assert forall|cell: Position| #[trigger] map.history_at(cell) == past_overuse(
                            now,
                            cell,
                            now.len(),
                        ) by {
                            assert(past.history_at(cell) == past_overuse(now, cell, now.len()));
                        }
                        let then = Moment { routes: current@, rerouted: rerouted as int };
                        assert(was.routes == before);
                        assert(is_attempt(
                            rule,
                            settle,
                            route,
                            finish,
                            *base,
                            *config,
                            now,
                            was.routes,
                            index as int,
                            then.routes,
                            accepted,
                        ));
                        assert(attempt_follows(
                            rule,
                            settle,
                            route,
                            finish,
                            *base,
                            *config,
                            now,
                            index as int,
                            was,
                            then,
                        ));
                        assert forall|i: int| 0 <= i < count implies is_kept_or_rerouted(
                            rule,
                            settle,
                            route,
                            finish,
                            *base,
                            *config,
                            given[i],
                            #[trigger] current@[i],
                        ) by {
                            assert(is_kept_or_rerouted(
                                rule,
                                settle,
                                route,
                                finish,
                                *base,
                                *config,
                                given[i],
                                before[i],
                            ));
                            if i != index {
                                assert(current@[i] == before[i]);
                            }
                        }
                    }
                }
                proof {
                    let more = steps.push(Moment { routes: current@, rerouted: rerouted as int });
                    assert(more[index as int] == was);
                    assert(more[index + 1] == more.last());
                    assert forall|k: int| 0 <= k < more.len() - 1 implies #[trigger] net_follows_at(
                        rule,
                        settle,
                        route,
                        finish,
                        *base,
                        *config,
                        now,
                        more,
                        k,
                    ) by {
                        if k < index {
                            assert(net_follows_at(rule, settle, route, finish, *base, *config, now, steps, k));
                            assert(more[k] == steps[k] && more[k + 1] == steps[k + 1]);
                        }
                    }
                    steps = more;
                }
                index += 1;
            }
            proof {
                let next = Moment { routes: current@, rerouted: rerouted as int };
                let more = moments.push(next);
                assert(is_renegotiation_round(
                    rule,
                    settle,
                    route,
                    finish,
                    *base,
                    *config,
                    now,
                    moments.last(),
                    next,
                ));
                assert forall|k: int| 0 <= k < more.len() - 1 implies #[trigger] renegotiation_follows_at(
                    rule,
                    settle,
                    route,
                    finish,
                    *base,
                    *config,
                    more,
                    k,
                ) by {
                    assert(more.take(k + 1) =~= moments.take(k + 1));
                    assert(more[k] == moments[k]);
                    if k < moments.len() - 1 {
                        assert(renegotiation_follows_at(rule, settle, route, finish, *base, *config, moments, k));
                        assert(more[k + 1] == moments[k + 1]);
                    }
                }
                assert(routes_of(more.take(round + 1)) =~= now) by {
                    assert(more.take(round + 1) =~= moments.take(round + 1));
                }
                moments = more;
            }
            round += 1;
        }
    }
    let cells = map.overused_cells();
    let overused: usize = cells.len();
    proof {
        assert forall|cell: Position| #[trigger] cells@.contains(cell) <==> uses(
            as_options(current@),
            cell,
            current@.len(),
        ) > 1 by {
            assert(map.usage_at(cell) == uses(as_options(current@), cell, current@.len()));
        }
        assert(are_overused(current@, cells@));
    }
    let outcome = NegotiationOutcome { routes: current, rerouted, overused_cells: overused };
    assert(comes_of_rounds(rule, settle, route, finish, *base, *config, given, outcome));
    outcome
}

} // verus!

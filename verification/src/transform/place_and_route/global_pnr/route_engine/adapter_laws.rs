//! How adapters and the ways out of an output stand.

use super::adapter::{
    adapter_touches, driver_part, is_put, is_supported, just, near_driver, near_repeater, plain_repeater,
    repeater_part, support_part, AdapterSite,
};
use super::contacts::touches_other_signal;
use super::engine::is_fresh;
use super::escape::{
    are_adapters, are_escapes, are_ways_out, built, current_dust, escape_follows_at, escape_steps, is_dust_step,
    is_escape_run, is_taken_up, is_tried, lead_through, leave_through, EscapeMoment, EscapeTask,
};
use super::search::PlaceRequest;
use super::state::{starting_strength, PlaceBound, RouteSearchState};
use super::contacts::are_own_signals;
use crate::transform::place_and_route::global_pnr::candidate::plain_dust;
use crate::transform::place_and_route::global_pnr::dust::says;
use super::state::is_signal;
use crate::world::block::Block;
use crate::world::grid::World3D;
use crate::world::position::{
    distance, in_bounds, is_beside, neighbour, opposite, step_towards, Direction, Position,
};
use vstd::prelude::*;

verus! {

/// Whether three cells lie in a row, on a level.
pub open spec fn in_a_row(first: Position, second: Position, third: Position) -> bool {
    &&& first.2 == second.2 == third.2
    &&& second.0 - first.0 == third.0 - second.0
    &&& second.1 - first.1 == third.1 - second.1
    &&& distance(first, second) == 1
}

/// Whether an adapter stands behind an output, as it was built: a repeater beside
/// the output and dust behind it, in a row, both in cells that were free. The
/// output powers the repeater, and that the dust, when each of them was put there.
pub open spec fn stands_behind<
    F: Fn(&World3D, Position, Position) -> bool,
    P: Fn(&World3D, Position, Block, &Vec<Position>) -> Option<World3D>,
>(
    rule: &F,
    put: &P,
    world: World3D,
    source: Position,
    additional: Seq<Position>,
    repeater: Position,
    dust: Position,
    after: World3D,
    ready: World3D,
    halfway: World3D,
) -> bool {
    &&& in_a_row(source, repeater, dust)
    &&& in_bounds(world.size, repeater)
    &&& in_bounds(world.size, dust)
    &&& world.at(repeater).kind is Air
    &&& world.at(dust).kind is Air
    &&& is_put_there(put, ready, source, repeater, halfway)
    &&& says(rule, halfway, source, repeater)
    &&& is_clear(rule, world, source, additional, seq![source, repeater], halfway, repeater)
    &&& is_dust_put(put, halfway, dust, after)
    &&& says(rule, after, repeater, dust)
    &&& is_clear(rule, world, source, additional, seq![source, repeater, dust], after, dust)
}

/// Whether a block touches no signal of a world but that of its source, and those
/// in cells that it may touch: it powers none of the others, and none of them
/// powers it.
pub open spec fn is_clear<F: Fn(&World3D, Position, Position) -> bool>(
    rule: &F,
    world: World3D,
    source: Position,
    additional: Seq<Position>,
    row: Seq<Position>,
    after: World3D,
    cell: Position,
) -> bool {
    exists|own: Seq<Position>|
        {
            &&& #[trigger] are_own_signals(rule, world, source, own)
            &&& forall|i: int|
                {
                    &&& 0 <= i < world.listed().len()
                    &&& is_signal((#[trigger] world.listed()[i]).1.kind)
                    &&& !additional.contains(world.listed()[i].0)
                    &&& !row.contains(world.listed()[i].0)
                    &&& !own.contains(world.listed()[i].0)
                } ==> !says(rule, after, cell, world.listed()[i].0) && !says(rule, after, world.listed()[i].0, cell)
        }
}

/// Whether a world is another into which a repeater was put that takes its signal
/// from a cell.
pub open spec fn is_put_there<P: Fn(&World3D, Position, Block, &Vec<Position>) -> Option<World3D>>(
    put: &P,
    world: World3D,
    source: Position,
    cell: Position,
    after: World3D,
) -> bool {
    exists|block: Block, allowed: Vec<Position>| #[trigger]
        call_ensures(*put, (&world, cell, block, &allowed), Some(after)) && block.kind is Repeater && neighbour(
            cell,
            block.direction,
        ) == Some(source)
}

/// Whether a world is another into which dust was put.
pub open spec fn is_dust_put<P: Fn(&World3D, Position, Block, &Vec<Position>) -> Option<World3D>>(
    put: &P,
    world: World3D,
    cell: Position,
    after: World3D,
) -> bool {
    exists|block: Block, allowed: Vec<Position>| #[trigger]
        call_ensures(*put, (&world, cell, block, &allowed), Some(after)) && block.kind is Redstone
}

/// Whether an adapter leads from an output to a cell.
pub open spec fn leads_behind<
    F: Fn(&World3D, Position, Position) -> bool,
    P: Fn(&World3D, Position, Block, &Vec<Position>) -> Option<World3D>,
>(
    rule: &F,
    put: &P,
    world: World3D,
    source: Position,
    additional: Seq<Position>,
    after: World3D,
    dust: Position,
) -> bool {
    exists|repeater: Position, ready: World3D, halfway: World3D| #[trigger]
        stands_behind(rule, put, world, source, additional, repeater, dust, after, ready, halfway)
}

proof fn part_is_clear<F: Fn(&World3D, Position, Position) -> bool>(
    rule: &F,
    site: AdapterSite,
    after: World3D,
    local: Seq<Position>,
    cell: Position,
)
    requires
        adapter_touches(rule, site.world, after, site.source, site.additional, local, cell, false),
    ensures
        is_clear(rule, site.world, site.source, site.additional, local, after, cell),
{
    let cells = choose|cells: Seq<Position>| #[trigger]
        super::adapter::are_adapter_contacts(rule, site.world, site.source, site.additional, local, cells)
            && !touches_other_signal(rule, site.world, after, cell, cells);
    let own = choose|own: Seq<Position>| #[trigger]
        are_own_signals(rule, site.world, site.source, own) && forall|cell: Position| #[trigger]
            cells.contains(cell) <==> site.additional.contains(cell) || local.contains(cell) || own.contains(cell);
    assert(are_own_signals(rule, site.world, site.source, own));
    let blocks = site.world.listed();
    assert forall|i: int|
        {
            &&& 0 <= i < blocks.len()
            &&& is_signal((#[trigger] blocks[i]).1.kind)
            &&& !site.additional.contains(blocks[i].0)
            &&& !local.contains(blocks[i].0)
            &&& !own.contains(blocks[i].0)
        } implies !says(rule, after, cell, blocks[i].0) && !says(rule, after, blocks[i].0, cell) by {
        assert(!cells.contains(blocks[i].0));
    }
}

/// An adapter that is built in a cell beside an output leads away from it: its
/// repeater is in that cell and its dust behind it, in a row, each powered by what
/// is before it.
pub proof fn adapter_leads_away<
    F: Fn(&World3D, Position, Position) -> bool,
    P: Fn(&World3D, Position, Block, &Vec<Position>) -> Option<World3D>,
>(
    rule: &F,
    put: &P,
    world: World3D,
    source: Position,
    additional: Seq<Position>,
    cell: Position,
    outcome: (World3D, Position),
)
    requires
        is_tried(rule, put, world, source, additional, cell, Some(outcome)),
        is_beside(source, cell),
    ensures
        leads_behind(rule, put, world, source, additional, outcome.0, outcome.1),
        in_a_row(source, cell, outcome.1),
{
    let direction = opposite(step_towards(source, cell));
    let driver = neighbour(cell, opposite(direction))->0;
    let first = neighbour(cell, Direction::Bottom)->0;
    let second = neighbour(driver, Direction::Bottom)->0;
    let site = AdapterSite { world, source, repeater: cell, direction, additional, driver };
    let result = Some(outcome);
    assert(support_part(rule, put, site, first, second, result));
    let (start, one) = choose|start: World3D, one: Option<World3D>| #[trigger]
        is_supported(put, start, first, one) && crate::world::grid::same_world(start, site.world) && match one {
            None => result is None,
            Some(world) => exists|two: Option<World3D>| #[trigger]
                is_supported(put, world, second, two) && match two {
                    None => result is None,
                    Some(world) => repeater_part(rule, put, site, world, result),
                },
        };
    let two = choose|two: Option<World3D>| #[trigger]
        is_supported(put, one->0, second, two) && match two {
            None => result is None,
            Some(world) => repeater_part(rule, put, site, world, result),
        };
    let ready = two->0;
    assert(repeater_part(rule, put, site, ready, result));
    let halfway = choose|after: Option<World3D>| #[trigger]
        is_put(put, ready, site.repeater, plain_repeater(site.direction, 1), just(site.source), after) && match after {
            None => result is None,
            Some(built) => says(rule, built, site.source, site.repeater) && driver_part(rule, put, site, built, result)
                && adapter_touches(
                rule,
                site.world,
                built,
                site.source,
                site.additional,
                near_repeater(site),
                site.repeater,
                false,
            ),
        };
    let half = halfway->0;
    assert(driver_part(rule, put, site, half, result));
    let last = choose|after: Option<World3D>| #[trigger]
        is_put(put, half, site.driver, plain_dust(), just(site.repeater), after) && match after {
            None => result is None,
            Some(built) => says(rule, built, site.repeater, site.driver) && result == Some((built, site.driver))
                && adapter_touches(
                rule,
                site.world,
                built,
                site.source,
                site.additional,
                near_driver(site),
                site.driver,
                false,
            ),
        };
    let one_list = choose|cells: Vec<Position>| #[trigger]
        call_ensures(*put, (&ready, site.repeater, plain_repeater(site.direction, 1), &cells), halfway);
    let other_list = choose|cells: Vec<Position>| #[trigger]
        call_ensures(*put, (&half, site.driver, plain_dust(), &cells), last);
    crate::world::position::step_reaches_neighbour(cell, source);
    assert(is_put_there(put, ready, source, cell, half));
    part_is_clear(rule, site, half, near_repeater(site), cell);
    part_is_clear(rule, site, outcome.0, near_driver(site), driver);
    assert(is_dust_put(put, half, driver, outcome.0));
    assert(stands_behind(rule, put, world, source, additional, cell, driver, outcome.0, ready, half));
}

// ---------------------------------------------------------------------------
// Ways out
// ---------------------------------------------------------------------------
/// Whether dust leads away from a cell in at most four steps, and its signal has
/// lost one for each of them and is not lost.
pub open spec fn is_dust_from(seed: Position, strength: usize, state: RouteSearchState) -> bool {
    let route = state.route@;
    &&& 1 <= route.len() <= 5
    &&& route[0] == seed
    &&& route.last() == state.terminal
    &&& state.signal_strength + route.len() == strength + 1
    &&& route.len() > 1 ==> state.signal_strength >= 1
}

/// Whether a way out of a cell leads along dust, or none, and through an adapter at
/// its end, behind which the signal is fresh.
pub open spec fn is_way_out<
    F: Fn(&World3D, Position, Position) -> bool,
    P: Fn(&World3D, Position, Block, &Vec<Position>) -> Option<World3D>,
>(
    rule: &F,
    put: &P,
    seed: Position,
    strength: usize,
    contacts: Seq<Position>,
    dust: RouteSearchState,
    route: RouteSearchState,
) -> bool {
    &&& is_dust_from(seed, strength, dust)
    &&& route.route@ == dust.route@.push(route.terminal)
    &&& leads_behind(rule, put, dust.world, dust.terminal, contacts, route.world, route.terminal)
    &&& route.signal_strength == 15
    &&& route.powered_taps@.len() > 0
    &&& route.powered_taps@.last().position == route.terminal
    &&& route.powered_taps@.last().strength == 15
    &&& route.pending_bounds is None
}

/// Whether a route is a way out of a cell.
pub open spec fn leads_out<
    F: Fn(&World3D, Position, Position) -> bool,
    P: Fn(&World3D, Position, Block, &Vec<Position>) -> Option<World3D>,
>(rule: &F, put: &P, seed: Position, strength: usize, contacts: Seq<Position>, route: RouteSearchState) -> bool {
    exists|dust: RouteSearchState| #[trigger] is_way_out(rule, put, seed, strength, contacts, dust, route)
}

spec fn all_lead_out<
    F: Fn(&World3D, Position, Position) -> bool,
    P: Fn(&World3D, Position, Block, &Vec<Position>) -> Option<World3D>,
>(rule: &F, put: &P, seed: Position, strength: usize, contacts: Seq<Position>, routes: Seq<RouteSearchState>) -> bool {
    forall|i: int| 0 <= i < routes.len() ==> leads_out(rule, put, seed, strength, contacts, #[trigger] routes[i])
}

spec fn escape_holds<
    F: Fn(&World3D, Position, Position) -> bool,
    P: Fn(&World3D, Position, Block, &Vec<Position>) -> Option<World3D>,
>(rule: &F, put: &P, seed: Position, strength: usize, contacts: Seq<Position>, moment: EscapeMoment) -> bool {
    &&& forall|i: int| 0 <= i < moment.queue.len() ==> is_dust_from(seed, strength, #[trigger] moment.queue[i])
    &&& all_lead_out(rule, put, seed, strength, contacts, moment.found)
    &&& 0 <= moment.head <= moment.queue.len()
    &&& 0 <= moment.next
    &&& moment.bounds.len() > 0 ==> moment.head > 0 && moment.queue[moment.head - 1].route@.len() <= 4
        && moment.queue[moment.head - 1].signal_strength >= 2
}

proof fn built_was_tried(outcomes: Seq<Option<(World3D, Position)>>, k: int) -> (at: int)
    requires
        0 <= k < built(outcomes).len(),
    ensures
        0 <= at < outcomes.len(),
        outcomes[at] == Some(built(outcomes)[k]),
    decreases outcomes.len(),
{
    let rest = built(outcomes.drop_last());
    if k < rest.len() {
        let at = built_was_tried(outcomes.drop_last(), k);
        assert(outcomes.drop_last()[at] == outcomes[at]);
        at
    } else {
        outcomes.len() - 1
    }
}

proof fn built_leads_behind<
    F: Fn(&World3D, Position, Position) -> bool,
    P: Fn(&World3D, Position, Block, &Vec<Position>) -> Option<World3D>,
>(
    rule: &F,
    put: &P,
    world: World3D,
    source: Position,
    contacts: Seq<Position>,
    cells: Seq<Position>,
    outcomes: Seq<Option<(World3D, Position)>>,
    k: int,
)
    requires
        are_adapters(rule, put, world, source, contacts, cells, outcomes),
        0 <= k < built(outcomes).len(),
    ensures
        leads_behind(rule, put, world, source, contacts, built(outcomes)[k].0, built(outcomes)[k].1),
{
    let at = built_was_tried(outcomes, k);
    assert(is_tried(rule, put, world, source, contacts, cells[at], outcomes[at]));
    assert(cells.contains(cells[at]));
    adapter_leads_away(rule, put, world, source, contacts, cells[at], built(outcomes)[k]);
}

proof fn taking_up_holds<
    F: Fn(&World3D, Position, Position) -> bool,
    B: Fn(&World3D, Position) -> Vec<PlaceBound>,
    P: Fn(&World3D, Position, Block, &Vec<Position>) -> Option<World3D>,
>(
    rule: &F,
    spread: &B,
    put: &P,
    task: EscapeTask,
    seed: Position,
    strength: usize,
    before: EscapeMoment,
    after: EscapeMoment,
)
    requires
        escape_holds(rule, put, seed, strength, task.contacts, before),
        before.head < before.queue.len(),
        is_taken_up(rule, spread, put, task, before, after),
    ensures
        escape_holds(rule, put, seed, strength, task.contacts, after),
{
    let state = before.queue[before.head];
    assert(is_dust_from(seed, strength, state));
    if escape_steps(state) > 0 {
        let (cells, outcomes, routes) = choose|
            cells: Seq<Position>,
            outcomes: Seq<Option<(World3D, Position)>>,
            routes: Seq<RouteSearchState>,
        |
            {
                &&& #[trigger] are_adapters(rule, put, state.world, state.terminal, task.contacts, cells, outcomes)
                &&& #[trigger] lead_through(state, built(outcomes), routes)
                &&& after.found == before.found + routes
            };
        assert forall|i: int| 0 <= i < after.found.len() implies leads_out(
            rule,
            put,
            seed,
            strength,
            task.contacts,
            #[trigger] after.found[i],
        ) by {
            if i < before.found.len() {
                assert(after.found[i] == before.found[i]);
            } else {
                let k = i - before.found.len();
                let route = routes[k];
                assert(after.found[i] == route);
                built_leads_behind(rule, put, state.world, state.terminal, task.contacts, cells, outcomes, k);
                assert(is_way_out(rule, put, seed, strength, task.contacts, state, route));
            }
        }
    }
}

proof fn stepping_holds<
    F: Fn(&World3D, Position, Position) -> bool,
    L: Fn(&World3D, &PlaceRequest) -> Option<(World3D, Position)>,
    P: Fn(&World3D, Position, Block, &Vec<Position>) -> Option<World3D>,
>(
    rule: &F,
    place: &L,
    put: &P,
    task: EscapeTask,
    seed: Position,
    strength: usize,
    before: EscapeMoment,
    after: EscapeMoment,
)
    requires
        escape_holds(rule, put, seed, strength, task.contacts, before),
        before.next < before.bounds.len(),
        is_dust_step(rule, place, task, before, after),
    ensures
        escape_holds(rule, put, seed, strength, task.contacts, after),
{
    let state = current_dust(before);
    assert(is_dust_from(seed, strength, before.queue[before.head - 1]));
    if after.queue != before.queue {
        let last = after.queue.last();
        assert(after.queue == before.queue.push(last));
        assert(last.route@ == state.route@.push(last.terminal));
        assert(last.route@[0] == state.route@[0]);
        assert forall|i: int| 0 <= i < after.queue.len() implies is_dust_from(seed, strength, #[trigger] after.queue[i]) by {
            if i < before.queue.len() {
                assert(after.queue[i] == before.queue[i]);
            }
        }
    }
}

proof fn escape_run_holds<
    F: Fn(&World3D, Position, Position) -> bool,
    B: Fn(&World3D, Position) -> Vec<PlaceBound>,
    L: Fn(&World3D, &PlaceRequest) -> Option<(World3D, Position)>,
    P: Fn(&World3D, Position, Block, &Vec<Position>) -> Option<World3D>,
>(
    rule: &F,
    spread: &B,
    place: &L,
    put: &P,
    task: EscapeTask,
    start: RouteSearchState,
    run: Seq<EscapeMoment>,
    seed: Position,
    strength: usize,
    k: int,
)
    requires
        is_escape_run(rule, spread, place, put, task, start, run),
        is_dust_from(seed, strength, start),
        0 <= k < run.len(),
    ensures
        escape_holds(rule, put, seed, strength, task.contacts, run[k]),
    decreases k,
{
    if k > 0 {
        escape_run_holds(rule, spread, place, put, task, start, run, seed, strength, k - 1);
        assert(escape_follows_at(rule, spread, place, put, task, run, k));
        let before = run[k - 1];
        if before.next < before.bounds.len() {
            stepping_holds(rule, place, put, task, seed, strength, before, run[k]);
        } else {
            taking_up_holds(rule, spread, put, task, seed, strength, before, run[k]);
        }
    }
}

/// Each way out of a cell begins there, leads along at most four cells of dust, and
/// ends behind an adapter that stands at the end of the dust and is powered from
/// there; behind it the signal is fresh.
pub proof fn ways_out_lead_out<
    F: Fn(&World3D, Position, Position) -> bool,
    B: Fn(&World3D, Position) -> Vec<PlaceBound>,
    L: Fn(&World3D, &PlaceRequest) -> Option<(World3D, Position)>,
    P: Fn(&World3D, Position, Block, &Vec<Position>) -> Option<World3D>,
>(
    rule: &F,
    spread: &B,
    place: &L,
    put: &P,
    world: World3D,
    seed: Position,
    sink: Position,
    contacts: Seq<Position>,
    routes: Seq<RouteSearchState>,
    i: int,
)
    requires
        are_ways_out(rule, spread, place, put, world, seed, sink, contacts, routes),
        0 <= i < routes.len(),
    ensures
        leads_out(rule, put, seed, starting_strength(world.at(seed).kind), contacts, routes[i]),
{
    let strength = starting_strength(world.at(seed).kind);
    let (cells, outcomes, near, far) = choose|
        cells: Seq<Position>,
        outcomes: Seq<Option<(World3D, Position)>>,
        near: Seq<RouteSearchState>,
        far: Seq<RouteSearchState>,
    |
        {
            &&& #[trigger] are_adapters(rule, put, world, seed, contacts, cells, outcomes)
            &&& #[trigger] leave_through(seed, built(outcomes), near)
            &&& #[trigger] are_escapes(rule, spread, place, put, world, seed, sink, contacts, far)
            &&& routes == near + far
        };
    let goal = super::goal::goal_of(world, sink);
    let (start, foreign, run) = choose|start: RouteSearchState, foreign: Seq<Position>, run: Seq<EscapeMoment>|
        {
            &&& #[trigger] super::contacts::are_foreign(rule, world, seed, goal, contacts, foreign)
            &&& #[trigger] is_escape_run(
                rule,
                spread,
                place,
                put,
                EscapeTask { sink, goal, contacts, foreign },
                start,
                run,
            )
            &&& is_fresh(world, seed, strength, start)
            &&& far == run.last().found
        };
    assert(is_dust_from(seed, strength, start));
    if i < near.len() {
        let route = near[i];
        assert(routes[i] == route);
        built_leads_behind(rule, put, world, seed, contacts, cells, outcomes, i);
        let dust = RouteSearchState { world, ..start };
        assert(route.route@ =~= dust.route@.push(route.terminal));
        assert(is_dust_from(seed, strength, dust));
        assert(is_way_out(rule, put, seed, strength, contacts, dust, route));
    } else {
        escape_run_holds(
            rule,
            spread,
            place,
            put,
            EscapeTask { sink, goal, contacts, foreign },
            start,
            run,
            seed,
            strength,
            run.len() - 1,
        );
        assert(routes[i] == far[i - near.len()]);
    }
}

} // verus!

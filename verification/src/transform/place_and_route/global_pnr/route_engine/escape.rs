//! Ways out of an output that has to be cut off: an adapter at the output
//! itself, or at the end of a few cells of dust.

use super::adapter::{is_builder, is_output_adapter, output_repeater_adapter_world};
use super::contacts::{
    are_foreign, are_own_signals, extend_sorted, has_cell, route_forbidden_signal_contact_positions,
    route_touches_forbidden_existing_signal, source_signal_positions, touches_foreign,
};
use super::engine::{fresh_state, is_fresh};
use super::goal::{goal_of, rejects, RouteGoal};
use super::search::{extend_state, is_extended, is_placer, is_spreader, PlaceRequest};
use super::state::{
    initial_signal_strength, is_route_terminal, is_signal, starting_strength, PlaceBound, PoweredRouteSource,
    RouteSearchState, MAX_REDSTONE_STRENGTH,
};
use super::taps::{are_all_taps, routeable_output_taps, TapKey};
use super::visited::{key_space, keys_are_bounded};
use crate::order::{insert_ascending, is_ascending, SortKey, TotalKey};
use crate::transform::place_and_route::global_pnr::dust::is_rule;
use crate::world::block::Block;
use crate::world::grid::World3D;
use crate::number::capped;
use crate::world::position::{
    distance, position_before, in_bounds, is_beside, is_sorted, opposite, step_towards, Position,
};
use vstd::prelude::*;

verus! {

/// How many cells of dust lead away from an output at most.
pub const OUTPUT_ISOLATION_ESCAPE_MAX_STEPS: usize = 4;

// ---------------------------------------------------------------------------
// Adapters
// ---------------------------------------------------------------------------
/// The adapters that could be built, of those that were tried.
pub open spec fn built(outcomes: Seq<Option<(World3D, Position)>>) -> Seq<(World3D, Position)>
    decreases outcomes.len(),
{
    if outcomes.len() == 0 {
        Seq::empty()
    } else {
        let rest = built(outcomes.drop_last());
        match outcomes.last() {
            Some(adapter) => rest.push(adapter),
            None => rest,
        }
    }
}

/// Whether trying to build an adapter in a cell comes to an outcome.
pub open spec fn is_tried<
    F: Fn(&World3D, Position, Position) -> bool,
    P: Fn(&World3D, Position, Block, &Vec<Position>) -> Option<World3D>,
>(
    rule: &F,
    put: &P,
    world: World3D,
    source: Position,
    additional: Seq<Position>,
    cell: Position,
    outcome: Option<(World3D, Position)>,
) -> bool {
    is_output_adapter(
        rule,
        put,
        world,
        source,
        cell,
        opposite(step_towards(source, cell)),
        additional,
        outcome,
    )
}

/// Whether adapters are those that could be built in the cells beside a source.
pub open spec fn are_adapters<
    F: Fn(&World3D, Position, Position) -> bool,
    P: Fn(&World3D, Position, Block, &Vec<Position>) -> Option<World3D>,
>(
    rule: &F,
    put: &P,
    world: World3D,
    source: Position,
    additional: Seq<Position>,
    cells: Seq<Position>,
    outcomes: Seq<Option<(World3D, Position)>>,
) -> bool {
    &&& cells.no_duplicates()
    &&& forall|cell: Position| #[trigger] cells.contains(cell) <==> is_beside(source, cell)
    &&& outcomes.len() == cells.len()
    &&& forall|i: int|
        0 <= i < cells.len() ==> is_tried(rule, put, world, source, additional, cells[i], #[trigger] outcomes[i])
}

/// The adapters that can be built in the cells beside a source.
fn output_repeater_adapters<
    F: Fn(&World3D, Position, Position) -> bool,
    P: Fn(&World3D, Position, Block, &Vec<Position>) -> Option<World3D>,
>(rule: &F, put: &P, world: &World3D, source: Position, additional: &Vec<Position>) -> (result: (
    Vec<(World3D, Position)>,
    Ghost<(Seq<Position>, Seq<Option<(World3D, Position)>>)>,
))
    requires
        is_rule(rule),
        is_builder(put),
        world.wf(),
    ensures
        are_adapters(rule, put, *world, source, additional@, result.1@.0, result.1@.1),
        result.0@ == built(result.1@.1),
        forall|i: int| 0 <= i < result.0@.len() ==> (#[trigger] result.0@[i]).0.wf(),
{
    let cells = source.cardinal();
    let mut adapters: Vec<(World3D, Position)> = Vec::new();
    let ghost mut outcomes = Seq::<Option<(World3D, Position)>>::empty();
    assert(adapters@ =~= built(outcomes));
    let mut index: usize = 0;
    while index < cells.len()
        invariant
            index <= cells.len(),
            is_rule(rule),
            is_builder(put),
            world.wf(),
            outcomes.len() == index,
            adapters@ == built(outcomes),
            forall|i: int|
                0 <= i < index ==> is_tried(
                    rule,
                    put,
                    *world,
                    source,
                    additional@,
                    cells@[i],
                    #[trigger] outcomes[i],
                ),
            forall|i: int| 0 <= i < adapters@.len() ==> (#[trigger] adapters@[i]).0.wf(),
        decreases cells.len() - index,
    {
        let cell = cells[index];
        let direction = source.diff(cell).inverse();
        let outcome = output_repeater_adapter_world(rule, put, world, source, cell, direction, additional);
        let ghost before = outcomes;
        proof {
            outcomes = before.push(outcome);
            assert(outcomes.drop_last() =~= before);
            assert forall|i: int| 0 <= i < index + 1 implies is_tried(
                rule,
                put,
                *world,
                source,
                additional@,
                cells@[i],
                #[trigger] outcomes[i],
            ) by {
                if i < index {
                    assert(outcomes[i] == before[i]);
                }
            }
        }
        if let Some(adapter) = outcome {
            adapters.push(adapter);
        }
        index += 1;
    }
    proof {
        assert forall|cell: Position| #[trigger] cells@.contains(cell) <==> is_beside(source, cell) by {
            if cells@.contains(cell) {
                let i = choose|i: int| 0 <= i < cells@.len() && cells@[i] == cell;
                assert(is_beside(source, cells@[i]));
            }
        }
        assert(cells@.no_duplicates()) by {
            assert forall|i: int, j: int| 0 <= i < cells@.len() && 0 <= j < cells@.len() && i != j implies cells@[i]
                != cells@[j] by {
                if i > j {
                    assert(cells@[j] != cells@[i]);
                }
            }
        }
    }
    (adapters, Ghost((cells@, outcomes)))
}

// ---------------------------------------------------------------------------
// Escapes
// ---------------------------------------------------------------------------
/// What an escape is looked for with.
pub ghost struct EscapeTask {
    pub sink: Position,
    pub goal: RouteGoal,
    pub contacts: Seq<Position>,
    pub foreign: Seq<Position>,
}

/// A moment of looking for escapes: the dust that is being extended, how much of
/// it was, the cells that it has seen, the escapes that were found, and the
/// cells that are being tried.
pub ghost struct EscapeMoment {
    pub queue: Seq<RouteSearchState>,
    pub head: int,
    pub visited: Seq<Position>,
    pub found: Seq<RouteSearchState>,
    pub bounds: Seq<PlaceBound>,
    pub next: int,
}

/// The number of steps that dust has made.
pub open spec fn escape_steps(state: RouteSearchState) -> int {
    if state.route@.len() == 0 {
        0
    } else {
        state.route@.len() - 1
    }
}

/// Whether dust is not extended any further.
pub open spec fn has_escaped(state: RouteSearchState) -> bool {
    escape_steps(state) >= OUTPUT_ISOLATION_ESCAPE_MAX_STEPS || state.signal_strength <= 1
}

/// Whether routes lead through adapters at the end of dust.
pub open spec fn lead_through(
    state: RouteSearchState,
    adapters: Seq<(World3D, Position)>,
    routes: Seq<RouteSearchState>,
) -> bool {
    &&& routes.len() == adapters.len()
    &&& forall|i: int|
        0 <= i < routes.len() ==> is_extended(
            state,
            adapters[i].0,
            adapters[i].1,
            MAX_REDSTONE_STRENGTH,
            #[trigger] routes[i],
        )
}

/// Whether dust is taken up: adapters are built at its end, unless that is the
/// output itself, and the cells into which its power spreads come next.
pub open spec fn is_taken_up<
    F: Fn(&World3D, Position, Position) -> bool,
    B: Fn(&World3D, Position) -> Vec<PlaceBound>,
    P: Fn(&World3D, Position, Block, &Vec<Position>) -> Option<World3D>,
>(rule: &F, spread: &B, put: &P, task: EscapeTask, before: EscapeMoment, after: EscapeMoment) -> bool {
    let state = before.queue[before.head];
    &&& after.queue == before.queue
    &&& after.head == before.head + 1
    &&& after.visited == before.visited
    &&& after.next == 0
    &&& if escape_steps(state) > 0 {
        exists|cells: Seq<Position>, outcomes: Seq<Option<(World3D, Position)>>, routes: Seq<RouteSearchState>|
            {
                &&& #[trigger] are_adapters(
                    rule,
                    put,
                    state.world,
                    state.terminal,
                    task.contacts,
                    cells,
                    outcomes,
                )
                &&& #[trigger] lead_through(state, built(outcomes), routes)
                &&& after.found == before.found + routes
            }
    } else {
        after.found == before.found
    }
    &&& if has_escaped(state) {
        after.bounds == Seq::<PlaceBound>::empty()
    } else {
        exists|list: Vec<PlaceBound>| #[trigger]
            call_ensures(*spread, (&state.world, state.terminal), list) && after.bounds == list@
    }
}

/// The dust that is being extended.
pub open spec fn current_dust(moment: EscapeMoment) -> RouteSearchState {
    moment.queue[moment.head - 1]
}

/// Whether a request asks for dust.
pub open spec fn is_dust_request(
    request: PlaceRequest,
    bound: PlaceBound,
    from: Position,
    task: EscapeTask,
) -> bool {
    &&& request.bound == bound
    &&& request.from == from
    &&& request.target == task.sink
    &&& request.repeater is None
    &&& request.allowed matches Some(cells) && cells@ == task.contacts
}

/// Whether dust is extended into a cell, or not where it does not fit, touches
/// something foreign, or leads to a cell that was seen.
pub open spec fn is_dust_step<
    F: Fn(&World3D, Position, Position) -> bool,
    L: Fn(&World3D, &PlaceRequest) -> Option<(World3D, Position)>,
>(rule: &F, place: &L, task: EscapeTask, before: EscapeMoment, after: EscapeMoment) -> bool {
    let state = current_dust(before);
    let bound = before.bounds[before.next];
    &&& after.head == before.head
    &&& after.found == before.found
    &&& after.bounds == before.bounds
    &&& after.next == before.next + 1
    &&& if !in_bounds(state.world.size, bound.position) || rejects(task.goal, bound.position) {
        after.queue == before.queue && after.visited == before.visited
    } else {
        exists|request: PlaceRequest, outcome: Option<(World3D, Position)>| #[trigger]
            call_ensures(*place, (&state.world, &request), outcome) && is_dust_request(
                request,
                bound,
                state.terminal,
                task,
            ) && match outcome {
                None => after.queue == before.queue && after.visited == before.visited,
                Some((world, cell)) => if touches_foreign(rule, world, cell, task.foreign) || before.visited.contains(
                    cell,
                ) {
                    after.queue == before.queue && after.visited == before.visited
                } else {
                    &&& after.visited == before.visited.push(cell)
                    &&& exists|next: RouteSearchState| #[trigger]
                        is_extended(state, world, cell, (state.signal_strength - 1) as usize, next) && after.queue
                            == before.queue.push(next)
                },
            }
    }
}

/// Whether one moment of looking for escapes follows another.
pub open spec fn escape_follows<
    F: Fn(&World3D, Position, Position) -> bool,
    B: Fn(&World3D, Position) -> Vec<PlaceBound>,
    L: Fn(&World3D, &PlaceRequest) -> Option<(World3D, Position)>,
    P: Fn(&World3D, Position, Block, &Vec<Position>) -> Option<World3D>,
>(rule: &F, spread: &B, place: &L, put: &P, task: EscapeTask, before: EscapeMoment, after: EscapeMoment) -> bool {
    if before.next < before.bounds.len() {
        is_dust_step(rule, place, task, before, after)
    } else {
        before.head < before.queue.len() && is_taken_up(rule, spread, put, task, before, after)
    }
}

pub open spec fn escape_follows_at<
    F: Fn(&World3D, Position, Position) -> bool,
    B: Fn(&World3D, Position) -> Vec<PlaceBound>,
    L: Fn(&World3D, &PlaceRequest) -> Option<(World3D, Position)>,
    P: Fn(&World3D, Position, Block, &Vec<Position>) -> Option<World3D>,
>(rule: &F, spread: &B, place: &L, put: &P, task: EscapeTask, run: Seq<EscapeMoment>, k: int) -> bool {
    escape_follows(rule, spread, place, put, task, run[k - 1], run[k])
}

/// Whether moments are those of looking for escapes from a cell.
pub open spec fn is_escape_run<
    F: Fn(&World3D, Position, Position) -> bool,
    B: Fn(&World3D, Position) -> Vec<PlaceBound>,
    L: Fn(&World3D, &PlaceRequest) -> Option<(World3D, Position)>,
    P: Fn(&World3D, Position, Block, &Vec<Position>) -> Option<World3D>,
>(
    rule: &F,
    spread: &B,
    place: &L,
    put: &P,
    task: EscapeTask,
    start: RouteSearchState,
    run: Seq<EscapeMoment>,
) -> bool {
    &&& run.len() > 0
    &&& run[0] == EscapeMoment {
        queue: seq![start],
        head: 0,
        visited: seq![start.terminal],
        found: Seq::empty(),
        bounds: Seq::empty(),
        next: 0,
    }
    &&& forall|k: int|
        0 < k < run.len() ==> #[trigger] escape_follows_at(rule, spread, place, put, task, run, k)
}

/// What looking for escapes from a cell comes to: all that were found when
/// nothing is left to extend.
pub open spec fn are_escapes<
    F: Fn(&World3D, Position, Position) -> bool,
    B: Fn(&World3D, Position) -> Vec<PlaceBound>,
    L: Fn(&World3D, &PlaceRequest) -> Option<(World3D, Position)>,
    P: Fn(&World3D, Position, Block, &Vec<Position>) -> Option<World3D>,
>(
    rule: &F,
    spread: &B,
    place: &L,
    put: &P,
    world: World3D,
    seed: Position,
    sink: Position,
    contacts: Seq<Position>,
    found: Seq<RouteSearchState>,
) -> bool {
    let goal = goal_of(world, sink);
    exists|start: RouteSearchState, foreign: Seq<Position>, run: Seq<EscapeMoment>|
        {
            &&& #[trigger] are_foreign(rule, world, seed, goal, contacts, foreign)
            &&& #[trigger] is_escape_run(
                rule,
                spread,
                place,
                put,
                EscapeTask { sink, goal, contacts, foreign },
                start,
                run,
            )
            &&& is_fresh(world, seed, starting_strength(world.at(seed).kind), start)
            &&& run.last().next >= run.last().bounds.len()
            &&& run.last().head == run.last().queue.len()
            &&& found == run.last().found
        }
}

proof fn escape_run_extends<
    F: Fn(&World3D, Position, Position) -> bool,
    B: Fn(&World3D, Position) -> Vec<PlaceBound>,
    L: Fn(&World3D, &PlaceRequest) -> Option<(World3D, Position)>,
    P: Fn(&World3D, Position, Block, &Vec<Position>) -> Option<World3D>,
>(
    rule: &F,
    spread: &B,
    place: &L,
    put: &P,
    task: EscapeTask,
    start: RouteSearchState,
    run: Seq<EscapeMoment>,
    next: EscapeMoment,
)
    requires
        is_escape_run(rule, spread, place, put, task, start, run),
        escape_follows(rule, spread, place, put, task, run.last(), next),
    ensures
        is_escape_run(rule, spread, place, put, task, start, run.push(next)),
        run.push(next).last() == next,
{
    let longer = run.push(next);
    assert forall|k: int| 0 < k < longer.len() implies #[trigger] escape_follows_at(
        rule,
        spread,
        place,
        put,
        task,
        longer,
        k,
    ) by {
        assert(longer[k - 1] == run[k - 1]);
        if k < run.len() {
            assert(escape_follows_at(rule, spread, place, put, task, run, k));
            assert(longer[k] == run[k]);
        }
    }
    assert(longer[0] == run[0]);
}

fn copy_contacts(cells: &Vec<Position>) -> (copy: Vec<Position>)
    ensures
        copy@ == cells@,
{
    let copy = cells.clone();
    assert(copy@ =~= cells@);
    copy
}

/// The routes through adapters at the end of dust.
fn through_adapters(state: &RouteSearchState, adapters: Vec<(World3D, Position)>) -> (routes: Vec<RouteSearchState>)
    requires
        forall|i: int| 0 <= i < adapters@.len() ==> (#[trigger] adapters@[i]).0.wf(),
    ensures
        lead_through(*state, adapters@, routes@),
        forall|i: int| 0 <= i < routes@.len() ==> (#[trigger] routes@[i]).world.wf(),
{
    let ghost given = adapters@;
    let mut waiting = adapters;
    let mut routes: Vec<RouteSearchState> = Vec::new();
    while waiting.len() > 0
        invariant
            routes.len() <= given.len(),
            waiting@ == given.skip(routes.len() as int),
            forall|i: int| 0 <= i < given.len() ==> (#[trigger] given[i]).0.wf(),
            forall|i: int|
                0 <= i < routes@.len() ==> is_extended(
                    *state,
                    given[i].0,
                    given[i].1,
                    MAX_REDSTONE_STRENGTH,
                    #[trigger] routes@[i],
                ),
        decreases waiting.len(),
    {
        let ghost at = routes.len() as int;
        let ghost before = routes@;
        assert(waiting@[0] == given[at]);
        let (world, cell) = waiting.remove(0);
        assert(waiting@ =~= given.skip(at + 1));
        let route = extend_state(state, world, cell, MAX_REDSTONE_STRENGTH);
        routes.push(route);
        proof {
            assert forall|i: int| 0 <= i < routes@.len() implies is_extended(
                *state,
                given[i].0,
                given[i].1,
                MAX_REDSTONE_STRENGTH,
                #[trigger] routes@[i],
            ) by {
                if i < at {
                    assert(routes@[i] == before[i]);
                }
            }
        }
    }
    proof {
        assert forall|i: int| 0 <= i < routes@.len() implies (#[trigger] routes@[i]).world.wf() by {
            assert(given[i].0.wf());
            assert(is_extended(*state, given[i].0, given[i].1, MAX_REDSTONE_STRENGTH, routes@[i]));
        }
    }
    routes
}

proof fn cells_are_bounded(cells: Seq<Position>)
    requires
        cells.no_duplicates(),
    ensures
        cells.len() <= key_space(),
{
    let keys = cells.map_values(|cell: Position| (cell, 0usize, 0usize));
    assert forall|i: int, j: int| 0 <= i < keys.len() && 0 <= j < keys.len() && i != j implies keys[i] != keys[j] by {
        assert(cells[i] != cells[j]);
    }
    keys_are_bounded(keys);
}

spec fn all_wf(states: Seq<RouteSearchState>) -> bool {
    forall|i: int| 0 <= i < states.len() ==> (#[trigger] states[i]).world.wf()
}

/// Extends dust into one cell, unless it does not fit there.
fn extend_dust<
    F: Fn(&World3D, Position, Position) -> bool,
    L: Fn(&World3D, &PlaceRequest) -> Option<(World3D, Position)>,
>(
    rule: &F,
    place: &L,
    sink: Position,
    goal: RouteGoal,
    contacts: &Vec<Position>,
    foreign: &Vec<Position>,
    queue: &mut Vec<RouteSearchState>,
    at: usize,
    bound: PlaceBound,
    visited: &mut Vec<Position>,
    Ghost(task): Ghost<EscapeTask>,
    Ghost(before): Ghost<EscapeMoment>,
)
    requires
        is_rule(rule),
        is_placer(place),
        task == (EscapeTask { sink, goal, contacts: contacts@, foreign: foreign@ }),
        before.queue == old(queue)@,
        before.visited == old(visited)@,
        before.head == at + 1,
        at < old(queue)@.len(),
        0 <= before.next < before.bounds.len(),
        before.bounds[before.next] == bound,
        old(queue)@[at as int].signal_strength > 1,
        all_wf(old(queue)@),
        old(visited)@.no_duplicates(),
    ensures
        all_wf(final(queue)@),
        final(visited)@.no_duplicates(),
        final(queue)@.len() >= old(queue)@.len(),
        final(queue)@[at as int] == old(queue)@[at as int],
        final(visited)@.len() >= old(visited)@.len(),
        final(visited)@.len() == old(visited)@.len() ==> final(queue)@ == old(queue)@,
        is_dust_step(
            rule,
            place,
            task,
            before,
            EscapeMoment {
                queue: final(queue)@,
                head: before.head,
                visited: final(visited)@,
                found: before.found,
                bounds: before.bounds,
                next: before.next + 1,
            },
        ),
{
    let state = &queue[at];
    if !state.world.size.bound_on(bound.position) || goal.rejects_bound_position(bound.position) {
        return;
    }
    let request = PlaceRequest {
        bound,
        from: state.terminal,
        target: sink,
        repeater: None,
        allowed: Some(copy_contacts(contacts)),
    };
    let outcome = place(&state.world, &request);
    assert(is_dust_request(request, bound, state.terminal, task));
    assert(call_ensures(*place, (&state.world, &request), outcome));
    let ghost held = *state;
    match outcome {
        None => {},
        Some((world, cell)) => {
            if !route_touches_forbidden_existing_signal(rule, &world, cell, foreign) && !has_cell(
                visited,
                cell,
            ) {
                let ghost seen = visited@;
                let ghost old_queue = queue@;
                let ghost placed = world;
                let next = extend_state(state, world, cell, state.signal_strength - 1);
                let ghost added = next;
                visited.push(cell);
                queue.push(next);
                proof {
                    assert(is_extended(held, placed, cell, (held.signal_strength - 1) as usize, added));
                    assert forall|i: int, j: int|
                        0 <= i < visited@.len() && 0 <= j < visited@.len() && i != j implies visited@[i] != visited@[j] by {
                        if i == seen.len() {
                            assert(seen.contains(seen[j]));
                        } else if j == seen.len() {
                            assert(seen.contains(seen[i]));
                        }
                    }
                    assert forall|i: int| 0 <= i < queue@.len() implies (#[trigger] queue@[i]).world.wf() by {
                        if i < old_queue.len() {
                            assert(old_queue[i].world.wf());
                        }
                    }
                }
            }
        },
    }
}

fn run_escape<
    F: Fn(&World3D, Position, Position) -> bool,
    B: Fn(&World3D, Position) -> Vec<PlaceBound>,
    L: Fn(&World3D, &PlaceRequest) -> Option<(World3D, Position)>,
    P: Fn(&World3D, Position, Block, &Vec<Position>) -> Option<World3D>,
>(
    rule: &F,
    spread: &B,
    place: &L,
    put: &P,
    start: RouteSearchState,
    sink: Position,
    goal: RouteGoal,
    contacts: &Vec<Position>,
    foreign: &Vec<Position>,
) -> (result: (Vec<RouteSearchState>, Ghost<Seq<EscapeMoment>>))
    requires
        is_rule(rule),
        is_spreader(spread),
        is_placer(place),
        is_builder(put),
        start.world.wf(),
    ensures
        is_escape_run(
            rule,
            spread,
            place,
            put,
            EscapeTask { sink, goal, contacts: contacts@, foreign: foreign@ },
            start,
            result.1@,
        ),
        result.1@.last().next >= result.1@.last().bounds.len(),
        result.1@.last().head == result.1@.last().queue.len(),
        result.0@ == result.1@.last().found,
        forall|i: int| 0 <= i < result.0@.len() ==> (#[trigger] result.0@[i]).world.wf(),
{
    let ghost task = EscapeTask { sink, goal, contacts: contacts@, foreign: foreign@ };
    let ghost begun = start;
    let mut visited: Vec<Position> = vec![start.terminal];
    let mut queue: Vec<RouteSearchState> = vec![start];
    let mut found: Vec<RouteSearchState> = Vec::new();
    assert(visited@ =~= seq![begun.terminal]);
    assert(queue@ =~= seq![begun]);
    assert(found@ =~= Seq::<RouteSearchState>::empty());
    let ghost mut run = seq![
        EscapeMoment {
            queue: queue@,
            head: 0,
            visited: visited@,
            found: found@,
            bounds: Seq::empty(),
            next: 0,
        },
    ];
    let mut head: usize = 0;
    while head < queue.len()
        invariant
            is_rule(rule),
            is_spreader(spread),
            is_placer(place),
            is_builder(put),
            task == (EscapeTask { sink, goal, contacts: contacts@, foreign: foreign@ }),
            head <= queue@.len(),
            all_wf(queue@),
            all_wf(found@),
            visited@.no_duplicates(),
            is_escape_run(rule, spread, place, put, task, begun, run),
            run.last().queue == queue@,
            run.last().head == head,
            run.last().visited == visited@,
            run.last().found == found@,
            run.last().next >= run.last().bounds.len(),
        decreases key_space() - visited@.len(), queue@.len() - head,
    {
        proof {
            cells_are_bounded(visited@);
        }
        let ghost before = run.last();
        let ghost seen = visited@.len();
        let ghost waiting = queue@;
        let at: usize = head;
        let state = &queue[at];
        assert(queue@[at as int].world.wf());
        let ghost old_found = found@;
        let steps: usize = if state.route.len() == 0 {
            0
        } else {
            state.route.len() - 1
        };
        if steps > 0 {
            let (adapters, tried) = output_repeater_adapters(rule, put, &state.world, state.terminal, contacts);
            let mut routes = through_adapters(state, adapters);
            let ghost added = routes@;
            proof {
                assert(are_adapters(
                    rule,
                    put,
                    state.world,
                    state.terminal,
                    task.contacts,
                    tried@.0,
                    tried@.1,
                ));
                assert(lead_through(*state, built(tried@.1), added));
            }
            found.append(&mut routes);
            proof {
                assert forall|i: int| 0 <= i < found@.len() implies (#[trigger] found@[i]).world.wf() by {
                    if i < old_found.len() {
                        assert(old_found[i].world.wf());
                    } else {
                        assert(added[i - old_found.len()].world.wf());
                    }
                }
            }
        }
        let extended = steps < OUTPUT_ISOLATION_ESCAPE_MAX_STEPS && state.signal_strength > 1;
        let bounds: Vec<PlaceBound> = if extended {
            let list = spread(&state.world, state.terminal);
            assert(call_ensures(*spread, (&state.world, state.terminal), list));
            list
        } else {
            let list: Vec<PlaceBound> = Vec::new();
            assert(list@ =~= Seq::<PlaceBound>::empty());
            list
        };
        head += 1;
        proof {
            let after = EscapeMoment {
                queue: queue@,
                head: head as int,
                visited: visited@,
                found: found@,
                bounds: bounds@,
                next: 0,
            };
            assert(is_taken_up(rule, spread, put, task, before, after));
            assert(escape_follows(rule, spread, place, put, task, before, after));
            escape_run_extends(rule, spread, place, put, task, begun, run, after);
            run = run.push(after);
        }
        let mut next: usize = 0;
        while next < bounds.len()
            invariant
                is_rule(rule),
                is_placer(place),
                task == (EscapeTask { sink, goal, contacts: contacts@, foreign: foreign@ }),
                at < queue@.len(),
                head == at + 1,
                bounds@.len() > 0 ==> extended,
                extended ==> queue@[at as int].signal_strength > 1,
                all_wf(queue@),
                visited@.no_duplicates(),
                seen <= visited@.len(),
                seen == visited@.len() ==> queue@ == waiting,
                is_escape_run(rule, spread, place, put, task, begun, run),
                run.last() == (EscapeMoment {
                    queue: queue@,
                    head: head as int,
                    visited: visited@,
                    found: found@,
                    bounds: bounds@,
                    next: next as int,
                }),
            decreases bounds.len() - next,
        {
            let ghost here = run.last();
            extend_dust(
                rule,
                place,
                sink,
                goal,
                contacts,
                foreign,
                &mut queue,
                at,
                bounds[next],
                &mut visited,
                Ghost(task),
                Ghost(here),
            );
            next += 1;
            proof {
                let after = EscapeMoment {
                    queue: queue@,
                    head: head as int,
                    visited: visited@,
                    found: found@,
                    bounds: bounds@,
                    next: next as int,
                };
                assert(escape_follows(rule, spread, place, put, task, here, after));
                escape_run_extends(rule, spread, place, put, task, begun, run, after);
                run = run.push(after);
            }
        }
        proof {
            cells_are_bounded(visited@);
        }
    }
    (found, Ghost(run))
}

/// Looks for ways to cut a cell off at the end of a few cells of dust.
pub fn escaped_output_repeater_initial_states<
    F: Fn(&World3D, Position, Position) -> bool,
    B: Fn(&World3D, Position) -> Vec<PlaceBound>,
    L: Fn(&World3D, &PlaceRequest) -> Option<(World3D, Position)>,
    P: Fn(&World3D, Position, Block, &Vec<Position>) -> Option<World3D>,
>(
    rule: &F,
    spread: &B,
    place: &L,
    put: &P,
    world: &World3D,
    seed: Position,
    sink: Position,
    contacts: &Vec<Position>,
) -> (found: Vec<RouteSearchState>)
    requires
        is_rule(rule),
        is_spreader(spread),
        is_placer(place),
        is_builder(put),
        world.wf(),
    ensures
        are_escapes(rule, spread, place, put, *world, seed, sink, contacts@, found@),
        forall|i: int| 0 <= i < found@.len() ==> (#[trigger] found@[i]).world.wf(),
{
    let goal = RouteGoal::for_sink(world, sink);
    let foreign = route_forbidden_signal_contact_positions(rule, world, seed, goal, contacts);
    let strength: usize = initial_signal_strength(world, seed);
    let start = fresh_state(world, seed, strength);
    let ghost begun = start;
    let (found, run) = run_escape(rule, spread, place, put, start, sink, goal, contacts, &foreign);
    proof {
        let task = EscapeTask { sink, goal, contacts: contacts@, foreign: foreign@ };
        assert(are_foreign(rule, *world, seed, goal_of(*world, sink), contacts@, foreign@));
        assert(is_escape_run(rule, spread, place, put, task, begun, run@));
    }
    found
}

// ---------------------------------------------------------------------------
// All ways out
// ---------------------------------------------------------------------------
/// A cell where an output can be cut off, with what it is judged by.
#[derive(Clone, Copy, Debug, PartialEq, Eq, Structural)]
pub struct ExitKey {
    pub to_sink: usize,
    pub strength: usize,
    pub cell: Position,
}

impl SortKey for ExitKey {
    open spec fn before(&self, other: &Self) -> bool {
        if self.to_sink != other.to_sink {
            self.to_sink < other.to_sink
        } else if self.strength != other.strength {
            self.strength > other.strength
        } else {
            position_before(self.cell, other.cell)
        }
    }

    fn is_before(&self, other: &Self) -> (before: bool) {
        if self.to_sink != other.to_sink {
            self.to_sink < other.to_sink
        } else if self.strength != other.strength {
            self.strength > other.strength
        } else {
            self.cell.is_before(&other.cell)
        }
    }

    proof fn before_asymmetric(&self, other: &Self) {
    }

    proof fn not_before_transitive(&self, middle: &Self, other: &Self) {
    }
}

impl TotalKey for ExitKey {
    proof fn before_total(&self, other: &Self) {
    }
}

/// Whether an exit is the output itself, or one of the cells where its power
/// can be taken up.
pub open spec fn is_exit(
    world: World3D,
    source: Position,
    sink: Position,
    taps: Seq<TapKey>,
    exit: ExitKey,
) -> bool {
    ||| exit == ExitKey {
        to_sink: capped(distance(source, sink)) as usize,
        strength: starting_strength(world.at(source).kind),
        cell: source,
    }
    ||| exists|k: int|
        0 <= k < taps.len() && exit.to_sink == (#[trigger] taps[k]).to_sink && exit.strength == taps[k].strength
            && exit.cell == taps[k].cell
}

/// Whether exits are all those of an output: the nearest to the sink first, and
/// of those the strongest.
pub open spec fn are_exits<F: Fn(&World3D, Position, Position) -> bool>(
    rule: &F,
    world: World3D,
    source: Position,
    sink: Position,
    exits: Seq<ExitKey>,
) -> bool {
    exists|taps: Seq<TapKey>| #[trigger]
        are_all_taps(rule, world, source, sink, taps) && is_ascending(exits) && forall|exit: ExitKey| #[trigger]
            exits.contains(exit) <==> is_exit(world, source, sink, taps, exit)
}

fn find_exits<F: Fn(&World3D, Position, Position) -> bool>(
    rule: &F,
    world: &World3D,
    source: Position,
    sink: Position,
) -> (exits: Vec<ExitKey>)
    requires
        is_rule(rule),
        world.wf(),
    ensures
        are_exits(rule, *world, source, sink, exits@),
{
    let taps = routeable_output_taps(rule, world, source, sink);
    let own = ExitKey {
        to_sink: source.capped_distance(&sink),
        strength: initial_signal_strength(world, source),
        cell: source,
    };
    let mut exits: Vec<ExitKey> = Vec::new();
    insert_ascending(&mut exits, own);
    let mut index: usize = 0;
    while index < taps.len()
        invariant
            index <= taps.len(),
            is_ascending(exits@),
            forall|exit: ExitKey| #[trigger]
                exits@.contains(exit) <==> exit == own || exists|k: int|
                    0 <= k < index && exit.to_sink == (#[trigger] taps@[k]).to_sink && exit.strength
                        == taps@[k].strength && exit.cell == taps@[k].cell,
        decreases taps.len() - index,
    {
        let ghost before = exits@;
        let tap = taps[index];
        insert_ascending(&mut exits, ExitKey { to_sink: tap.to_sink, strength: tap.strength, cell: tap.cell });
        proof {
            assert forall|exit: ExitKey| #[trigger] exits@.contains(exit) <==> exit == own || exists|k: int|
                0 <= k < index + 1 && exit.to_sink == (#[trigger] taps@[k]).to_sink && exit.strength
                    == taps@[k].strength && exit.cell == taps@[k].cell by {
                if before.contains(exit) && exit != own {
                    let k = choose|k: int|
                        0 <= k < index && exit.to_sink == (#[trigger] taps@[k]).to_sink && exit.strength
                            == taps@[k].strength && exit.cell == taps@[k].cell;
                    assert(taps@[k].cell == exit.cell);
                }
                if exit == (ExitKey { to_sink: tap.to_sink, strength: tap.strength, cell: tap.cell }) {
                    assert(taps@[index as int].cell == exit.cell);
                }
            }
        }
        index += 1;
    }
    assert(are_all_taps(rule, *world, source, sink, taps@));
    exits
}

/// Whether routes leave an output through adapters at its own cell.
pub open spec fn leave_through(
    seed: Position,
    adapters: Seq<(World3D, Position)>,
    routes: Seq<RouteSearchState>,
) -> bool {
    &&& routes.len() == adapters.len()
    &&& forall|i: int|
        0 <= i < routes.len() ==> {
            let route = #[trigger] routes[i];
            &&& route.world == adapters[i].0
            &&& route.terminal == adapters[i].1
            &&& route.route@ == seq![seed, adapters[i].1]
            &&& route.signal_strength == MAX_REDSTONE_STRENGTH
            &&& route.powered_taps@ == seq![
                PoweredRouteSource { position: adapters[i].1, strength: MAX_REDSTONE_STRENGTH },
            ]
            &&& route.pending_bounds is None
        }
}

/// Whether routes are the ways out at an exit: adapters there, and those at the
/// end of some dust.
pub open spec fn are_ways_out<
    F: Fn(&World3D, Position, Position) -> bool,
    B: Fn(&World3D, Position) -> Vec<PlaceBound>,
    L: Fn(&World3D, &PlaceRequest) -> Option<(World3D, Position)>,
    P: Fn(&World3D, Position, Block, &Vec<Position>) -> Option<World3D>,
>(
    rule: &F,
    spread: &B,
    place: &L,
    put: &P,
    world: World3D,
    seed: Position,
    sink: Position,
    contacts: Seq<Position>,
    routes: Seq<RouteSearchState>,
) -> bool {
    if !in_bounds(world.size, seed) || !is_signal(world.at(seed).kind) {
        routes.len() == 0
    } else {
        exists|
            cells: Seq<Position>,
            outcomes: Seq<Option<(World3D, Position)>>,
            near: Seq<RouteSearchState>,
            far: Seq<RouteSearchState>,
        |
            {
                &&& #[trigger] are_adapters(rule, put, world, seed, contacts, cells, outcomes)
                &&& #[trigger] leave_through(seed, built(outcomes), near)
                &&& #[trigger] are_escapes(rule, spread, place, put, world, seed, sink, contacts, far)
                &&& routes == near + far
            }
    }
}

/// Lists, one behind the other.
pub open spec fn joined(parts: Seq<Seq<RouteSearchState>>) -> Seq<RouteSearchState>
    decreases parts.len(),
{
    if parts.len() == 0 {
        Seq::empty()
    } else {
        joined(parts.drop_last()) + parts.last()
    }
}

/// Whether an exit is in the cell of the one before, which stands for it.
pub open spec fn is_repeated(exits: Seq<ExitKey>, index: int) -> bool {
    index > 0 && exits[index - 1].cell == exits[index].cell
}

/// Whether a part holds the ways out at an exit.
pub open spec fn is_part<
    F: Fn(&World3D, Position, Position) -> bool,
    B: Fn(&World3D, Position) -> Vec<PlaceBound>,
    L: Fn(&World3D, &PlaceRequest) -> Option<(World3D, Position)>,
    P: Fn(&World3D, Position, Block, &Vec<Position>) -> Option<World3D>,
>(
    rule: &F,
    spread: &B,
    place: &L,
    put: &P,
    world: World3D,
    sink: Position,
    contacts: Seq<Position>,
    exits: Seq<ExitKey>,
    index: int,
    part: Seq<RouteSearchState>,
) -> bool {
    if is_repeated(exits, index) {
        part.len() == 0
    } else {
        are_ways_out(rule, spread, place, put, world, exits[index].cell, sink, contacts, part)
    }
}

/// Whether cells are those that a way out of an output may touch: cells that are
/// given, and those that carry its signal.
pub open spec fn are_output_contacts<F: Fn(&World3D, Position, Position) -> bool>(
    rule: &F,
    world: World3D,
    logical: Position,
    source: Position,
    additional: Seq<Position>,
    contacts: Seq<Position>,
) -> bool {
    exists|one: Seq<Position>, two: Seq<Position>|
        {
            &&& #[trigger] are_own_signals(rule, world, logical, one)
            &&& #[trigger] are_own_signals(rule, world, source, two)
            &&& is_sorted(contacts)
            &&& forall|cell: Position| #[trigger]
                contacts.contains(cell) <==> additional.contains(cell) || one.contains(cell) || two.contains(cell)
        }
}

/// Whether routes are all ways out of an output.
pub open spec fn are_all_ways_out<
    F: Fn(&World3D, Position, Position) -> bool,
    B: Fn(&World3D, Position) -> Vec<PlaceBound>,
    L: Fn(&World3D, &PlaceRequest) -> Option<(World3D, Position)>,
    P: Fn(&World3D, Position, Block, &Vec<Position>) -> Option<World3D>,
>(
    rule: &F,
    spread: &B,
    place: &L,
    put: &P,
    world: World3D,
    logical: Position,
    source: Position,
    sink: Position,
    additional: Seq<Position>,
    routes: Seq<RouteSearchState>,
) -> bool {
    exists|exits: Seq<ExitKey>, contacts: Seq<Position>, parts: Seq<Seq<RouteSearchState>>|
        {
            &&& #[trigger] are_exits(rule, world, source, sink, exits)
            &&& #[trigger] are_output_contacts(rule, world, logical, source, additional, contacts)
            &&& #[trigger] are_parts(rule, spread, place, put, world, sink, contacts, exits, parts)
            &&& routes == joined(parts)
        }
}

/// Whether parts hold the ways out at each exit.
pub open spec fn are_parts<
    F: Fn(&World3D, Position, Position) -> bool,
    B: Fn(&World3D, Position) -> Vec<PlaceBound>,
    L: Fn(&World3D, &PlaceRequest) -> Option<(World3D, Position)>,
    P: Fn(&World3D, Position, Block, &Vec<Position>) -> Option<World3D>,
>(
    rule: &F,
    spread: &B,
    place: &L,
    put: &P,
    world: World3D,
    sink: Position,
    contacts: Seq<Position>,
    exits: Seq<ExitKey>,
    parts: Seq<Seq<RouteSearchState>>,
) -> bool {
    &&& parts.len() == exits.len()
    &&& forall|i: int|
        0 <= i < parts.len() ==> is_part(
            rule,
            spread,
            place,
            put,
            world,
            sink,
            contacts,
            exits,
            i,
            #[trigger] parts[i],
        )
}

fn leave_by(seed: Position, adapters: Vec<(World3D, Position)>) -> (routes: Vec<RouteSearchState>)
    requires
        forall|i: int| 0 <= i < adapters@.len() ==> (#[trigger] adapters@[i]).0.wf(),
    ensures
        leave_through(seed, adapters@, routes@),
        forall|i: int| 0 <= i < routes@.len() ==> (#[trigger] routes@[i]).world.wf(),
{
    let ghost given = adapters@;
    let mut waiting = adapters;
    let mut routes: Vec<RouteSearchState> = Vec::new();
    while waiting.len() > 0
        invariant
            routes.len() <= given.len(),
            waiting@ == given.skip(routes.len() as int),
            forall|i: int| 0 <= i < given.len() ==> (#[trigger] given[i]).0.wf(),
            leave_through(seed, given.take(routes.len() as int), routes@),
        decreases waiting.len(),
    {
        let ghost at = routes.len() as int;
        let ghost before = routes@;
        assert(waiting@[0] == given[at]);
        let (world, cell) = waiting.remove(0);
        assert(waiting@ =~= given.skip(at + 1));
        let route = vec![seed, cell];
        let powered_taps = vec![PoweredRouteSource { position: cell, strength: MAX_REDSTONE_STRENGTH }];
        assert(route@ =~= seq![seed, cell]);
        assert(powered_taps@ =~= seq![PoweredRouteSource { position: cell, strength: MAX_REDSTONE_STRENGTH }]);
        let ghost placed = world;
        routes.push(
            RouteSearchState {
                world,
                terminal: cell,
                route,
                signal_strength: MAX_REDSTONE_STRENGTH,
                powered_taps,
                pending_bounds: None,
            },
        );
        proof {
            let now = given.take(at + 1);
            assert(now[at] == given[at]);
            assert forall|i: int| 0 <= i < at implies #[trigger] routes@[i] == before[i] && now[i] == given.take(at)[i] by {}
        }
    }
    assert(given.take(routes.len() as int) =~= given);
    proof {
        assert forall|i: int| 0 <= i < routes@.len() implies (#[trigger] routes@[i]).world.wf() by {
            assert(given[i].0.wf());
        }
    }
    routes
}

/// All ways to cut an output off and to leave it.
pub fn isolated_output_repeater_initial_states<
    F: Fn(&World3D, Position, Position) -> bool,
    B: Fn(&World3D, Position) -> Vec<PlaceBound>,
    L: Fn(&World3D, &PlaceRequest) -> Option<(World3D, Position)>,
    P: Fn(&World3D, Position, Block, &Vec<Position>) -> Option<World3D>,
>(
    rule: &F,
    spread: &B,
    place: &L,
    put: &P,
    world: &World3D,
    logical_source: Position,
    route_source: Position,
    sink: Position,
    additional: &Vec<Position>,
) -> (routes: Vec<RouteSearchState>)
    requires
        is_rule(rule),
        is_spreader(spread),
        is_placer(place),
        is_builder(put),
        world.wf(),
    ensures
        are_all_ways_out(
            rule,
            spread,
            place,
            put,
            *world,
            logical_source,
            route_source,
            sink,
            additional@,
            routes@,
        ),
        forall|i: int| 0 <= i < routes@.len() ==> (#[trigger] routes@[i]).world.wf(),
{
    let exits = find_exits(rule, world, route_source, sink);
    let one = source_signal_positions(rule, world, logical_source);
    let two = source_signal_positions(rule, world, route_source);
    let mut contacts: Vec<Position> = Vec::new();
    extend_sorted(&mut contacts, additional);
    extend_sorted(&mut contacts, &one);
    extend_sorted(&mut contacts, &two);
    proof {
        assert(are_own_signals(rule, *world, logical_source, one@));
        assert(are_own_signals(rule, *world, route_source, two@));
        assert(are_output_contacts(rule, *world, logical_source, route_source, additional@, contacts@));
    }
    let mut routes: Vec<RouteSearchState> = Vec::new();
    let ghost mut parts = Seq::<Seq<RouteSearchState>>::empty();
    assert(routes@ =~= joined(parts));
    let mut index: usize = 0;
    while index < exits.len()
        invariant
            index <= exits.len(),
            is_rule(rule),
            is_spreader(spread),
            is_placer(place),
            is_builder(put),
            world.wf(),
            parts.len() == index,
            routes@ == joined(parts),
            all_wf(routes@),
            forall|i: int|
                0 <= i < index ==> is_part(
                    rule,
                    spread,
                    place,
                    put,
                    *world,
                    sink,
                    contacts@,
                    exits@,
                    i,
                    #[trigger] parts[i],
                ),
        decreases exits.len() - index,
    {
        let seed = exits[index].cell;
        let repeated = index > 0 && exits[index - 1].cell == seed;
        let mut part: Vec<RouteSearchState> = Vec::new();
        if !repeated && world.size.bound_on(seed) && is_route_terminal(world, seed) {
            let (adapters, tried) = output_repeater_adapters(rule, put, world, seed, &contacts);
            let mut near = leave_by(seed, adapters);
            let mut far = escaped_output_repeater_initial_states(
                rule,
                spread,
                place,
                put,
                world,
                seed,
                sink,
                &contacts,
            );
            let ghost here = near@;
            let ghost there = far@;
            part.append(&mut near);
            part.append(&mut far);
            proof {
                assert(part@ =~= here + there);
                assert(are_adapters(rule, put, *world, seed, contacts@, tried@.0, tried@.1));
                assert(leave_through(seed, built(tried@.1), here));
                assert(are_escapes(rule, spread, place, put, *world, seed, sink, contacts@, there));
                assert forall|i: int| 0 <= i < part@.len() implies (#[trigger] part@[i]).world.wf() by {
                    if i < here.len() {
                        assert(here[i].world.wf());
                    } else {
                        assert(there[i - here.len()].world.wf());
                    }
                }
            }
        }
        let ghost added = part@;
        let ghost before = parts;
        let ghost so_far = routes@;
        proof {
            parts = before.push(added);
            assert(parts.drop_last() =~= before);
            assert(is_part(rule, spread, place, put, *world, sink, contacts@, exits@, index as int, added));
            assert forall|i: int| 0 <= i < index + 1 implies is_part(
                rule,
                spread,
                place,
                put,
                *world,
                sink,
                contacts@,
                exits@,
                i,
                #[trigger] parts[i],
            ) by {
                if i < index {
                    assert(parts[i] == before[i]);
                }
            }
        }
        routes.append(&mut part);
        proof {
            assert forall|i: int| 0 <= i < routes@.len() implies (#[trigger] routes@[i]).world.wf() by {
                if i < so_far.len() {
                    assert(so_far[i].world.wf());
                } else {
                    assert(added[i - so_far.len()].world.wf());
                }
            }
        }
        index += 1;
    }
    proof {
        assert(are_exits(rule, *world, route_source, sink, exits@));
        assert(are_parts(rule, spread, place, put, *world, sink, contacts@, exits@, parts));
    }
    routes
}

} // verus!

//! What a route does that was found between two cells.

use super::contacts::{added_blocks, are_own_signals, is_goal_contact, nearest_first, touches_foreign};
use super::engine::{is_fresh, is_routed_from, is_routed_twice, nearby_question, same_state};
use super::goal::{goal_of, RouteGoal};
use super::queue::{is_last, is_next, is_pushed, QueueEntry};
use super::route::{RouteFailure, RoutedNet};
use super::search::{
    attempts_of, bound_attempts, entry_of, follows_at, is_attempt, is_extended, is_request, is_routed, is_run,
    strength_behind, task_of, Attempt, Moment, PlaceRequest, RouteQuestion, SearchTask,
};
use super::state::{is_signal, PlaceBound, PoweredRouteSource, RouteSearchState};
use crate::transform::place_and_route::global_pnr::dust::says;
use crate::world::grid::{Placed, World3D};
use crate::world::position::{distance, in_bounds, DimSize, Direction, Position};
use vstd::prelude::*;

verus! {

/// Whether a direction is level.
pub open spec fn is_level(direction: Direction) -> bool {
    direction == Direction::East || direction == Direction::West || direction == Direction::South || direction
        == Direction::North
}

/// Whether a cell may be the next of a route to a sink: it lies in the world, and
/// it is not the block that the route is to power.
pub open spec fn may_hold_next(size: DimSize, goal: RouteGoal, cell: Position) -> bool {
    &&& in_bounds(size, cell)
    &&& match goal {
        RouteGoal::ConnectPosition { target } => cell != target,
        RouteGoal::PowerCobble { cobble } => cell != cobble,
        RouteGoal::PlaceRedstone { .. } => true,
    }
}

/// Whether what is laid next suits a signal: dust takes one off it and needs some
/// to be left, and a repeater, on the level, makes a fading one fresh.
pub open spec fn suits(repeater: Option<Direction>, before: usize, after: usize) -> bool {
    match repeater {
        None => before >= 2 && after == before - 1,
        Some(direction) => is_level(direction) && before <= 2 && after == 15,
    }
}

/// Whether a route was extended as it was asked for.
pub open spec fn is_laid<L: Fn(&World3D, &PlaceRequest) -> Option<(World3D, Position)>>(
    place: &L,
    goal: RouteGoal,
    before: RouteSearchState,
    after: RouteSearchState,
    request: PlaceRequest,
) -> bool {
    &&& call_ensures(*place, (&before.world, &request), Some((after.world, after.terminal)))
    &&& request.from == before.terminal
    &&& may_hold_next(before.world.size, goal, request.bound.position)
    &&& suits(request.repeater, before.signal_strength, after.signal_strength)
}

/// Whether a block touches one of the cells that it is to keep away from: it
/// powers it from nearby, or is powered by it.
pub open spec fn is_kept_away<F: Fn(&World3D, Position, Position) -> bool>(
    rule: &F,
    world: World3D,
    cell: Position,
    other: Position,
) -> bool {
    distance(cell, other) <= 3 ==> !says(rule, world, cell, other) && !says(rule, world, other, cell)
}

/// Whether one cell was added to a route.
pub open spec fn is_step<
    F: Fn(&World3D, Position, Position) -> bool,
    L: Fn(&World3D, &PlaceRequest) -> Option<(World3D, Position)>,
>(
    rule: &F,
    place: &L,
    goal: RouteGoal,
    foreign: Seq<Position>,
    before: RouteSearchState,
    after: RouteSearchState,
) -> bool {
    &&& is_signal(before.world.at(before.terminal).kind)
    &&& after.route@ == before.route@.push(after.terminal)
    &&& after.powered_taps@ == before.powered_taps@.push(
        PoweredRouteSource { position: after.terminal, strength: after.signal_strength },
    )
    &&& exists|request: PlaceRequest| #[trigger] is_laid(place, goal, before, after, request)
    &&& forall|k: int| 0 <= k < foreign.len() ==> is_kept_away(rule, after.world, after.terminal, #[trigger] foreign[k])
}

pub open spec fn steps_at<
    F: Fn(&World3D, Position, Position) -> bool,
    L: Fn(&World3D, &PlaceRequest) -> Option<(World3D, Position)>,
>(rule: &F, place: &L, goal: RouteGoal, foreign: Seq<Position>, journey: Seq<RouteSearchState>, k: int) -> bool {
    is_step(rule, place, goal, foreign, journey[k - 1], journey[k])
}

/// Whether states are those of a route that was laid cell by cell.
pub open spec fn is_journey<
    F: Fn(&World3D, Position, Position) -> bool,
    L: Fn(&World3D, &PlaceRequest) -> Option<(World3D, Position)>,
>(rule: &F, place: &L, goal: RouteGoal, foreign: Seq<Position>, journey: Seq<RouteSearchState>) -> bool {
    &&& journey.len() > 0
    &&& forall|k: int| 0 < k < journey.len() ==> #[trigger] steps_at(rule, place, goal, foreign, journey, k)
}

spec fn is_led_to<
    F: Fn(&World3D, Position, Position) -> bool,
    L: Fn(&World3D, &PlaceRequest) -> Option<(World3D, Position)>,
>(rule: &F, place: &L, task: SearchTask, initial: RouteSearchState, state: RouteSearchState) -> bool {
    exists|journey: Seq<RouteSearchState>| #[trigger]
        is_journey(rule, place, task.goal, task.foreign, journey) && journey[0] == initial && journey.last() == state
}

proof fn journey_begins<
    F: Fn(&World3D, Position, Position) -> bool,
    L: Fn(&World3D, &PlaceRequest) -> Option<(World3D, Position)>,
>(rule: &F, place: &L, task: SearchTask, initial: RouteSearchState)
    ensures
        is_led_to(rule, place, task, initial, initial),
{
    let journey = seq![initial];
    assert(is_journey(rule, place, task.goal, task.foreign, journey));
    assert(journey[0] == initial && journey.last() == initial);
}

proof fn journey_goes_on<
    F: Fn(&World3D, Position, Position) -> bool,
    L: Fn(&World3D, &PlaceRequest) -> Option<(World3D, Position)>,
>(
    rule: &F,
    place: &L,
    task: SearchTask,
    initial: RouteSearchState,
    state: RouteSearchState,
    next: RouteSearchState,
)
    requires
        is_led_to(rule, place, task, initial, state),
        is_step(rule, place, task.goal, task.foreign, state, next),
    ensures
        is_led_to(rule, place, task, initial, next),
{
    let journey = choose|journey: Seq<RouteSearchState>| #[trigger]
        is_journey(rule, place, task.goal, task.foreign, journey) && journey[0] == initial && journey.last() == state;
    let longer = journey.push(next);
    assert forall|k: int| 0 < k < longer.len() implies #[trigger] steps_at(
        rule,
        place,
        task.goal,
        task.foreign,
        longer,
        k,
    ) by {
        if k < journey.len() {
            assert(steps_at(rule, place, task.goal, task.foreign, journey, k));
            assert(longer[k] == journey[k] && longer[k - 1] == journey[k - 1]);
        }
    }
    assert(is_journey(rule, place, task.goal, task.foreign, longer));
    assert(longer[0] == initial && longer.last() == next);
}

// ---------------------------------------------------------------------------
// What is tried
// ---------------------------------------------------------------------------
/// Whether something can be tried in a cell: dust where the signal still has
/// strength to lose, and repeaters where it fades.
pub open spec fn is_way_on(attempt: Attempt, size: DimSize, goal: RouteGoal, strength: usize) -> bool {
    &&& may_hold_next(size, goal, attempt.bound.position)
    &&& match attempt.repeater {
        None => strength >= 2,
        Some(direction) => strength <= 2 && is_level(direction),
    }
}

proof fn ways_of_bound(bound: PlaceBound, size: DimSize, goal: RouteGoal, strength: usize, attempt: Attempt)
    ensures
        bound_attempts(bound, size, goal, strength).contains(attempt) <==> attempt.bound == bound && is_way_on(
            attempt,
            size,
            goal,
            strength,
        ),
{
    let all = bound_attempts(bound, size, goal, strength);
    if attempt.bound == bound && is_way_on(attempt, size, goal, strength) {
        let dust = Attempt { bound, repeater: None };
        let offset: int = if strength == 2 { 1 } else { 0 };
        match attempt.repeater {
            None => {
                assert(all[0] == attempt);
            },
            Some(direction) => {
                let at: int = offset + (if direction == Direction::East {
                    0int
                } else if direction == Direction::West {
                    1int
                } else if direction == Direction::South {
                    2int
                } else {
                    3int
                });
                assert(all[at] == attempt);
            },
        }
    }
}

proof fn ways_of_bounds(
    bounds: Seq<PlaceBound>,
    size: DimSize,
    goal: RouteGoal,
    strength: usize,
    count: nat,
    attempt: Attempt,
)
    requires
        count <= bounds.len(),
    ensures
        attempts_of(bounds, size, goal, strength, count).contains(attempt) <==> is_way_on(attempt, size, goal, strength)
            && bounds.take(count as int).contains(attempt.bound),
    decreases count,
{
    let some = bounds.take(count as int);
    if count > 0 {
        let fewer = bounds.take(count - 1);
        let last = bounds[count - 1];
        ways_of_bounds(bounds, size, goal, strength, (count - 1) as nat, attempt);
        ways_of_bound(last, size, goal, strength, attempt);
        let rest = attempts_of(bounds, size, goal, strength, (count - 1) as nat);
        let more = bound_attempts(last, size, goal, strength);
        let all = rest + more;
        if rest.contains(attempt) {
            let i = choose|i: int| 0 <= i < rest.len() && rest[i] == attempt;
            assert(all[i] == attempt);
        }
        if more.contains(attempt) {
            let i = choose|i: int| 0 <= i < more.len() && more[i] == attempt;
            assert(all[rest.len() + i] == attempt);
        }
        if all.contains(attempt) {
            let i = choose|i: int| 0 <= i < all.len() && all[i] == attempt;
            if i < rest.len() {
                assert(rest[i] == attempt);
            } else {
                assert(more[i - rest.len()] == attempt);
            }
        }
        if fewer.contains(attempt.bound) {
            let i = choose|i: int| 0 <= i < fewer.len() && fewer[i] == attempt.bound;
            assert(some[i] == attempt.bound);
        }
        if attempt.bound == last {
            assert(some[count - 1] == attempt.bound);
        }
        if some.contains(attempt.bound) {
            let i = choose|i: int| 0 <= i < some.len() && some[i] == attempt.bound;
            if i < count - 1 {
                assert(fewer[i] == attempt.bound);
            }
        }
    }
}

/// A route tries to go on into each of its bounds that lies in the world and is
/// not what it is to power: with dust where its signal still has strength to lose,
/// and with a repeater in each level direction where it fades. It tries nothing
/// else.
pub proof fn every_way_on_is_tried(
    bounds: Seq<PlaceBound>,
    size: DimSize,
    goal: RouteGoal,
    strength: usize,
    attempt: Attempt,
)
    ensures
        attempts_of(bounds, size, goal, strength, bounds.len()).contains(attempt) <==> is_way_on(
            attempt,
            size,
            goal,
            strength,
        ) && bounds.contains(attempt.bound),
{
    ways_of_bounds(bounds, size, goal, strength, bounds.len(), attempt);
    assert(bounds.take(bounds.len() as int) =~= bounds);
}

// ---------------------------------------------------------------------------
// What is found
// ---------------------------------------------------------------------------
spec fn all_led_to<
    F: Fn(&World3D, Position, Position) -> bool,
    L: Fn(&World3D, &PlaceRequest) -> Option<(World3D, Position)>,
>(rule: &F, place: &L, task: SearchTask, initial: RouteSearchState, entries: Seq<QueueEntry>) -> bool {
    forall|i: int| 0 <= i < entries.len() ==> is_led_to(rule, place, task, initial, (#[trigger] entries[i]).state)
}

spec fn moment_is_led_to<
    F: Fn(&World3D, Position, Position) -> bool,
    L: Fn(&World3D, &PlaceRequest) -> Option<(World3D, Position)>,
>(rule: &F, place: &L, task: SearchTask, initial: RouteSearchState, moment: Moment) -> bool {
    &&& all_led_to(rule, place, task, initial, moment.entries)
    &&& moment.current matches Some(expansion) ==> {
        let state = expansion.state;
        &&& is_led_to(rule, place, task, initial, state)
        &&& is_signal(state.world.at(state.terminal).kind)
        &&& forall|i: int|
            0 <= i < expansion.attempts.len() ==> is_way_on(
                #[trigger] expansion.attempts[i],
                state.world.size,
                task.goal,
                state.signal_strength,
            )
    }
}

proof fn pushing_is_led_to<
    F: Fn(&World3D, Position, Position) -> bool,
    L: Fn(&World3D, &PlaceRequest) -> Option<(World3D, Position)>,
>(
    rule: &F,
    place: &L,
    task: SearchTask,
    initial: RouteSearchState,
    before: Seq<QueueEntry>,
    entry: QueueEntry,
    after: Seq<QueueEntry>,
)
    requires
        all_led_to(rule, place, task, initial, before),
        is_led_to(rule, place, task, initial, entry.state),
        is_pushed(task.strategy, before, entry, after),
    ensures
        all_led_to(rule, place, task, initial, after),
{
    let all = before.push(entry);
    assert forall|i: int| 0 <= i < all.len() implies is_led_to(rule, place, task, initial, (#[trigger] all[i]).state) by {
        if i < before.len() {
            assert(all[i] == before[i]);
        }
    }
    if task.strategy is GreedyBeam && after != all {
        let worst = choose|worst: int| #[trigger] is_last(all, worst) && after == all.remove(worst);
        assert forall|i: int| 0 <= i < after.len() implies is_led_to(
            rule,
            place,
            task,
            initial,
            (#[trigger] after[i]).state,
        ) by {
            assert(after[i] == all[if i < worst { i } else { i + 1 }]);
        }
    } else if task.strategy is DirectGreedy && after.len() == 1 && after[0] == entry {
        assert forall|i: int| 0 <= i < after.len() implies is_led_to(
            rule,
            place,
            task,
            initial,
            (#[trigger] after[i]).state,
        ) by {}
    }
}

proof fn attempting_is_led_to<
    F: Fn(&World3D, Position, Position) -> bool,
    L: Fn(&World3D, &PlaceRequest) -> Option<(World3D, Position)>,
>(
    rule: &F,
    place: &L,
    task: SearchTask,
    initial: RouteSearchState,
    before: Moment,
    after: Moment,
    request: PlaceRequest,
    outcome: Option<(World3D, Position)>,
)
    requires
        moment_is_led_to(rule, place, task, initial, before),
        before.current matches Some(expansion) && 0 <= expansion.next < expansion.attempts.len() && is_request(
            request,
            expansion.attempts[expansion.next],
            expansion.state.terminal,
            task.goal,
        ) && call_ensures(*place, (&expansion.state.world, &request), outcome),
        is_attempt(rule, task, before, after, outcome),
    ensures
        moment_is_led_to(rule, place, task, initial, after),
{
    let expansion = before.current->0;
    if after.sequence == before.sequence + 1 && outcome is Some {
        let placed = outcome->0;
        let attempt = expansion.attempts[expansion.next];
        let strength = strength_behind(attempt, expansion.state.signal_strength);
        if !touches_foreign(rule, placed.0, placed.1, task.foreign) {
            let next = choose|next: RouteSearchState| #[trigger]
                is_extended(expansion.state, placed.0, placed.1, strength, next) && is_pushed(
                    task.strategy,
                    before.entries,
                    entry_of(task, next, before.sequence),
                    after.entries,
                );
            assert(is_way_on(
                expansion.attempts[expansion.next],
                expansion.state.world.size,
                task.goal,
                expansion.state.signal_strength,
            ));
            assert(is_laid(place, task.goal, expansion.state, next, request));
            assert forall|k: int| 0 <= k < task.foreign.len() implies is_kept_away(
                rule,
                next.world,
                next.terminal,
                #[trigger] task.foreign[k],
            ) by {}
            assert(is_step(rule, place, task.goal, task.foreign, expansion.state, next));
            journey_goes_on(rule, place, task, initial, expansion.state, next);
            pushing_is_led_to(
                rule,
                place,
                task,
                initial,
                before.entries,
                entry_of(task, next, before.sequence),
                after.entries,
            );
        }
    }
}

proof fn run_is_led_to<
    F: Fn(&World3D, Position, Position) -> bool,
    C: Fn(&World3D, Position, Position) -> bool,
    B: Fn(&World3D, Position) -> Vec<PlaceBound>,
    L: Fn(&World3D, &PlaceRequest) -> Option<(World3D, Position)>,
>(
    rule: &F,
    cobble_rule: &C,
    spread: &B,
    place: &L,
    task: SearchTask,
    initial: RouteSearchState,
    run: Seq<Moment>,
    k: int,
)
    requires
        is_run(rule, cobble_rule, spread, place, task, initial, run),
        0 <= k < run.len(),
    ensures
        moment_is_led_to(rule, place, task, initial, run[k]),
    decreases k,
{
    if k == 0 {
        journey_begins(rule, place, task, initial);
        pushing_is_led_to(rule, place, task, initial, Seq::empty(), entry_of(task, initial, 0), run[0].entries);
    } else {
        run_is_led_to(rule, cobble_rule, spread, place, task, initial, run, k - 1);
        assert(follows_at(rule, cobble_rule, spread, place, task, run, k));
        let before = run[k - 1];
        let after = run[k];
        match before.current {
            None => {
                let index = choose|index: int| #[trigger]
                    is_next(task.strategy, before.entries, index) && after.entries == before.entries.remove(index) && (
                    after.current matches Some(expansion) ==> expansion.state == before.entries[index].state
                        && is_signal(expansion.state.world.at(expansion.state.terminal).kind) && exists|
                        bounds: Seq<PlaceBound>,
                    |
                        expansion.attempts == #[trigger] attempts_of(
                            nearest_first(bounds, task.sink),
                            expansion.state.world.size,
                            task.goal,
                            expansion.state.signal_strength,
                            bounds.len(),
                        ));
                assert forall|i: int| 0 <= i < after.entries.len() implies is_led_to(
                    rule,
                    place,
                    task,
                    initial,
                    (#[trigger] after.entries[i]).state,
                ) by {
                    assert(after.entries[i] == before.entries[if i < index { i } else { i + 1 }]);
                }
                if let Some(expansion) = after.current {
                    let state = expansion.state;
                    let bounds = choose|bounds: Seq<PlaceBound>|
                        expansion.attempts == #[trigger] attempts_of(
                            nearest_first(bounds, task.sink),
                            state.world.size,
                            task.goal,
                            state.signal_strength,
                            bounds.len(),
                        );
                    let sorted = nearest_first(bounds, task.sink);
                    assert forall|i: int| 0 <= i < expansion.attempts.len() implies is_way_on(
                        #[trigger] expansion.attempts[i],
                        state.world.size,
                        task.goal,
                        state.signal_strength,
                    ) by {
                        every_way_on_is_tried(
                            sorted,
                            state.world.size,
                            task.goal,
                            state.signal_strength,
                            expansion.attempts[i],
                        );
                        assert(sorted.len() == bounds.len());
                        assert(expansion.attempts.contains(expansion.attempts[i]));
                    }
                }
            },
            Some(expansion) => {
                if 0 <= expansion.next < expansion.attempts.len() {
                    let (request, outcome) = choose|request: PlaceRequest, outcome: Option<(World3D, Position)>| #[trigger]
                        call_ensures(*place, (&expansion.state.world, &request), outcome) && is_request(
                            request,
                            expansion.attempts[expansion.next],
                            expansion.state.terminal,
                            task.goal,
                        ) && is_attempt(rule, task, before, after, outcome);
                    attempting_is_led_to(rule, place, task, initial, before, after, request, outcome);
                }
            },
        }
    }
}

/// Whether a route ends where it powers its sink: beside a block that is powered
/// from there or powers what stands there, or, where the sink was free, in dust in
/// the sink itself.
pub open spec fn serves<
    F: Fn(&World3D, Position, Position) -> bool,
    C: Fn(&World3D, Position, Position) -> bool,
>(rule: &F, cobble_rule: &C, world: World3D, sink: Position, after: World3D, end: Position) -> bool {
    &&& is_signal(after.at(end).kind)
    &&& world.at(sink).kind is Cobble ==> says(cobble_rule, after, end, sink)
    &&& world.at(sink).kind is Air ==> end == sink && after.at(sink).kind is Redstone
    &&& !(world.at(sink).kind is Cobble) && !(world.at(sink).kind is Air) ==> says(rule, after, sink, end)
}

/// Whether a route is one that was laid cell by cell from a state to its sink.
pub open spec fn is_laid_route<
    F: Fn(&World3D, Position, Position) -> bool,
    C: Fn(&World3D, Position, Position) -> bool,
    L: Fn(&World3D, &PlaceRequest) -> Option<(World3D, Position)>,
>(
    rule: &F,
    cobble_rule: &C,
    place: &L,
    question: RouteQuestion,
    net: RoutedNet,
    after: World3D,
    foreign: Seq<Position>,
    journey: Seq<RouteSearchState>,
) -> bool {
    let last = journey.last();
    &&& is_journey(rule, place, goal_of(question.world, question.sink), foreign, journey)
    &&& last.world == after
    &&& net.path@ == last.route@
    &&& net.powered_taps@.len() == last.powered_taps@.len()
    &&& forall|i: int|
        0 <= i < net.powered_taps@.len() ==> (#[trigger] net.powered_taps@[i]).0 == last.powered_taps@[i].position
            && net.powered_taps@[i].1 == last.powered_taps@[i].strength
    &&& serves(rule, cobble_rule, question.world, question.sink, after, last.terminal)
}

/// Whether cells are the signals that a route is to keep away from: those of the
/// world but for its source, what carries the signal of the source, what it is
/// allowed to touch, and what is at its goal.
pub open spec fn are_kept_away_from<F: Fn(&World3D, Position, Position) -> bool>(
    rule: &F,
    question: RouteQuestion,
    foreign: Seq<Position>,
) -> bool {
    exists|own: Seq<Position>|
        {
            &&& #[trigger] are_own_signals(rule, question.world, question.source, own)
            &&& forall|cell: Position| #[trigger]
                foreign.contains(cell) <==> {
                    &&& is_signal(question.world.at(cell).kind)
                    &&& cell != question.source
                    &&& !own.contains(cell)
                    &&& !question.allowed.contains(cell)
                    &&& !is_goal_contact(question.world, goal_of(question.world, question.sink), cell)
                }
        }
}

/// Whether blocks are those that a world has gained.
pub open spec fn are_gained(before: World3D, after: World3D, blocks: Seq<Placed>) -> bool {
    forall|placed: Placed| #[trigger]
        blocks.contains(placed) <==> after.listed().contains(placed) && before.at(placed.0) != placed.1
}

proof fn added_are_gained(before: World3D, after: World3D, count: nat, placed: Placed)
    requires
        count <= after.listed().len(),
    ensures
        added_blocks(before, after, count).contains(placed) <==> after.listed().take(count as int).contains(placed)
            && before.at(placed.0) != placed.1,
    decreases count,
{
    let some = after.listed().take(count as int);
    if count > 0 {
        let fewer = after.listed().take(count - 1);
        let last = after.listed()[count - 1];
        added_are_gained(before, after, (count - 1) as nat, placed);
        let rest = added_blocks(before, after, (count - 1) as nat);
        let all = added_blocks(before, after, count);
        if rest.contains(placed) {
            let i = choose|i: int| 0 <= i < rest.len() && rest[i] == placed;
            assert(all[i] == placed);
        }
        if placed == last {
            assert(some[count - 1] == placed);
            if before.at(placed.0) != placed.1 {
                assert(all[rest.len() as int] == placed);
            }
        }
        if all.contains(placed) {
            let i = choose|i: int| 0 <= i < all.len() && all[i] == placed;
            if i < rest.len() {
                assert(rest[i] == placed);
            }
        }
        if fewer.contains(placed) {
            let i = choose|i: int| 0 <= i < fewer.len() && fewer[i] == placed;
            assert(some[i] == placed);
        }
        if some.contains(placed) {
            let i = choose|i: int| 0 <= i < some.len() && some[i] == placed;
            if i < count - 1 {
                assert(fewer[i] == placed);
            }
        }
    }
}

proof fn search_is_laid<
    F: Fn(&World3D, Position, Position) -> bool,
    C: Fn(&World3D, Position, Position) -> bool,
    B: Fn(&World3D, Position) -> Vec<PlaceBound>,
    L: Fn(&World3D, &PlaceRequest) -> Option<(World3D, Position)>,
>(
    rule: &F,
    cobble_rule: &C,
    spread: &B,
    place: &L,
    question: RouteQuestion,
    initial: RouteSearchState,
    net: RoutedNet,
    after: World3D,
) -> (found: (Seq<Position>, Seq<RouteSearchState>))
    requires
        is_routed(
            rule,
            cobble_rule,
            spread,
            place,
            question,
            goal_of(question.world, question.sink),
            initial,
            Ok::<(RoutedNet, World3D), RouteFailure>((net, after)),
        ),
    ensures
        are_kept_away_from(rule, question, found.0),
        is_laid_route(rule, cobble_rule, place, question, net, after, found.0, found.1),
        found.1[0] == initial,
        net.source == question.source,
        net.sink == question.sink,
        net.required_powered_positions@ == seq![question.sink],
        net.required_released_positions@ == seq![question.sink],
        are_gained(question.world, after, net.blocks@),
{
    let goal = goal_of(question.world, question.sink);
    let result = Ok::<(RoutedNet, World3D), RouteFailure>((net, after));
    let foreign = choose|foreign: Seq<Position>| #[trigger]
        super::contacts::are_foreign(rule, question.world, question.source, goal, question.allowed, foreign)
            && super::search::is_search(
            rule,
            cobble_rule,
            spread,
            place,
            task_of(
                question.world,
                question.source,
                question.sink,
                goal,
                question.nearby,
                question.strategy,
                question.model,
                foreign,
            ),
            initial,
            result,
        );
    let task = task_of(
        question.world,
        question.source,
        question.sink,
        goal,
        question.nearby,
        question.strategy,
        question.model,
        foreign,
    );
    let own = choose|own: Seq<Position>| #[trigger]
        are_own_signals(rule, question.world, question.source, own) && forall|cell: Position| #[trigger]
            foreign.contains(cell) <==> super::contacts::is_foreign(
                question.world,
                question.source,
                goal,
                question.allowed,
                own,
                cell,
            );
    assert(are_own_signals(rule, question.world, question.source, own));
    let run = choose|run: Seq<Moment>| #[trigger]
        is_run(rule, cobble_rule, spread, place, task, initial, run) && super::search::is_end(
            rule,
            cobble_rule,
            task,
            run.last(),
            result,
        );
    run_is_led_to(rule, cobble_rule, spread, place, task, initial, run, run.len() - 1);
    let moment = run.last();
    let index = choose|index: int| #[trigger]
        is_next(task.strategy, moment.entries, index) && super::search::is_found(
            rule,
            cobble_rule,
            task,
            moment.entries[index].state,
        ) && super::search::is_route_of(task, moment.entries[index].state, net, after);
    let state = moment.entries[index].state;
    assert(is_led_to(rule, place, task, initial, moment.entries[index].state));
    let journey = choose|journey: Seq<RouteSearchState>| #[trigger]
        is_journey(rule, place, task.goal, task.foreign, journey) && journey[0] == initial && journey.last() == state;
    assert forall|placed: Placed| #[trigger] net.blocks@.contains(placed) <==> after.listed().contains(placed)
        && question.world.at(placed.0) != placed.1 by {
        added_are_gained(question.world, after, after.listed().len(), placed);
        assert(after.listed().take(after.listed().len() as int) =~= after.listed());
    }
    (foreign, journey)
}

/// Whether a route between two cells was laid from its source as it should: with
/// its blocks, its demands, and states that led from a world to another.
pub open spec fn is_sound_route<
    F: Fn(&World3D, Position, Position) -> bool,
    C: Fn(&World3D, Position, Position) -> bool,
    L: Fn(&World3D, &PlaceRequest) -> Option<(World3D, Position)>,
>(
    rule: &F,
    cobble_rule: &C,
    place: &L,
    question: RouteQuestion,
    initial: RouteSearchState,
    net: RoutedNet,
    after: World3D,
) -> bool {
    &&& net.source == question.source
    &&& net.sink == question.sink
    &&& net.required_powered_positions@ == seq![question.sink]
    &&& net.required_released_positions@ == seq![question.sink]
    &&& are_gained(question.world, after, net.blocks@)
    &&& exists|foreign: Seq<Position>, journey: Seq<RouteSearchState>|
        {
            &&& are_kept_away_from(rule, question, foreign)
            &&& #[trigger] is_laid_route(rule, cobble_rule, place, question, net, after, foreign, journey)
            &&& same_state(journey[0], initial)
        }
}

/// A route that goes on from a state and is found, whether where power spreads or
/// nearby, was laid cell by cell from there. Each cell was asked for from the end
/// of the route, in the world and not in the place of what is to be powered. Dust
/// took one off the signal and never its last; a repeater came where it faded. No
/// cell touches a foreign signal. The route ends where it serves its sink, and its
/// blocks are those that the world has gained.
pub proof fn continued_route_is_sound<
    F: Fn(&World3D, Position, Position) -> bool,
    C: Fn(&World3D, Position, Position) -> bool,
    B: Fn(&World3D, Position) -> Vec<PlaceBound>,
    L: Fn(&World3D, &PlaceRequest) -> Option<(World3D, Position)>,
>(
    rule: &F,
    cobble_rule: &C,
    spread: &B,
    place: &L,
    question: RouteQuestion,
    initial: RouteSearchState,
    net: RoutedNet,
    after: World3D,
)
    requires
        is_routed_twice(
            rule,
            cobble_rule,
            spread,
            place,
            question,
            initial,
            Ok::<(RoutedNet, World3D), RouteFailure>((net, after)),
        ),
    ensures
        is_sound_route(rule, cobble_rule, place, question, initial, net, after),
{
    let goal = goal_of(question.world, question.sink);
    let result = Ok::<(RoutedNet, World3D), RouteFailure>((net, after));
    let (first, tried) = choose|first: RouteSearchState, tried: Result<(RoutedNet, World3D), RouteFailure>| #[trigger]
        is_routed(rule, cobble_rule, spread, place, question, goal, first, tried) && same_state(first, initial)
            && match tried {
            Ok(_) => result == tried,
            Err(_) => is_routed(
                rule,
                cobble_rule,
                spread,
                place,
                nearby_question(question),
                goal,
                initial,
                result,
            ),
        };
    let (foreign, journey) = if tried is Ok {
        search_is_laid(rule, cobble_rule, spread, place, question, first, net, after)
    } else {
        search_is_laid(rule, cobble_rule, spread, place, nearby_question(question), initial, net, after)
    };
    if tried is Err {
        let near = nearby_question(question);
        let own = choose|own: Seq<Position>|
            {
                &&& #[trigger] are_own_signals(rule, near.world, near.source, own)
                &&& forall|cell: Position| #[trigger]
                    foreign.contains(cell) <==> {
                        &&& is_signal(near.world.at(cell).kind)
                        &&& cell != near.source
                        &&& !own.contains(cell)
                        &&& !near.allowed.contains(cell)
                        &&& !is_goal_contact(near.world, goal_of(near.world, near.sink), cell)
                    }
            };
        assert(are_own_signals(rule, question.world, question.source, own));
        assert(are_kept_away_from(rule, question, foreign));
    }
    assert(is_laid_route(rule, cobble_rule, place, question, net, after, foreign, journey));
    assert(same_state(journey[0], initial));
}

proof fn journey_signal<
    F: Fn(&World3D, Position, Position) -> bool,
    L: Fn(&World3D, &PlaceRequest) -> Option<(World3D, Position)>,
>(
    rule: &F,
    place: &L,
    goal: RouteGoal,
    foreign: Seq<Position>,
    journey: Seq<RouteSearchState>,
    source: Position,
    strength: usize,
    k: int,
)
    requires
        is_journey(rule, place, goal, foreign, journey),
        journey[0].route@ == seq![source],
        journey[0].terminal == source,
        journey[0].signal_strength == strength,
        journey[0].powered_taps@ == seq![PoweredRouteSource { position: source, strength }],
        0 <= k < journey.len(),
    ensures
        journey[k].route@.len() == k + 1,
        journey[k].powered_taps@.len() == k + 1,
        journey[k].route@[0] == source,
        journey[k].powered_taps@[0].strength == strength,
        journey[k].route@.last() == journey[k].terminal,
        journey[k].powered_taps@.last().strength == journey[k].signal_strength,
        forall|i: int|
            0 <= i <= k ==> (#[trigger] journey[k].powered_taps@[i]).position == journey[k].route@[i],
        forall|i: int|
            0 < i <= k ==> fades_or_is_fresh(
                journey[k].powered_taps@[i - 1].strength,
                (#[trigger] journey[k].powered_taps@[i]).strength,
            ),
    decreases k,
{
    if k > 0 {
        journey_signal(rule, place, goal, foreign, journey, source, strength, k - 1);
        assert(steps_at(rule, place, goal, foreign, journey, k));
        let before = journey[k - 1];
        let after = journey[k];
        let request = choose|request: PlaceRequest| #[trigger] is_laid(place, goal, before, after, request);
        assert forall|i: int| 0 <= i <= k implies (#[trigger] after.powered_taps@[i]).position == after.route@[i] by {
            if i < k {
                assert(after.powered_taps@[i] == before.powered_taps@[i]);
                assert(before.powered_taps@[i].position == before.route@[i]);
            }
        }
        assert forall|i: int| 0 < i <= k implies fades_or_is_fresh(
            after.powered_taps@[i - 1].strength,
            (#[trigger] after.powered_taps@[i]).strength,
        ) by {
            assert(after.powered_taps@[i - 1] == before.powered_taps@[i - 1]);
            if i < k {
                assert(after.powered_taps@[i] == before.powered_taps@[i]);
            }
        }
    }
}

/// Whether a signal lost one and is not lost, or faded and is fresh again.
pub open spec fn fades_or_is_fresh(before: usize, after: usize) -> bool {
    ||| after >= 1 && after == before - 1
    ||| before <= 2 && after == 15
}

/// A route that is found begins at its source and ends where it serves its sink.
/// The signal can be taken up from each of its cells; from cell to cell it loses
/// one, and before it is lost it is fresh again.
pub proof fn found_route_carries_its_signal<
    F: Fn(&World3D, Position, Position) -> bool,
    C: Fn(&World3D, Position, Position) -> bool,
    B: Fn(&World3D, Position) -> Vec<PlaceBound>,
    L: Fn(&World3D, &PlaceRequest) -> Option<(World3D, Position)>,
>(
    rule: &F,
    cobble_rule: &C,
    spread: &B,
    place: &L,
    question: RouteQuestion,
    strength: usize,
    net: RoutedNet,
    after: World3D,
)
    requires
        is_routed_from(
            rule,
            cobble_rule,
            spread,
            place,
            question,
            strength,
            Ok::<(RoutedNet, World3D), RouteFailure>((net, after)),
        ),
    ensures
        net.source == question.source,
        net.sink == question.sink,
        net.required_powered_positions@ == seq![question.sink],
        net.required_released_positions@ == seq![question.sink],
        are_gained(question.world, after, net.blocks@),
        net.path@.len() > 0,
        net.path@[0] == question.source,
        serves(rule, cobble_rule, question.world, question.sink, after, net.path@.last()),
        net.powered_taps@.len() == net.path@.len(),
        net.powered_taps@[0].1 == strength,
        forall|i: int| 0 <= i < net.path@.len() ==> (#[trigger] net.powered_taps@[i]).0 == net.path@[i],
        forall|i: int|
            0 < i < net.path@.len() ==> fades_or_is_fresh(
                net.powered_taps@[i - 1].1,
                (#[trigger] net.powered_taps@[i]).1,
            ),
{
    let result = Ok::<(RoutedNet, World3D), RouteFailure>((net, after));
    let initial = choose|initial: RouteSearchState| #[trigger]
        is_fresh(question.world, question.source, strength, initial) && is_routed_twice(
            rule,
            cobble_rule,
            spread,
            place,
            question,
            initial,
            result,
        );
    continued_route_is_sound(rule, cobble_rule, spread, place, question, initial, net, after);
    let (foreign, journey) = choose|foreign: Seq<Position>, journey: Seq<RouteSearchState>|
        {
            &&& are_kept_away_from(rule, question, foreign)
            &&& #[trigger] is_laid_route(rule, cobble_rule, place, question, net, after, foreign, journey)
            &&& same_state(journey[0], initial)
        };
    journey_signal(
        rule,
        place,
        goal_of(question.world, question.sink),
        foreign,
        journey,
        question.source,
        strength,
        journey.len() - 1,
    );
    let last = journey.last();
    assert forall|i: int| 0 <= i < net.path@.len() implies (#[trigger] net.powered_taps@[i]).0 == net.path@[i] by {
        assert(last.powered_taps@[i].position == last.route@[i]);
    }
    assert forall|i: int| 0 < i < net.path@.len() implies fades_or_is_fresh(
        net.powered_taps@[i - 1].1,
        (#[trigger] net.powered_taps@[i]).1,
    ) by {
        assert(fades_or_is_fresh(last.powered_taps@[i - 1].strength, last.powered_taps@[i].strength));
        assert(net.powered_taps@[i - 1].1 == last.powered_taps@[i - 1].strength);
    }
    assert(net.powered_taps@[0].1 == last.powered_taps@[0].strength);
}

} // verus!

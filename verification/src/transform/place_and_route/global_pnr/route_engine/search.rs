//! The search for a route: routes are extended one after the other until one
//! reaches its goal.

use super::contacts::{
    added_blocks, added_route_blocks, are_foreign, are_nearby, nearby_route_bounds, nearest_first,
    route_forbidden_signal_contact_positions, route_touches_forbidden_existing_signal, sort_bounds, touches_foreign,
};
use super::cost::RouteCostModel;
use super::goal::{is_reached, may_short, rejects, target_of, RouteGoal};
use super::queue::{
    expansion_limit, is_next, is_pushed, priority_of, queue_wf, route_expansion_limit, QueueEntry, RouteSearchQueue,
};
use super::route::{is_plain_route, tap_pairs, GlobalRoutingStrategy, RouteFailure, RoutedNet};
use super::state::{
    is_route_terminal, is_signal, route_visited_depth, route_visited_key, visited_depth, visited_key, PlaceBound,
    PoweredRouteSource, RouteSearchState, VisitedKey, MAX_REDSTONE_STRENGTH,
};
use super::visited::{has_key, key_space, keys_are_bounded};
use crate::transform::place_and_route::global_pnr::dust::is_rule;
use crate::world::grid::World3D;
use crate::world::position::{in_bounds, is_sorted, DimSize, Direction, Position};
use vstd::prelude::*;

verus! {

/// The longest route that is extended.
pub const GLOBAL_ROUTE_MAX_STEPS: usize = 128;

/// A block that a route asks for: dust, or a repeater with a direction.
#[derive(Clone, Debug)]
pub struct PlaceRequest {
    pub bound: PlaceBound,
    /// The end of the route.
    pub from: Position,
    pub target: Position,
    pub repeater: Option<Direction>,
    /// The cells that the block may touch, where that is limited.
    pub allowed: Option<Vec<Position>>,
}

/// Whether a placer answers every request, with a world that is well formed.
pub open spec fn is_placer<L: Fn(&World3D, &PlaceRequest) -> Option<(World3D, Position)>>(place: &L) -> bool {
    &&& forall|world: World3D, request: PlaceRequest| #[trigger] call_requires(*place, (&world, &request))
    &&& forall|world: World3D, request: PlaceRequest, placed: (World3D, Position)| #[trigger]
        call_ensures(*place, (&world, &request), Some(placed)) ==> placed.0.wf()
}

/// Whether the cells into which power spreads can be asked for everywhere.
pub open spec fn is_spreader<B: Fn(&World3D, Position) -> Vec<PlaceBound>>(spread: &B) -> bool {
    forall|world: World3D, cell: Position| #[trigger] call_requires(*spread, (&world, cell))
}

// ---------------------------------------------------------------------------
// Attempts
// ---------------------------------------------------------------------------
/// An attempt to extend a route: dust, or a repeater with a direction.
#[derive(Clone, Copy, Debug, PartialEq, Eq, Structural)]
pub struct Attempt {
    pub bound: PlaceBound,
    pub repeater: Option<Direction>,
}

/// The attempts to extend a route into a cell: dust where the signal is strong
/// enough, and repeaters where it is weak.
pub open spec fn bound_attempts(bound: PlaceBound, size: DimSize, goal: RouteGoal, strength: usize) -> Seq<Attempt> {
    if !in_bounds(size, bound.position) || rejects(goal, bound.position) {
        Seq::empty()
    } else {
        let dust = Attempt { bound, repeater: None };
        let repeaters = seq![
            Attempt { bound, repeater: Some(Direction::East) },
            Attempt { bound, repeater: Some(Direction::West) },
            Attempt { bound, repeater: Some(Direction::South) },
            Attempt { bound, repeater: Some(Direction::North) },
        ];
        if strength > 2 {
            seq![dust]
        } else if strength == 2 {
            seq![dust] + repeaters
        } else {
            repeaters
        }
    }
}

/// The attempts to extend a route into the first `count` cells.
pub open spec fn attempts_of(
    bounds: Seq<PlaceBound>,
    size: DimSize,
    goal: RouteGoal,
    strength: usize,
    count: nat,
) -> Seq<Attempt>
    decreases count,
{
    if count == 0 {
        Seq::empty()
    } else {
        attempts_of(bounds, size, goal, strength, (count - 1) as nat) + bound_attempts(
            bounds[count - 1],
            size,
            goal,
            strength,
        )
    }
}

fn collect_attempts(bounds: &Vec<PlaceBound>, size: DimSize, goal: RouteGoal, strength: usize) -> (attempts: Vec<Attempt>)
    ensures
        attempts@ == attempts_of(bounds@, size, goal, strength, bounds@.len()),
{
    let mut attempts: Vec<Attempt> = Vec::new();
    assert(attempts@ =~= attempts_of(bounds@, size, goal, strength, 0));
    let mut index: usize = 0;
    while index < bounds.len()
        invariant
            index <= bounds.len(),
            attempts@ == attempts_of(bounds@, size, goal, strength, index as nat),
        decreases bounds.len() - index,
    {
        let bound = bounds[index];
        let ghost before = attempts@;
        if size.bound_on(bound.position) && !goal.rejects_bound_position(bound.position) {
            if strength > 1 {
                attempts.push(Attempt { bound, repeater: None });
            }
            if strength <= 2 {
                attempts.push(Attempt { bound, repeater: Some(Direction::East) });
                attempts.push(Attempt { bound, repeater: Some(Direction::West) });
                attempts.push(Attempt { bound, repeater: Some(Direction::South) });
                attempts.push(Attempt { bound, repeater: Some(Direction::North) });
            }
        }
        assert(attempts@ =~= before + bound_attempts(bound, size, goal, strength));
        index += 1;
    }
    attempts
}

/// Whether a request asks for an attempt.
pub open spec fn is_request(request: PlaceRequest, attempt: Attempt, from: Position, goal: RouteGoal) -> bool {
    &&& request.bound == attempt.bound
    &&& request.from == from
    &&& request.target == target_of(goal)
    &&& request.repeater == attempt.repeater
    &&& match goal {
        RouteGoal::PowerCobble { cobble } => request.allowed matches Some(cells) && is_sorted(cells@) && forall|
            cell: Position,
        | #[trigger] cells@.contains(cell) <==> may_short(cobble, cell),
        _ => request.allowed is None,
    }
}

// ---------------------------------------------------------------------------
// Runs
// ---------------------------------------------------------------------------
/// What is searched for, and how.
pub ghost struct SearchTask {
    pub world: World3D,
    pub source: Position,
    pub sink: Position,
    pub goal: RouteGoal,
    /// Cells nearby are tried, not those into which power spreads.
    pub nearby: bool,
    pub strategy: GlobalRoutingStrategy,
    pub model: RouteCostModel,
    /// The signals that the route may not touch.
    pub foreign: Seq<Position>,
}

/// A route that is being extended, the attempts to do so, and how many of them
/// are behind.
pub ghost struct Expansion {
    pub state: RouteSearchState,
    pub attempts: Seq<Attempt>,
    pub next: int,
}

/// A moment of a search.
pub ghost struct Moment {
    pub entries: Seq<QueueEntry>,
    pub sequence: int,
    pub visited: Seq<VisitedKey>,
    pub expansions: int,
    pub current: Option<Expansion>,
}

/// The entry of a route in the queue.
pub open spec fn entry_of(task: SearchTask, state: RouteSearchState, sequence: int) -> QueueEntry {
    QueueEntry {
        priority: priority_of(task.strategy, task.model, task.sink, state, sequence as usize),
        state,
    }
}

/// Whether a search starts with a route.
pub open spec fn is_start(task: SearchTask, initial: RouteSearchState, moment: Moment) -> bool {
    &&& is_pushed(task.strategy, Seq::empty(), entry_of(task, initial, 0), moment.entries)
    &&& moment.sequence == 1
    &&& moment.visited == seq![visited_key(task.strategy, initial)]
    &&& moment.expansions == 0
    &&& moment.current is None
}

/// Whether one more route may be extended.
pub open spec fn may_expand(task: SearchTask, expansions: int) -> bool {
    match expansion_limit(task.strategy) {
        Some(limit) => expansions + 1 <= limit,
        None => true,
    }
}

/// Whether a route cannot be extended: its end carries no signal, or it is too
/// long.
pub open spec fn is_dead_end(state: RouteSearchState) -> bool {
    !is_signal(state.world.at(state.terminal).kind) || state.route@.len() > GLOBAL_ROUTE_MAX_STEPS
}

/// Whether a route has reached the goal.
pub open spec fn is_found<
    F: Fn(&World3D, Position, Position) -> bool,
    C: Fn(&World3D, Position, Position) -> bool,
>(rule: &F, cobble_rule: &C, task: SearchTask, state: RouteSearchState) -> bool {
    is_signal(state.world.at(state.terminal).kind) && is_reached(
        rule,
        cobble_rule,
        task.goal,
        state.world,
        state.terminal,
    )
}

/// Whether cells are those into which a route is to be extended: the ones that
/// it comes with, those into which the power of its end spreads, or those
/// nearby.
pub open spec fn are_bounds<B: Fn(&World3D, Position) -> Vec<PlaceBound>>(
    spread: &B,
    task: SearchTask,
    state: RouteSearchState,
    bounds: Seq<PlaceBound>,
) -> bool {
    match state.pending_bounds {
        Some(pending) => bounds == pending@,
        None => {
            let kind = state.world.at(state.terminal).kind;
            if task.nearby && !(kind is Repeater) && !(kind is Torch) && !(kind is Switch) {
                are_nearby(state.world, state.terminal, bounds)
            } else {
                exists|list: Vec<PlaceBound>| #[trigger]
                    call_ensures(*spread, (&state.world, state.terminal), list) && bounds == list@
            }
        },
    }
}

/// Whether a route is another with one more block.
pub open spec fn is_extended(
    state: RouteSearchState,
    world: World3D,
    cell: Position,
    strength: usize,
    next: RouteSearchState,
) -> bool {
    &&& next.world == world
    &&& next.terminal == cell
    &&& next.route@ == state.route@.push(cell)
    &&& next.signal_strength == strength
    &&& next.powered_taps@ == state.powered_taps@.push(PoweredRouteSource { position: cell, strength })
    &&& next.pending_bounds is None
}

/// The strength behind an attempt.
pub open spec fn strength_behind(attempt: Attempt, strength: usize) -> usize {
    if attempt.repeater is Some {
        MAX_REDSTONE_STRENGTH
    } else {
        (strength - 1) as usize
    }
}

/// A moment with another number of attempts behind.
pub open spec fn with_next(moment: Moment, next: int) -> Moment {
    let expansion = moment.current->0;
    Moment {
        entries: moment.entries,
        sequence: moment.sequence,
        visited: moment.visited,
        expansions: moment.expansions,
        current: Some(Expansion { state: expansion.state, attempts: expansion.attempts, next }),
    }
}

/// How many attempts are passed over when dust touches a foreign signal: the
/// repeaters in its cell too.
pub open spec fn passed_over(attempt: Attempt, strength: usize) -> int {
    if attempt.repeater is None && strength == 2 {
        5
    } else {
        1
    }
}

/// Whether an attempt leads from one moment to the next: nothing changes where
/// the block cannot be placed, touches a foreign signal, or leads to what was
/// seen before; else the longer route joins the queue.
pub open spec fn is_attempt<F: Fn(&World3D, Position, Position) -> bool>(
    rule: &F,
    task: SearchTask,
    before: Moment,
    after: Moment,
    outcome: Option<(World3D, Position)>,
) -> bool {
    let expansion = before.current->0;
    let state = expansion.state;
    let attempt = expansion.attempts[expansion.next];
    match outcome {
        None => after == with_next(before, expansion.next + 1),
        Some((world, cell)) => {
            let strength = strength_behind(attempt, state.signal_strength);
            let key = (cell, visited_depth(task.strategy, state.route@.len()) as usize, strength);
            if touches_foreign(rule, world, cell, task.foreign) {
                after == with_next(before, expansion.next + passed_over(attempt, state.signal_strength))
            } else if before.visited.contains(key) {
                after == with_next(before, expansion.next + 1)
            } else {
                &&& after.sequence == before.sequence + 1
                &&& after.visited == before.visited.push(key)
                &&& after.expansions == before.expansions
                &&& after.current == with_next(before, expansion.next + 1).current
                &&& exists|next: RouteSearchState| #[trigger]
                    is_extended(state, world, cell, strength, next) && is_pushed(
                        task.strategy,
                        before.entries,
                        entry_of(task, next, before.sequence),
                        after.entries,
                    )
            }
        },
    }
}

/// Whether one moment of a search follows another.
pub open spec fn follows<
    F: Fn(&World3D, Position, Position) -> bool,
    C: Fn(&World3D, Position, Position) -> bool,
    B: Fn(&World3D, Position) -> Vec<PlaceBound>,
    L: Fn(&World3D, &PlaceRequest) -> Option<(World3D, Position)>,
>(rule: &F, cobble_rule: &C, spread: &B, place: &L, task: SearchTask, before: Moment, after: Moment) -> bool {
    match before.current {
        None => exists|index: int| #[trigger]
            is_next(task.strategy, before.entries, index) && {
                let state = before.entries[index].state;
                &&& may_expand(task, before.expansions)
                &&& !is_found(rule, cobble_rule, task, state)
                &&& after.entries == before.entries.remove(index)
                &&& after.sequence == before.sequence
                &&& after.visited == before.visited
                &&& after.expansions == before.expansions + 1
                &&& match after.current {
                    None => is_dead_end(state),
                    Some(expansion) => {
                        &&& !is_dead_end(state)
                        &&& expansion.state == state
                        &&& expansion.next == 0
                        &&& exists|bounds: Seq<PlaceBound>| #[trigger]
                            are_bounds(spread, task, state, bounds) && expansion.attempts == attempts_of(
                                nearest_first(bounds, task.sink),
                                state.world.size,
                                task.goal,
                                state.signal_strength,
                                bounds.len(),
                            )
                    },
                }
            },
        Some(expansion) => if 0 <= expansion.next < expansion.attempts.len() {
            exists|request: PlaceRequest, outcome: Option<(World3D, Position)>| #[trigger]
                call_ensures(*place, (&expansion.state.world, &request), outcome) && is_request(
                    request,
                    expansion.attempts[expansion.next],
                    expansion.state.terminal,
                    task.goal,
                ) && is_attempt(rule, task, before, after, outcome)
        } else {
            after == Moment {
                entries: before.entries,
                sequence: before.sequence,
                visited: before.visited,
                expansions: before.expansions,
                current: None,
            }
        },
    }
}

/// Whether moment `k` of a run follows the one before.
pub open spec fn follows_at<
    F: Fn(&World3D, Position, Position) -> bool,
    C: Fn(&World3D, Position, Position) -> bool,
    B: Fn(&World3D, Position) -> Vec<PlaceBound>,
    L: Fn(&World3D, &PlaceRequest) -> Option<(World3D, Position)>,
>(rule: &F, cobble_rule: &C, spread: &B, place: &L, task: SearchTask, run: Seq<Moment>, k: int) -> bool {
    follows(rule, cobble_rule, spread, place, task, run[k - 1], run[k])
}

/// Whether moments are those of a search.
pub open spec fn is_run<
    F: Fn(&World3D, Position, Position) -> bool,
    C: Fn(&World3D, Position, Position) -> bool,
    B: Fn(&World3D, Position) -> Vec<PlaceBound>,
    L: Fn(&World3D, &PlaceRequest) -> Option<(World3D, Position)>,
>(
    rule: &F,
    cobble_rule: &C,
    spread: &B,
    place: &L,
    task: SearchTask,
    initial: RouteSearchState,
    run: Seq<Moment>,
) -> bool {
    &&& run.len() > 0
    &&& is_start(task, initial, run[0])
    &&& forall|k: int| 0 < k < run.len() ==> #[trigger] follows_at(rule, cobble_rule, spread, place, task, run, k)
}

/// Whether a route and a world are those of a route that was found.
pub open spec fn is_route_of(task: SearchTask, state: RouteSearchState, net: RoutedNet, world: World3D) -> bool {
    &&& world == state.world
    &&& is_plain_route(
        net,
        task.source,
        task.sink,
        added_blocks(task.world, state.world, state.world.listed().len()),
        state.route@,
    )
    &&& net.powered_taps@ == tap_pairs(state.powered_taps@)
}

/// What a search comes to at its last moment: the next route has reached the
/// goal, there is no next one, or no more may be extended.
pub open spec fn is_end<
    F: Fn(&World3D, Position, Position) -> bool,
    C: Fn(&World3D, Position, Position) -> bool,
>(
    rule: &F,
    cobble_rule: &C,
    task: SearchTask,
    moment: Moment,
    result: Result<(RoutedNet, World3D), RouteFailure>,
) -> bool {
    &&& moment.current is None
    &&& match result {
        Ok((net, world)) => exists|index: int| #[trigger]
            is_next(task.strategy, moment.entries, index) && may_expand(task, moment.expansions) && is_found(
                rule,
                cobble_rule,
                task,
                moment.entries[index].state,
            ) && is_route_of(task, moment.entries[index].state, net, world),
        Err(failure) => {
            &&& failure == RouteFailure::Unreachable { source: task.source, sink: task.sink }
            &&& moment.entries.len() == 0 || !may_expand(task, moment.expansions)
        },
    }
}

/// What a search comes to.
pub open spec fn is_search<
    F: Fn(&World3D, Position, Position) -> bool,
    C: Fn(&World3D, Position, Position) -> bool,
    B: Fn(&World3D, Position) -> Vec<PlaceBound>,
    L: Fn(&World3D, &PlaceRequest) -> Option<(World3D, Position)>,
>(
    rule: &F,
    cobble_rule: &C,
    spread: &B,
    place: &L,
    task: SearchTask,
    initial: RouteSearchState,
    result: Result<(RoutedNet, World3D), RouteFailure>,
) -> bool {
    exists|run: Seq<Moment>| #[trigger]
        is_run(rule, cobble_rule, spread, place, task, initial, run) && is_end(
            rule,
            cobble_rule,
            task,
            run.last(),
            result,
        )
}

proof fn run_extends<
    F: Fn(&World3D, Position, Position) -> bool,
    C: Fn(&World3D, Position, Position) -> bool,
    B: Fn(&World3D, Position) -> Vec<PlaceBound>,
    L: Fn(&World3D, &PlaceRequest) -> Option<(World3D, Position)>,
>(
    rule: &F,
    cobble_rule: &C,
    spread: &B,
    place: &L,
    task: SearchTask,
    initial: RouteSearchState,
    run: Seq<Moment>,
    next: Moment,
)
    requires
        is_run(rule, cobble_rule, spread, place, task, initial, run),
        follows(rule, cobble_rule, spread, place, task, run.last(), next),
    ensures
        is_run(rule, cobble_rule, spread, place, task, initial, run.push(next)),
        run.push(next).last() == next,
{
    let longer = run.push(next);
    assert forall|k: int| 0 < k < longer.len() implies #[trigger] follows_at(
        rule,
        cobble_rule,
        spread,
        place,
        task,
        longer,
        k,
    ) by {
        assert(longer[k - 1] == run[k - 1]);
        if k < run.len() {
            assert(follows_at(rule, cobble_rule, spread, place, task, run, k));
            assert(longer[k] == run[k]);
        }
    }
    assert(longer[0] == run[0]);
}

// ---------------------------------------------------------------------------
// The search
// ---------------------------------------------------------------------------
/// The moment that a queue and what was seen make up while a route is extended.
pub open spec fn moment_of(
    queue: RouteSearchQueue,
    visited: Seq<VisitedKey>,
    expansions: int,
    current: Option<Expansion>,
) -> Moment {
    Moment { entries: queue.entries@, sequence: queue.next_sequence as int, visited, expansions, current }
}

/// Whether a queue belongs to a search.
spec fn is_queue_of(task: SearchTask, queue: RouteSearchQueue, visited: Seq<VisitedKey>) -> bool {
    &&& queue_wf(queue)
    &&& queue.strategy == task.strategy
    &&& queue.sink == task.sink
    &&& queue.cost_model == task.model
    &&& visited.no_duplicates()
    &&& visited.len() == queue.next_sequence
}

fn copy_path(path: &Vec<Position>) -> (copy: Vec<Position>)
    ensures
        copy@ == path@,
{
    let copy = path.clone();
    assert(copy@ =~= path@);
    copy
}

fn copy_sources(taps: &Vec<PoweredRouteSource>) -> (copy: Vec<PoweredRouteSource>)
    ensures
        copy@ == taps@,
{
    let copy = taps.clone();
    assert(copy@ =~= taps@);
    copy
}

/// A route with one more block.
pub fn extend_state(state: &RouteSearchState, world: World3D, cell: Position, strength: usize) -> (next: RouteSearchState)
    ensures
        is_extended(*state, world, cell, strength, next),
{
    let mut route = copy_path(&state.route);
    route.push(cell);
    let mut powered_taps = copy_sources(&state.powered_taps);
    powered_taps.push(PoweredRouteSource { position: cell, strength });
    RouteSearchState {
        world,
        terminal: cell,
        route,
        signal_strength: strength,
        powered_taps,
        pending_bounds: None,
    }
}

/// Makes an attempt to extend a route, and returns how many attempts are behind
/// then.
fn make_attempt<
    F: Fn(&World3D, Position, Position) -> bool,
    L: Fn(&World3D, &PlaceRequest) -> Option<(World3D, Position)>,
>(
    rule: &F,
    place: &L,
    state: &RouteSearchState,
    attempt: Attempt,
    goal: RouteGoal,
    foreign: &Vec<Position>,
    queue: &mut RouteSearchQueue,
    visited: &mut Vec<VisitedKey>,
    Ghost(task): Ghost<SearchTask>,
    Ghost(before): Ghost<Moment>,
) -> (passed: usize)
    requires
        is_rule(rule),
        is_placer(place),
        is_queue_of(task, *old(queue), old(visited)@),
        task.goal == goal,
        task.foreign == foreign@,
        before.current is Some,
        before == moment_of(*old(queue), old(visited)@, before.expansions, before.current),
        before.current->0.state == *state,
        0 <= before.current->0.next < before.current->0.attempts.len(),
        before.current->0.attempts[before.current->0.next] == attempt,
        attempt.repeater is None ==> state.signal_strength > 1,
    ensures
        is_queue_of(task, *final(queue), final(visited)@),
        final(visited)@.len() >= old(visited)@.len(),
        final(queue).entries@.len() - old(queue).entries@.len() <= final(visited)@.len() - old(visited)@.len(),
        final(visited)@.len() == old(visited)@.len() ==> final(queue).entries@ == old(queue).entries@,
        passed == 1 || passed == 5 && attempt.repeater is None && state.signal_strength == 2,
        exists|request: PlaceRequest, outcome: Option<(World3D, Position)>| #[trigger]
            call_ensures(*place, (&state.world, &request), outcome) && is_request(
                request,
                attempt,
                state.terminal,
                goal,
            ) && is_attempt(
                rule,
                task,
                before,
                moment_of(
                    *final(queue),
                    final(visited)@,
                    before.expansions,
                    with_next(before, before.current->0.next + passed).current,
                ),
                outcome,
            ),
{
    let request = PlaceRequest {
        bound: attempt.bound,
        from: state.terminal,
        target: goal.placement_target(),
        repeater: attempt.repeater,
        allowed: goal.allowed_short_positions(),
    };
    let outcome = place(&state.world, &request);
    let ghost answer = outcome;
    assert(is_request(request, attempt, state.terminal, goal));
    match outcome {
        None => {
            assert(is_attempt(
                rule,
                task,
                before,
                moment_of(
                    *queue,
                    visited@,
                    before.expansions,
                    with_next(before, before.current->0.next + 1).current,
                ),
                answer,
            ));
            1
        },
        Some((world, cell)) => {
            let ghost placed = world;
            assert(call_ensures(*place, (&state.world, &request), Some((world, cell))));
            assert(world.wf());
            if route_touches_forbidden_existing_signal(rule, &world, cell, foreign) {
                let passed: usize = if attempt.repeater.is_none() && state.signal_strength == 2 {
                    5
                } else {
                    1
                };
                assert(is_attempt(
                    rule,
                    task,
                    before,
                    moment_of(
                        *queue,
                        visited@,
                        before.expansions,
                        with_next(before, before.current->0.next + passed).current,
                    ),
                    answer,
                ));
                return passed;
            }
            let strength: usize = if attempt.repeater.is_some() {
                MAX_REDSTONE_STRENGTH
            } else {
                state.signal_strength - 1
            };
            let depth: usize = route_visited_depth(queue.strategy, state.route.len());
            let key = (cell, depth, strength);
            if !has_key(visited, key) {
                let ghost seen = visited@;
                visited.push(key);
                let seen_count: usize = visited.len();
                proof {
                    assert(seen_count == visited@.len());
                    assert forall|i: int, j: int|
                        0 <= i < visited@.len() && 0 <= j < visited@.len() && i != j implies visited@[i] != visited@[j] by {
                        if i == seen.len() {
                            assert(seen.contains(seen[j]));
                        } else if j == seen.len() {
                            assert(seen.contains(seen[i]));
                        }
                    }
                }
                let next = extend_state(state, world, cell, strength);
                let ghost added = next;
                queue.push(next);
                proof {
                    assert(is_extended(*state, placed, cell, strength, added));
                }
            }
            assert(is_attempt(
                rule,
                task,
                before,
                moment_of(
                    *queue,
                    visited@,
                    before.expansions,
                    with_next(before, before.current->0.next + 1).current,
                ),
                answer,
            ));
            1
        },
    }
}

/// The cells into which a route is to be extended.
fn find_bounds<B: Fn(&World3D, Position) -> Vec<PlaceBound>>(
    spread: &B,
    state: &RouteSearchState,
    nearby: bool,
    Ghost(task): Ghost<SearchTask>,
) -> (bounds: Vec<PlaceBound>)
    requires
        is_spreader(spread),
        state.world.wf(),
        task.nearby == nearby,
    ensures
        are_bounds(spread, task, *state, bounds@),
{
    match &state.pending_bounds {
        Some(pending) => {
            let bounds = pending.clone();
            assert(bounds@ =~= pending@);
            bounds
        },
        None => {
            let kind = state.world.get(state.terminal).kind;
            if nearby && !kind.is_repeater() && !kind.is_torch() && !kind.is_switch() {
                nearby_route_bounds(&state.world, state.terminal)
            } else {
                let list = spread(&state.world, state.terminal);
                assert(call_ensures(*spread, (&state.world, state.terminal), list));
                list
            }
        },
    }
}

/// Attempts that place dust are made while the signal is strong enough, and
/// where it is weak the repeaters in the same cell come behind them.
proof fn attempts_fit(
    bounds: Seq<PlaceBound>,
    size: DimSize,
    goal: RouteGoal,
    strength: usize,
    count: nat,
    index: int,
)
    requires
        0 <= index < attempts_of(bounds, size, goal, strength, count).len(),
    ensures
        attempts_of(bounds, size, goal, strength, count)[index].repeater is None ==> strength > 1,
        attempts_of(bounds, size, goal, strength, count)[index].repeater is None && strength == 2 ==> index + 5
            <= attempts_of(bounds, size, goal, strength, count).len(),
    decreases count,
{
    let rest = attempts_of(bounds, size, goal, strength, (count - 1) as nat);
    if index < rest.len() {
        attempts_fit(bounds, size, goal, strength, (count - 1) as nat, index);
    } else {
        let own = bound_attempts(bounds[count - 1], size, goal, strength);
        assert(attempts_of(bounds, size, goal, strength, count)[index] == own[index - rest.len()]);
    }
}

/// The task of a search.
pub open spec fn task_of(
    world: World3D,
    source: Position,
    sink: Position,
    goal: RouteGoal,
    nearby: bool,
    strategy: GlobalRoutingStrategy,
    model: RouteCostModel,
    foreign: Seq<Position>,
) -> SearchTask {
    SearchTask { world, source, sink, goal, nearby, strategy, model, foreign }
}

/// What a route is asked for.
pub ghost struct RouteQuestion {
    pub world: World3D,
    pub source: Position,
    pub sink: Position,
    pub nearby: bool,
    pub strategy: GlobalRoutingStrategy,
    pub model: RouteCostModel,
    /// The signals that the route may touch.
    pub allowed: Seq<Position>,
}

/// What asking for a route comes to: a search that may not touch the signals
/// that are foreign to it.
pub open spec fn is_routed<
    F: Fn(&World3D, Position, Position) -> bool,
    C: Fn(&World3D, Position, Position) -> bool,
    B: Fn(&World3D, Position) -> Vec<PlaceBound>,
    L: Fn(&World3D, &PlaceRequest) -> Option<(World3D, Position)>,
>(
    rule: &F,
    cobble_rule: &C,
    spread: &B,
    place: &L,
    question: RouteQuestion,
    goal: RouteGoal,
    initial: RouteSearchState,
    result: Result<(RoutedNet, World3D), RouteFailure>,
) -> bool {
    exists|foreign: Seq<Position>| #[trigger]
        are_foreign(rule, question.world, question.source, goal, question.allowed, foreign) && is_search(
            rule,
            cobble_rule,
            spread,
            place,
            task_of(
                question.world,
                question.source,
                question.sink,
                goal,
                question.nearby,
                question.strategy,
                question.model,
                foreign,
            ),
            initial,
            result,
        )
}

fn run_search<
    F: Fn(&World3D, Position, Position) -> bool,
    C: Fn(&World3D, Position, Position) -> bool,
    B: Fn(&World3D, Position) -> Vec<PlaceBound>,
    L: Fn(&World3D, &PlaceRequest) -> Option<(World3D, Position)>,
>(
    rule: &F,
    cobble_rule: &C,
    spread: &B,
    place: &L,
    original_world: &World3D,
    source: Position,
    sink: Position,
    goal: RouteGoal,
    nearby: bool,
    initial: RouteSearchState,
    strategy: GlobalRoutingStrategy,
    foreign: &Vec<Position>,
    cost_model: RouteCostModel,
) -> (result: Result<(RoutedNet, World3D), RouteFailure>)
    requires
        is_rule(rule),
        is_rule(cobble_rule),
        is_spreader(spread),
        is_placer(place),
        original_world.wf(),
        initial.world.wf(),
    ensures
        is_search(
            rule,
            cobble_rule,
            spread,
            place,
            task_of(*original_world, source, sink, goal, nearby, strategy, cost_model, foreign@),
            initial,
            result,
        ),
        result matches Ok((_, world)) ==> world.wf(),
{
    let ghost task = task_of(*original_world, source, sink, goal, nearby, strategy, cost_model, foreign@);
    let ghost first = initial;
    let mut visited: Vec<VisitedKey> = vec![route_visited_key(strategy, &initial)];
    assert(visited@ =~= seq![visited_key(strategy, initial)]);
    let mut queue = RouteSearchQueue::empty(strategy, sink, cost_model);
    queue.push(initial);
    let mut expansions: usize = 0;
    let ghost mut run = seq![moment_of(queue, visited@, 0, None)];
    assert(is_run(rule, cobble_rule, spread, place, task, first, run));
    loop
        invariant
            is_rule(rule),
            is_rule(cobble_rule),
            is_spreader(spread),
            is_placer(place),
            original_world.wf(),
            task == task_of(*original_world, source, sink, goal, nearby, strategy, cost_model, foreign@),
            is_queue_of(task, queue, visited@),
            expansions + queue.entries@.len() <= queue.next_sequence,
            is_run(rule, cobble_rule, spread, place, task, first, run),
            run.last() == moment_of(queue, visited@, expansions as int, None),
            first == initial,
        decreases key_space() - visited@.len(), queue.entries@.len(),
    {
        proof {
            keys_are_bounded(visited@);
        }
        let ghost here = run.last();
        let ghost seen = visited@.len();
        let state = match queue.pop() {
            None => {
                let result = Err(RouteFailure::Unreachable { source, sink });
                assert(is_end(rule, cobble_rule, task, run.last(), result));
                return result;
            },
            Some(state) => state,
        };
        let ghost index = choose|index: int| #[trigger]
            is_next(strategy, here.entries, index) && state == here.entries[index].state && queue.entries@
                == here.entries.remove(index);
        let limit = route_expansion_limit(strategy);
        if let Some(limit) = limit {
            if expansions >= limit {
                let result = Err(RouteFailure::Unreachable { source, sink });
                assert(is_end(rule, cobble_rule, task, here, result));
                return result;
            }
        }
        expansions += 1;
        let carries = is_route_terminal(&state.world, state.terminal);
        if carries && goal.accepts(rule, cobble_rule, &state.world, state.terminal) {
            let blocks = added_route_blocks(original_world, &state.world);
            let ghost found = state;
            let RouteSearchState { world, route, powered_taps, .. } = state;
            let net = RoutedNet::new(source, sink, blocks, route).with_powered_taps(powered_taps);
            let ghost end_world = world;
            let result = Ok((net, world));
            assert(is_route_of(task, found, net, end_world));
            assert(is_found(rule, cobble_rule, task, here.entries[index].state));
            assert(is_end(rule, cobble_rule, task, here, result));
            return result;
        }
        if !carries || state.route.len() > GLOBAL_ROUTE_MAX_STEPS {
            proof {
                let next = moment_of(queue, visited@, expansions as int, None);
                assert(is_next(task.strategy, here.entries, index) && is_dead_end(here.entries[index].state));
                assert(follows(rule, cobble_rule, spread, place, task, here, next));
                run_extends(rule, cobble_rule, spread, place, task, first, run, next);
                run = run.push(next);
            }
            continue;
        }
        let bounds = find_bounds(spread, &state, nearby, Ghost(task));
        let sorted = sort_bounds(&bounds, sink);
        let attempts = collect_attempts(&sorted, state.world.size, goal, state.signal_strength);
        proof {
            let expansion = Expansion { state, attempts: attempts@, next: 0 };
            let next = moment_of(queue, visited@, expansions as int, Some(expansion));
            assert(are_bounds(spread, task, state, bounds@));
            assert(is_next(task.strategy, here.entries, index) && !is_dead_end(here.entries[index].state));
            assert(follows(rule, cobble_rule, spread, place, task, here, next));
            run_extends(rule, cobble_rule, spread, place, task, first, run, next);
            run = run.push(next);
        }
        let mut next: usize = 0;
        while next < attempts.len()
            invariant
                is_rule(rule),
                is_placer(place),
                task == task_of(*original_world, source, sink, goal, nearby, strategy, cost_model, foreign@),
                is_queue_of(task, queue, visited@),
                seen <= visited@.len(),
                expansions + queue.entries@.len() <= queue.next_sequence,
                seen == visited@.len() ==> queue.entries@ == here.entries.remove(index),
                attempts@ == attempts_of(sorted@, state.world.size, goal, state.signal_strength, sorted@.len()),
                is_run(rule, cobble_rule, spread, place, task, first, run),
                run.last() == moment_of(
                    queue,
                    visited@,
                    expansions as int,
                    Some(Expansion { state, attempts: attempts@, next: next as int }),
                ),
            decreases attempts.len() - next,
        {
            let ghost before = run.last();
            proof {
                attempts_fit(
                    sorted@,
                    state.world.size,
                    goal,
                    state.signal_strength,
                    sorted@.len(),
                    next as int,
                );
            }
            let passed: usize = make_attempt(
                rule,
                place,
                &state,
                attempts[next],
                goal,
                foreign,
                &mut queue,
                &mut visited,
                Ghost(task),
                Ghost(before),
            );
            proof {
                let after = moment_of(
                    queue,
                    visited@,
                    expansions as int,
                    with_next(before, next + passed).current,
                );
                assert(follows(rule, cobble_rule, spread, place, task, before, after));
                run_extends(rule, cobble_rule, spread, place, task, first, run, after);
                run = run.push(after);
            }
            next += passed;
        }
        proof {
            let behind = run.last();
            let after = moment_of(queue, visited@, expansions as int, None);
            assert(follows(rule, cobble_rule, spread, place, task, behind, after));
            run_extends(rule, cobble_rule, spread, place, task, first, run, after);
            run = run.push(after);
            keys_are_bounded(visited@);
        }
    }
}

/// Searches for a route from the end of one that is given. The next route is
/// taken out of the queue; where it has reached the goal it is returned, else it
/// is extended by every block that can be placed, that touches no foreign signal
/// and that leads to something new.
pub fn route_point_to_point_with_initial_queue<
    F: Fn(&World3D, Position, Position) -> bool,
    C: Fn(&World3D, Position, Position) -> bool,
    B: Fn(&World3D, Position) -> Vec<PlaceBound>,
    L: Fn(&World3D, &PlaceRequest) -> Option<(World3D, Position)>,
>(
    rule: &F,
    cobble_rule: &C,
    spread: &B,
    place: &L,
    original_world: &World3D,
    source: Position,
    sink: Position,
    goal: RouteGoal,
    nearby: bool,
    initial: RouteSearchState,
    strategy: GlobalRoutingStrategy,
    allowed: &Vec<Position>,
    cost_model: RouteCostModel,
) -> (result: Result<(RoutedNet, World3D), RouteFailure>)
    requires
        is_rule(rule),
        is_rule(cobble_rule),
        is_spreader(spread),
        is_placer(place),
        original_world.wf(),
        initial.world.wf(),
    ensures
        is_routed(
            rule,
            cobble_rule,
            spread,
            place,
            RouteQuestion {
                world: *original_world,
                source,
                sink,
                nearby,
                strategy,
                model: cost_model,
                allowed: allowed@,
            },
            goal,
            initial,
            result,
        ),
        result matches Ok((_, world)) ==> world.wf(),
{
    let foreign = route_forbidden_signal_contact_positions(rule, original_world, source, goal, allowed);
    let result = run_search(
        rule,
        cobble_rule,
        spread,
        place,
        original_world,
        source,
        sink,
        goal,
        nearby,
        initial,
        strategy,
        &foreign,
        cost_model,
    );
    proof {
        let question = RouteQuestion {
            world: *original_world,
            source,
            sink,
            nearby,
            strategy,
            model: cost_model,
            allowed: allowed@,
        };
        assert(are_foreign(rule, question.world, question.source, goal, question.allowed, foreign@));
        assert(is_search(
            rule,
            cobble_rule,
            spread,
            place,
            task_of(
                question.world,
                question.source,
                question.sink,
                goal,
                question.nearby,
                question.strategy,
                question.model,
                foreign@,
            ),
            initial,
            result,
        ));
        assert(is_routed(rule, cobble_rule, spread, place, question, goal, initial, result));
    }
    result
}

} // verus!

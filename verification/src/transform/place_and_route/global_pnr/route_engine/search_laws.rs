//! What holds of every route that a search finds.

use super::goal::is_reached;
use super::queue::{is_last, is_next, is_pushed, QueueEntry};
use super::route::{GlobalRoutingStrategy, RouteFailure, RoutedNet};
use super::search::{
    entry_of, follows_at, is_attempt, is_end, is_extended, is_found, is_route_of, is_run, strength_behind, Moment, PlaceRequest, SearchTask,
    GLOBAL_ROUTE_MAX_STEPS,
};
use super::state::{PlaceBound, RouteSearchState};
use crate::world::grid::World3D;
use crate::world::position::Position;
use vstd::prelude::*;

verus! {

/// Whether a route goes on from another: it begins with it, ends where it says,
/// and has one place to take the signal up for each of its cells more.
pub open spec fn goes_on(initial: RouteSearchState, state: RouteSearchState) -> bool {
    let start = initial.route@;
    let route = state.route@;
    &&& start.len() <= route.len()
    &&& route.take(start.len() as int) == start
    &&& route.len() > 0
    &&& state.terminal == route.last()
    &&& route.len() <= GLOBAL_ROUTE_MAX_STEPS + 1 || route.len() == start.len()
    &&& state.powered_taps@.len() - initial.powered_taps@.len() == route.len() - start.len()
}

spec fn all_go_on(initial: RouteSearchState, entries: Seq<QueueEntry>) -> bool {
    forall|i: int| 0 <= i < entries.len() ==> goes_on(initial, (#[trigger] entries[i]).state)
}

spec fn moment_goes_on(initial: RouteSearchState, moment: Moment) -> bool {
    &&& all_go_on(initial, moment.entries)
    &&& moment.current matches Some(expansion) ==> goes_on(initial, expansion.state)
        && expansion.state.route@.len() <= GLOBAL_ROUTE_MAX_STEPS
}

proof fn pushing_goes_on(
    initial: RouteSearchState,
    strategy: GlobalRoutingStrategy,
    before: Seq<QueueEntry>,
    entry: QueueEntry,
    after: Seq<QueueEntry>,
)
    requires
        all_go_on(initial, before),
        goes_on(initial, entry.state),
        is_pushed(strategy, before, entry, after),
    ensures
        all_go_on(initial, after),
{
    let all = before.push(entry);
    assert forall|i: int| 0 <= i < all.len() implies goes_on(initial, (#[trigger] all[i]).state) by {
        if i < before.len() {
            assert(all[i] == before[i]);
        }
    }
    if strategy is GreedyBeam && after != all {
        let worst = choose|worst: int| #[trigger] is_last(all, worst) && after == all.remove(worst);
        assert forall|i: int| 0 <= i < after.len() implies goes_on(initial, (#[trigger] after[i]).state) by {
            assert(after[i] == all[if i < worst { i } else { i + 1 }]);
        }
    } else if strategy is DirectGreedy && after.len() == 1 && after[0] == entry {
        assert forall|i: int| 0 <= i < after.len() implies goes_on(initial, (#[trigger] after[i]).state) by {}
    }
}

proof fn extending_goes_on(
    initial: RouteSearchState,
    state: RouteSearchState,
    world: World3D,
    cell: Position,
    strength: usize,
    next: RouteSearchState,
)
    requires
        goes_on(initial, state),
        state.route@.len() <= GLOBAL_ROUTE_MAX_STEPS,
        is_extended(state, world, cell, strength, next),
    ensures
        goes_on(initial, next),
{
    let start = initial.route@;
    assert(next.route@.take(start.len() as int) =~= state.route@.take(start.len() as int));
}

proof fn run_goes_on<
    F: Fn(&World3D, Position, Position) -> bool,
    C: Fn(&World3D, Position, Position) -> bool,
    B: Fn(&World3D, Position) -> Vec<PlaceBound>,
    L: Fn(&World3D, &PlaceRequest) -> Option<(World3D, Position)>,
>(
    rule: &F,
    cobble_rule: &C,
    spread: &B,
    place: &L,
    task: SearchTask,
    initial: RouteSearchState,
    run: Seq<Moment>,
    k: int,
)
    requires
        is_run(rule, cobble_rule, spread, place, task, initial, run),
        initial.route@.len() > 0,
        initial.terminal == initial.route@.last(),
        0 <= k < run.len(),
    ensures
        moment_goes_on(initial, run[k]),
    decreases k,
{
    if k == 0 {
        assert(initial.route@.take(initial.route@.len() as int) =~= initial.route@);
        assert(goes_on(initial, initial));
        pushing_goes_on(
            initial,
            task.strategy,
            Seq::empty(),
            entry_of(task, initial, 0),
            run[0].entries,
        );
    } else {
        run_goes_on(rule, cobble_rule, spread, place, task, initial, run, k - 1);
        assert(follows_at(rule, cobble_rule, spread, place, task, run, k));
        let before = run[k - 1];
        let after = run[k];
        match before.current {
            None => {
                let index = choose|index: int| #[trigger]
                    is_next(task.strategy, before.entries, index) && after.entries == before.entries.remove(index) && (
                    after.current matches Some(expansion) ==> expansion.state == before.entries[index].state
                        && before.entries[index].state.route@.len() <= GLOBAL_ROUTE_MAX_STEPS);
                assert forall|i: int| 0 <= i < after.entries.len() implies goes_on(
                    initial,
                    (#[trigger] after.entries[i]).state,
                ) by {
                    assert(after.entries[i] == before.entries[if i < index { i } else { i + 1 }]);
                }
            },
            Some(expansion) => {
                if 0 <= expansion.next < expansion.attempts.len() {
                    let (request, outcome) = choose|request: PlaceRequest, outcome: Option<(World3D, Position)>| #[trigger]
                        call_ensures(*place, (&expansion.state.world, &request), outcome) && is_attempt(
                            rule,
                            task,
                            before,
                            after,
                            outcome,
                        );
                    if after.sequence == before.sequence + 1 {
                        let placed = outcome->0;
                        let attempt = expansion.attempts[expansion.next];
                        let strength = strength_behind(attempt, expansion.state.signal_strength);
                        let next = choose|next: RouteSearchState| #[trigger]
                            is_extended(expansion.state, placed.0, placed.1, strength, next) && is_pushed(
                                task.strategy,
                                before.entries,
                                entry_of(task, next, before.sequence),
                                after.entries,
                            );
                        extending_goes_on(initial, expansion.state, placed.0, placed.1, strength, next);
                        pushing_goes_on(
                            initial,
                            task.strategy,
                            before.entries,
                            entry_of(task, next, before.sequence),
                            after.entries,
                        );
                    }
                }
            },
        }
    }
}

/// A route that a search finds begins with the route that the search was given,
/// ends in a cell from which the goal is reached, and is no longer than a search
/// allows.
pub proof fn found_route_goes_on<
    F: Fn(&World3D, Position, Position) -> bool,
    C: Fn(&World3D, Position, Position) -> bool,
    B: Fn(&World3D, Position) -> Vec<PlaceBound>,
    L: Fn(&World3D, &PlaceRequest) -> Option<(World3D, Position)>,
>(
    rule: &F,
    cobble_rule: &C,
    spread: &B,
    place: &L,
    task: SearchTask,
    initial: RouteSearchState,
    run: Seq<Moment>,
    net: RoutedNet,
    world: World3D,
)
    requires
        is_run(rule, cobble_rule, spread, place, task, initial, run),
        is_end(rule, cobble_rule, task, run.last(), Ok::<(RoutedNet, World3D), RouteFailure>((net, world))),
        initial.route@.len() > 0,
        initial.terminal == initial.route@.last(),
    ensures
        net.path@.len() >= initial.route@.len(),
        net.path@.take(initial.route@.len() as int) == initial.route@,
        net.path@.len() <= GLOBAL_ROUTE_MAX_STEPS + 1 || net.path@ == initial.route@,
        is_reached(rule, cobble_rule, task.goal, world, net.path@.last()),
{
    run_goes_on(rule, cobble_rule, spread, place, task, initial, run, run.len() - 1);
    let last = run.last();
    let index = choose|index: int| #[trigger]
        is_next(task.strategy, last.entries, index) && is_found(
            rule,
            cobble_rule,
            task,
            last.entries[index].state,
        ) && is_route_of(task, last.entries[index].state, net, world);
    assert(goes_on(initial, last.entries[index].state));
    if net.path@.len() == initial.route@.len() {
        assert(net.path@.take(initial.route@.len() as int) =~= net.path@);
    }
}

} // verus!

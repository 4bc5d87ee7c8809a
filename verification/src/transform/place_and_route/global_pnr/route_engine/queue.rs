//! Which of the routes that are being extended comes next.

use super::cost::{course_cost, weakness_cost, RouteCostModel};
use super::route::GlobalRoutingStrategy;
use super::state::{steps_of, RouteSearchState};
use crate::number::{capped, capped_sum};
use crate::order::{before_chains, SortKey, TotalKey};
use crate::world::position::{distance, Position};
use vstd::prelude::*;

verus! {

/// How many routes are extended at most when the cheapest comes first.
pub const GLOBAL_ROUTE_ASTAR_MAX_EXPANSIONS: usize = 2_000;

/// How many routes are extended at most.
pub open spec fn expansion_limit(strategy: GlobalRoutingStrategy) -> Option<usize> {
    match strategy {
        GlobalRoutingStrategy::BreadthFirst => None,
        GlobalRoutingStrategy::AStar => Some(GLOBAL_ROUTE_ASTAR_MAX_EXPANSIONS),
        GlobalRoutingStrategy::DirectGreedy { max_steps } => Some(max_steps),
        GlobalRoutingStrategy::GreedyBeam { max_expansions, .. } => Some(max_expansions),
    }
}

/// How many routes are extended at most.
pub fn route_expansion_limit(strategy: GlobalRoutingStrategy) -> (limit: Option<usize>)
    ensures
        limit == expansion_limit(strategy),
{
    match strategy {
        GlobalRoutingStrategy::BreadthFirst => None,
        GlobalRoutingStrategy::AStar => Some(GLOBAL_ROUTE_ASTAR_MAX_EXPANSIONS),
        GlobalRoutingStrategy::DirectGreedy { max_steps } => Some(max_steps),
        GlobalRoutingStrategy::GreedyBeam { max_expansions, .. } => Some(max_expansions),
    }
}

/// By what routes are ordered, compared from the first field on. No two routes
/// of a queue have the same sequence number.
#[derive(Clone, Copy, Debug, PartialEq, Eq, Structural)]
pub struct AStarPriority {
    pub estimated_total_cost: usize,
    pub route_len: usize,
    pub manhattan_to_sink: usize,
    pub low_strength_penalty: usize,
    pub variant_tie_break: u64,
    pub sequence: usize,
}

impl SortKey for AStarPriority {
    open spec fn before(&self, other: &Self) -> bool {
        if self.estimated_total_cost != other.estimated_total_cost {
            self.estimated_total_cost < other.estimated_total_cost
        } else if self.route_len != other.route_len {
            self.route_len < other.route_len
        } else if self.manhattan_to_sink != other.manhattan_to_sink {
            self.manhattan_to_sink < other.manhattan_to_sink
        } else if self.low_strength_penalty != other.low_strength_penalty {
            self.low_strength_penalty < other.low_strength_penalty
        } else if self.variant_tie_break != other.variant_tie_break {
            self.variant_tie_break < other.variant_tie_break
        } else {
            self.sequence < other.sequence
        }
    }

    fn is_before(&self, other: &Self) -> (before: bool) {
        if self.estimated_total_cost != other.estimated_total_cost {
            self.estimated_total_cost < other.estimated_total_cost
        } else if self.route_len != other.route_len {
            self.route_len < other.route_len
        } else if self.manhattan_to_sink != other.manhattan_to_sink {
            self.manhattan_to_sink < other.manhattan_to_sink
        } else if self.low_strength_penalty != other.low_strength_penalty {
            self.low_strength_penalty < other.low_strength_penalty
        } else if self.variant_tie_break != other.variant_tie_break {
            self.variant_tie_break < other.variant_tie_break
        } else {
            self.sequence < other.sequence
        }
    }

    proof fn before_asymmetric(&self, other: &Self) {
    }

    proof fn not_before_transitive(&self, middle: &Self, other: &Self) {
    }
}

impl TotalKey for AStarPriority {
    proof fn before_total(&self, other: &Self) {
    }
}

/// The bits of a number, turned left.
pub open spec fn turned(number: u64, places: u64) -> u64 {
    if places == 0 {
        number
    } else {
        (number << places) | (number >> ((64 - places) as u64))
    }
}

fn turn_bits(number: u64, places: u64) -> (result: u64)
    requires
        places < 64,
    ensures
        result == turned(number, places),
{
    if places == 0 {
        number
    } else {
        (number << places) | (number >> (64 - places))
    }
}

/// What tells routes of equal cost apart for a seed.
pub open spec fn tie_break(seed: u64, terminal: Position, route_len: nat) -> u64 {
    if seed == 0 {
        0
    } else {
        let mixed = seed.wrapping_mul(0x9E37_79B9_7F4A_7C15).wrapping_add(
            (terminal.0 as u64).wrapping_mul(0xBF58_476D_1CE4_E5B9),
        ).wrapping_add((terminal.1 as u64).wrapping_mul(0x94D0_49BB_1331_11EB)).wrapping_add(terminal.2 as u64);
        turned(mixed, (route_len % 64) as u64)
    }
}

fn break_tie(seed: u64, terminal: Position, route_len: usize) -> (value: u64)
    ensures
        value == tie_break(seed, terminal, route_len as nat),
{
    if seed == 0 {
        return 0;
    }
    let mixed: u64 = seed.wrapping_mul(0x9E37_79B9_7F4A_7C15).wrapping_add(
        (terminal.0 as u64).wrapping_mul(0xBF58_476D_1CE4_E5B9),
    ).wrapping_add((terminal.1 as u64).wrapping_mul(0x94D0_49BB_1331_11EB)).wrapping_add(terminal.2 as u64);
    turn_bits(mixed, (route_len % 64) as u64)
}

/// The seed that a strategy varies its choice with.
pub open spec fn seed_of(strategy: GlobalRoutingStrategy) -> u64 {
    match strategy {
        GlobalRoutingStrategy::GreedyBeam { variant_seed, .. } => variant_seed,
        _ => 0,
    }
}

/// By what a route is ordered: the cost of its course and the way that is left,
/// its length, the way that is left, the strength of its signal, and its number.
pub open spec fn priority_of(
    strategy: GlobalRoutingStrategy,
    model: RouteCostModel,
    sink: Position,
    state: RouteSearchState,
    sequence: usize,
) -> AStarPriority {
    let way = capped(distance(state.terminal, sink));
    let weakness = weakness_cost(model, state);
    AStarPriority {
        estimated_total_cost: capped(capped(capped(course_cost(model, state)) + way) + weakness as nat) as usize,
        route_len: steps_of(state.route@) as usize,
        manhattan_to_sink: way as usize,
        low_strength_penalty: weakness,
        variant_tie_break: tie_break(seed_of(strategy), state.terminal, state.route@.len()),
        sequence,
    }
}

/// A route in a queue.
pub struct QueueEntry {
    pub priority: AStarPriority,
    pub state: RouteSearchState,
}

/// The routes that are being extended.
pub struct RouteSearchQueue {
    pub strategy: GlobalRoutingStrategy,
    pub sink: Position,
    pub cost_model: RouteCostModel,
    pub entries: Vec<QueueEntry>,
    pub next_sequence: usize,
}

/// Whether every route of a queue has the priority and a number of its own.
pub open spec fn queue_wf(queue: RouteSearchQueue) -> bool {
    &&& forall|i: int|
        0 <= i < queue.entries@.len() ==> {
            let entry = #[trigger] queue.entries@[i];
            &&& entry.state.world.wf()
            &&& entry.priority.sequence < queue.next_sequence
        }
    &&& forall|i: int, j: int|
        0 <= i < j < queue.entries@.len() ==> (#[trigger] queue.entries@[i]).priority.sequence != (
        #[trigger] queue.entries@[j]).priority.sequence
}

/// Whether no entry comes before the one at an index.
pub open spec fn is_first(entries: Seq<QueueEntry>, index: int) -> bool {
    &&& 0 <= index < entries.len()
    &&& forall|i: int|
        0 <= i < entries.len() && i != index ==> entries[index].priority.before(&(#[trigger] entries[i]).priority)
}

/// Whether no entry comes behind the one at an index.
pub open spec fn is_last(entries: Seq<QueueEntry>, index: int) -> bool {
    &&& 0 <= index < entries.len()
    &&& forall|i: int|
        0 <= i < entries.len() && i != index ==> (#[trigger] entries[i]).priority.before(&entries[index].priority)
}

/// How many routes a strategy keeps at most.
pub open spec fn width_of(strategy: GlobalRoutingStrategy) -> Option<int> {
    match strategy {
        GlobalRoutingStrategy::GreedyBeam { beam_width, .. } => Some(
            if beam_width == 0 {
                1
            } else {
                beam_width as int
            },
        ),
        _ => None,
    }
}

/// Whether entries are what a strategy makes of others and a new one: they are
/// kept, but for a single cheapest one, or for the most expensive one of too
/// many.
pub open spec fn is_pushed(
    strategy: GlobalRoutingStrategy,
    before: Seq<QueueEntry>,
    entry: QueueEntry,
    after: Seq<QueueEntry>,
) -> bool {
    match strategy {
        GlobalRoutingStrategy::BreadthFirst => after == before.push(entry),
        GlobalRoutingStrategy::AStar => after == before.push(entry),
        GlobalRoutingStrategy::DirectGreedy { .. } => if before.len() == 0 || entry.priority.before(
            &before[0].priority,
        ) {
            after == seq![entry]
        } else {
            after == before
        },
        GlobalRoutingStrategy::GreedyBeam { .. } => {
            let all = before.push(entry);
            if all.len() > width_of(strategy)->0 {
                exists|worst: int| #[trigger] is_last(all, worst) && after == all.remove(worst)
            } else {
                after == all
            }
        },
    }
}

/// Whether an entry is the next that a strategy takes: the oldest, or the
/// cheapest.
pub open spec fn is_next(strategy: GlobalRoutingStrategy, entries: Seq<QueueEntry>, index: int) -> bool {
    if strategy is BreadthFirst {
        index == 0 && entries.len() > 0
    } else {
        is_first(entries, index)
    }
}

/// Two entries with different numbers come one before the other.
proof fn numbers_decide(left: AStarPriority, right: AStarPriority)
    requires
        left.sequence != right.sequence,
    ensures
        left.before(&right) || right.before(&left),
{
    left.before_total(&right);
}

fn first_entry(entries: &Vec<QueueEntry>) -> (best: usize)
    requires
        entries.len() > 0,
        forall|i: int, j: int|
            0 <= i < j < entries@.len() ==> (#[trigger] entries@[i]).priority.sequence != (
            #[trigger] entries@[j]).priority.sequence,
    ensures
        is_first(entries@, best as int),
{
    let mut best: usize = 0;
    let mut index: usize = 1;
    while index < entries.len()
        invariant
            best < index <= entries.len(),
            forall|i: int, j: int|
                0 <= i < j < entries@.len() ==> (#[trigger] entries@[i]).priority.sequence != (
                #[trigger] entries@[j]).priority.sequence,
            forall|i: int|
                0 <= i < index && i != best ==> entries@[best as int].priority.before(&(#[trigger] entries@[i]).priority),
        decreases entries.len() - index,
    {
        let ghost held = best as int;
        let earlier = entries[index].priority.is_before(&entries[best].priority);
        proof {
            assert(entries@[held].priority.sequence != entries@[index as int].priority.sequence);
            numbers_decide(entries@[held].priority, entries@[index as int].priority);
            if earlier {
                assert forall|i: int| 0 <= i < index implies entries@[index as int].priority.before(
                    &(#[trigger] entries@[i]).priority,
                ) by {
                    if i != held {
                        before_chains(
                            entries@[index as int].priority,
                            entries@[held].priority,
                            entries@[i].priority,
                        );
                    }
                }
            }
        }
        if earlier {
            best = index;
        }
        index += 1;
    }
    best
}

fn last_entry(entries: &Vec<QueueEntry>) -> (worst: usize)
    requires
        entries.len() > 0,
        forall|i: int, j: int|
            0 <= i < j < entries@.len() ==> (#[trigger] entries@[i]).priority.sequence != (
            #[trigger] entries@[j]).priority.sequence,
    ensures
        is_last(entries@, worst as int),
{
    let mut worst: usize = 0;
    let mut index: usize = 1;
    while index < entries.len()
        invariant
            worst < index <= entries.len(),
            forall|i: int, j: int|
                0 <= i < j < entries@.len() ==> (#[trigger] entries@[i]).priority.sequence != (
                #[trigger] entries@[j]).priority.sequence,
            forall|i: int|
                0 <= i < index && i != worst ==> (#[trigger] entries@[i]).priority.before(&entries@[worst as int].priority),
        decreases entries.len() - index,
    {
        let ghost held = worst as int;
        let later = entries[worst].priority.is_before(&entries[index].priority);
        proof {
            assert(entries@[held].priority.sequence != entries@[index as int].priority.sequence);
            numbers_decide(entries@[held].priority, entries@[index as int].priority);
            if later {
                assert forall|i: int| 0 <= i < index implies (#[trigger] entries@[i]).priority.before(
                    &entries@[index as int].priority,
                ) by {
                    if i != held {
                        before_chains(
                            entries@[i].priority,
                            entries@[held].priority,
                            entries@[index as int].priority,
                        );
                    }
                }
            }
        }
        if later {
            worst = index;
        }
        index += 1;
    }
    worst
}

impl RouteSearchQueue {
    /// An empty queue.
    pub fn empty(strategy: GlobalRoutingStrategy, sink: Position, cost_model: RouteCostModel) -> (queue: Self)
        ensures
            queue_wf(queue),
            queue.strategy == strategy,
            queue.sink == sink,
            queue.cost_model == cost_model,
            queue.entries@ == Seq::<QueueEntry>::empty(),
            queue.next_sequence == 0,
    {
        let entries: Vec<QueueEntry> = Vec::new();
        assert(entries@ =~= Seq::<QueueEntry>::empty());
        RouteSearchQueue { strategy, sink, cost_model, entries, next_sequence: 0 }
    }

    /// Takes the next route.
    pub fn pop(&mut self) -> (next: Option<RouteSearchState>)
        requires
            queue_wf(*old(self)),
        ensures
            queue_wf(*final(self)),
            final(self).strategy == old(self).strategy,
            final(self).sink == old(self).sink,
            final(self).cost_model == old(self).cost_model,
            final(self).next_sequence == old(self).next_sequence,
            match next {
                None => old(self).entries@.len() == 0 && final(self).entries@ == old(self).entries@,
                Some(state) => exists|index: int| #[trigger]
                    is_next(old(self).strategy, old(self).entries@, index) && state
                        == old(self).entries@[index].state && final(self).entries@ == old(self).entries@.remove(
                        index,
                    ),
            },
            next matches Some(state) ==> state.world.wf(),
    {
        let ghost before = self.entries@;
        if self.entries.len() == 0 {
            return None;
        }
        let index: usize = match self.strategy {
            GlobalRoutingStrategy::BreadthFirst => 0,
            _ => first_entry(&self.entries),
        };
        assert(is_next(self.strategy, before, index as int));
        let entry = self.entries.remove(index);
        proof {
            removal_keeps(before, index as int, self.next_sequence);
            assert(before[index as int].state.world.wf());
        }
        Some(entry.state)
    }

    /// Adds a route.
    pub fn push(&mut self, state: RouteSearchState)
        requires
            queue_wf(*old(self)),
            state.world.wf(),
            old(self).next_sequence < usize::MAX,
        ensures
            queue_wf(*final(self)),
            final(self).strategy == old(self).strategy,
            final(self).sink == old(self).sink,
            final(self).cost_model == old(self).cost_model,
            final(self).next_sequence == old(self).next_sequence + 1,
            final(self).entries@.len() <= old(self).entries@.len() + 1,
            is_pushed(
                old(self).strategy,
                old(self).entries@,
                QueueEntry {
                    priority: priority_of(
                        old(self).strategy,
                        old(self).cost_model,
                        old(self).sink,
                        state,
                        old(self).next_sequence,
                    ),
                    state,
                },
                final(self).entries@,
            ),
    {
        let ghost before = self.entries@;
        let ghost count = self.next_sequence;
        let sequence: usize = self.next_sequence;
        let priority = self.priority(&state, sequence);
        let entry = QueueEntry { priority, state };
        let ghost added = entry;
        self.next_sequence = sequence + 1;
        match self.strategy {
            GlobalRoutingStrategy::BreadthFirst | GlobalRoutingStrategy::AStar => {
                self.entries.push(entry);
                proof {
                    pushing_keeps(before, added, count);
                }
            },
            GlobalRoutingStrategy::DirectGreedy { .. } => {
                let replaces = if self.entries.len() == 0 {
                    true
                } else {
                    entry.priority.is_before(&self.entries[0].priority)
                };
                if replaces {
                    self.entries = vec![entry];
                    assert(self.entries@ =~= seq![added]);
                } else {
                    proof {
                        assert forall|i: int| 0 <= i < self.entries@.len() implies {
                            let entry = #[trigger] self.entries@[i];
                            &&& entry.state.world.wf()
                            &&& entry.priority.sequence < self.next_sequence
                        } by {
                            assert(before[i].priority.sequence < count);
                        }
                    }
                }
            },
            GlobalRoutingStrategy::GreedyBeam { beam_width, .. } => {
                self.entries.push(entry);
                let width: usize = if beam_width == 0 {
                    1
                } else {
                    beam_width
                };
                let ghost all = self.entries@;
                proof {
                    pushing_keeps(before, added, count);
                }
                if self.entries.len() > width {
                    let worst: usize = last_entry(&self.entries);
                    assert(is_last(all, worst as int));
                    self.entries.remove(worst);
                    proof {
                        removal_keeps(all, worst as int, self.next_sequence);
                    }
                }
            },
        }
    }

    fn priority(&self, state: &RouteSearchState, sequence: usize) -> (priority: AStarPriority)
        requires
            state.world.wf(),
        ensures
            priority == priority_of(self.strategy, self.cost_model, self.sink, *state, sequence),
    {
        let route_len: usize = if state.route.len() == 0 {
            0
        } else {
            state.route.len() - 1
        };
        let way: usize = state.terminal.capped_distance(&self.sink);
        let weakness: usize = self.cost_model.low_strength_penalty(state);
        let course: usize = self.cost_model.weighted_route_cost(state);
        let seed: u64 = match self.strategy {
            GlobalRoutingStrategy::GreedyBeam { variant_seed, .. } => variant_seed,
            _ => 0,
        };
        AStarPriority {
            estimated_total_cost: capped_sum(capped_sum(course, way), weakness),
            route_len,
            manhattan_to_sink: way,
            low_strength_penalty: weakness,
            variant_tie_break: break_tie(seed, state.terminal, state.route.len()),
            sequence,
        }
    }
}

/// Whether entries have well-formed worlds and different numbers below a bound.
spec fn entries_wf(entries: Seq<QueueEntry>, bound: usize) -> bool {
    &&& forall|i: int|
        0 <= i < entries.len() ==> {
            let entry = #[trigger] entries[i];
            &&& entry.state.world.wf()
            &&& entry.priority.sequence < bound
        }
    &&& forall|i: int, j: int|
        0 <= i < j < entries.len() ==> (#[trigger] entries[i]).priority.sequence != (
        #[trigger] entries[j]).priority.sequence
}

proof fn removal_keeps(before: Seq<QueueEntry>, index: int, bound: usize)
    requires
        entries_wf(before, bound),
        0 <= index < before.len(),
    ensures
        entries_wf(before.remove(index), bound),
{
    let after = before.remove(index);
    assert forall|k: int| 0 <= k < after.len() implies #[trigger] after[k] == before[if k < index { k } else { k + 1 }] by {}
    assert forall|i: int, j: int| 0 <= i < j < after.len() implies (#[trigger] after[i]).priority.sequence != (
    #[trigger] after[j]).priority.sequence by {
        let a = if i < index { i } else { i + 1 };
        let b = if j < index { j } else { j + 1 };
        assert(before[a].priority.sequence != before[b].priority.sequence);
    }
}

proof fn pushing_keeps(before: Seq<QueueEntry>, entry: QueueEntry, bound: usize)
    requires
        entries_wf(before, bound),
        bound < usize::MAX,
        entry.state.world.wf(),
        entry.priority.sequence == bound,
    ensures
        entries_wf(before.push(entry), (bound + 1) as usize),
{
    let after = before.push(entry);
    assert forall|i: int| 0 <= i < after.len() implies {
        let entry = #[trigger] after[i];
        &&& entry.state.world.wf()
        &&& entry.priority.sequence < bound + 1
    } by {
        if i < before.len() {
            assert(before[i].priority.sequence < bound);
        }
    }
    assert forall|i: int, j: int| 0 <= i < j < after.len() implies (#[trigger] after[i]).priority.sequence != (
    #[trigger] after[j]).priority.sequence by {
        assert(before[i].priority.sequence < bound);
        if j < before.len() {
            assert(before[i].priority.sequence != before[j].priority.sequence);
        }
    }
}

/// A queue has one cheapest route.
pub proof fn next_is_unique(strategy: GlobalRoutingStrategy, entries: Seq<QueueEntry>, left: int, right: int)
    requires
        is_next(strategy, entries, left),
        is_next(strategy, entries, right),
    ensures
        left == right,
{
    if !(strategy is BreadthFirst) && left != right {
        assert(entries[left].priority.before(&entries[right].priority));
        assert(entries[right].priority.before(&entries[left].priority));
        entries[left].priority.before_asymmetric(&entries[right].priority);
    }
}

} // verus!

//! How many routes use a cell, and how often it was used by too many.

use crate::order::SortKey;
use crate::world::position::{is_sorted, position_before, Position};
use vstd::prelude::*;

verus! {

/// What a cell costs for being used by others now, and for having been used by
/// too many before. By default both are free.
#[derive(Clone, Copy, Debug, PartialEq, Eq, Structural)]
pub struct CongestionConfig {
    pub present_penalty: usize,
    pub history_penalty: usize,
}

impl Default for CongestionConfig {
    fn default() -> (config: Self)
        ensures
            config == (CongestionConfig { present_penalty: 0, history_penalty: 0 }),
    {
        CongestionConfig { present_penalty: 0, history_penalty: 0 }
    }
}

// ---------------------------------------------------------------------------
// Counts
// ---------------------------------------------------------------------------
/// A cell and a count that is not zero.
#[derive(Clone, Copy, Debug)]
pub struct CellCount {
    pub cell: Position,
    pub count: usize,
}

/// Whether counts are listed in cell order, each cell once, and none is zero.
pub open spec fn are_counts(list: Seq<CellCount>) -> bool {
    &&& forall|i: int, j: int|
        0 <= i < j < list.len() ==> position_before((#[trigger] list[i]).cell, (#[trigger] list[j]).cell)
    &&& forall|i: int| 0 <= i < list.len() ==> (#[trigger] list[i]).count > 0
}

/// The count of a cell, from entry `start` on.
pub open spec fn count_from(list: Seq<CellCount>, cell: Position, start: nat) -> nat
    decreases list.len() - start,
{
    if start >= list.len() {
        0
    } else if list[start as int].cell == cell {
        list[start as int].count as nat
    } else {
        count_from(list, cell, start + 1)
    }
}

/// The count of a cell.
pub open spec fn count_of(list: Seq<CellCount>, cell: Position) -> nat {
    count_from(list, cell, 0)
}

proof fn count_from_none(list: Seq<CellCount>, cell: Position, start: nat)
    requires
        forall|i: int| start <= i < list.len() ==> (#[trigger] list[i]).cell != cell,
    ensures
        count_from(list, cell, start) == 0,
    decreases list.len() - start,
{
    if start < list.len() {
        count_from_none(list, cell, start + 1);
    }
}

proof fn count_from_at(list: Seq<CellCount>, start: nat, index: int)
    requires
        are_counts(list),
        start <= index < list.len(),
    ensures
        count_from(list, list[index].cell, start) == list[index].count,
    decreases index - start,
{
    if start < index {
        assert(position_before(list[start as int].cell, list[index].cell));
        count_from_at(list, start + 1, index);
    }
}

/// A count that is not zero is listed.
proof fn counted_is_listed(list: Seq<CellCount>, cell: Position, start: nat) -> (index: int)
    requires
        count_from(list, cell, start) > 0,
    ensures
        start <= index < list.len(),
        list[index].cell == cell,
        list[index].count == count_from(list, cell, start),
    decreases list.len() - start,
{
    if list[start as int].cell == cell {
        start as int
    } else {
        counted_is_listed(list, cell, start + 1)
    }
}

/// Where a cell is listed, or belongs.
fn find_place(list: &Vec<CellCount>, cell: Position) -> (place: usize)
    requires
        are_counts(list@),
    ensures
        place <= list.len(),
        forall|i: int| 0 <= i < place ==> position_before((#[trigger] list@[i]).cell, cell),
        place < list.len() ==> !position_before(list@[place as int].cell, cell),
        place < list.len() && list@[place as int].cell == cell ==> count_of(list@, cell) == list@[place as int].count,
        place == list.len() || list@[place as int].cell != cell ==> count_of(list@, cell) == 0,
{
    let mut place: usize = 0;
    while place < list.len() && list[place].cell.is_before(&cell)
        invariant
            place <= list.len(),
            forall|i: int| 0 <= i < place ==> position_before((#[trigger] list@[i]).cell, cell),
        decreases list.len() - place,
    {
        place += 1;
    }
    proof {
        if place < list.len() && list@[place as int].cell == cell {
            count_from_at(list@, 0, place as int);
        } else {
            assert forall|i: int| 0 <= i < list@.len() implies (#[trigger] list@[i]).cell != cell by {
                if i > place {
                    assert(position_before(list@[place as int].cell, list@[i].cell));
                }
            }
            count_from_none(list@, cell, 0);
        }
    }
    place
}

fn read_count(list: &Vec<CellCount>, cell: Position) -> (count: usize)
    requires
        are_counts(list@),
    ensures
        count == count_of(list@, cell),
{
    let place: usize = find_place(list, cell);
    if place < list.len() && list[place].cell == cell {
        list[place].count
    } else {
        0
    }
}

/// Sets the count of a cell.
fn write_count(list: &mut Vec<CellCount>, cell: Position, count: usize)
    requires
        are_counts(old(list)@),
    ensures
        are_counts(final(list)@),
        forall|other: Position| #[trigger]
            count_of(final(list)@, other) == (if other == cell {
                count as nat
            } else {
                count_of(old(list)@, other)
            }),
{
    let ghost before = list@;
    let place: usize = find_place(list, cell);
    let present = place < list.len() && list[place].cell == cell;
    proof {
        assert forall|i: int| place < i < before.len() implies position_before(cell, (#[trigger] before[i]).cell) by {
            assert(position_before(before[place as int].cell, before[i].cell));
        }
    }
    if count == 0 {
        if present {
            list.remove(place);
        }
    } else if present {
        list[place] = CellCount { cell, count };
    } else {
        list.insert(place, CellCount { cell, count });
    }
    proof {
        let after = list@;
        let shift: int = if count == 0 && present { 1 } else if count != 0 && !present { -1 } else { 0 };
        // Entries keep their places, but those behind the changed one move.
        assert forall|i: int| 0 <= i < place implies (#[trigger] after[i]) == before[i] by {}
        let skip: int = if shift == 1 { 0 } else if count == 0 { 0 } else { 1 };
        assert forall|i: int| place + skip <= i < after.len() implies (#[trigger] after[i]) == before[i + shift] by {}
        assert forall|i: int, j: int| 0 <= i < j < after.len() implies position_before(
            (#[trigger] after[i]).cell,
            (#[trigger] after[j]).cell,
        ) by {
            if i < place {
                assert(after[i] == before[i]);
                if j < place {
                    assert(position_before(before[i].cell, before[j].cell));
                } else if j >= place + skip {
                    assert(after[j] == before[j + shift]);
                    assert(position_before(before[i].cell, before[j + shift].cell));
                }
            } else if i < place + skip {
                assert(after[i].cell == cell);
                assert(after[j] == before[j + shift]);
            } else {
                assert(after[i] == before[i + shift]);
                assert(after[j] == before[j + shift]);
                assert(position_before(before[i + shift].cell, before[j + shift].cell));
            }
        }
        assert forall|i: int| 0 <= i < after.len() implies (#[trigger] after[i]).count > 0 by {
            if i < place {
                assert(before[i].count > 0);
            } else if i >= place + skip {
                assert(before[i + shift].count > 0);
            }
        }
        assert forall|other: Position| #[trigger] count_of(after, other) == (if other == cell {
            count as nat
        } else {
            count_of(before, other)
        }) by {
            if count_of(after, other) > 0 {
                let i = counted_is_listed(after, other, 0);
                if i < place {
                    count_from_at(before, 0, i);
                } else if i >= place + skip {
                    count_from_at(before, 0, i + shift);
                }
            } else if other == cell {
                if count != 0 {
                    count_from_at(after, 0, place as int);
                }
            } else if count_of(before, other) > 0 {
                let i = counted_is_listed(before, other, 0);
                if i < place {
                    assert(after[i] == before[i]);
                    count_from_at(after, 0, i);
                } else {
                    assert(after[i - shift] == before[i]);
                    count_from_at(after, 0, i - shift);
                }
            }
        }
    }
}

/// How often a cell occurs among the first `count` cells of a path.
pub open spec fn occurrences(path: Seq<Position>, cell: Position, count: nat) -> nat
    decreases count,
{
    if count == 0 {
        0
    } else {
        occurrences(path, cell, (count - 1) as nat) + if path[count - 1] == cell {
            1nat
        } else {
            0
        }
    }
}

/// How often a cell occurs in a path.
pub open spec fn crossings(path: Seq<Position>, cell: Position) -> nat {
    occurrences(path, cell, path.len())
}

pub proof fn occurrences_bound(path: Seq<Position>, cell: Position, count: nat)
    ensures
        occurrences(path, cell, count) <= count,
    decreases count,
{
    if count > 0 {
        occurrences_bound(path, cell, (count - 1) as nat);
    }
}

/// A number less another, but not below zero.
pub open spec fn minus(left: nat, right: nat) -> nat {
    if left >= right {
        (left - right) as nat
    } else {
        0
    }
}

// ---------------------------------------------------------------------------
// The map
// ---------------------------------------------------------------------------
/// How many routes use each cell, and how often it was used by too many.
#[derive(Clone, Debug)]
pub struct CongestionMap {
    pub used: Vec<CellCount>,
    pub past: Vec<CellCount>,
}

/// Whether one of the first `count` cells is this one, and used by too many.
spec fn is_overused(used: Seq<CellCount>, count: int, cell: Position) -> bool {
    exists|i: int| 0 <= i < count && (#[trigger] used[i]).cell == cell && used[i].count > 1
}

impl CongestionMap {
    pub open spec fn wf(&self) -> bool {
        are_counts(self.used@) && are_counts(self.past@)
    }

    /// How many routes use a cell.
    pub open spec fn usage_at(&self, cell: Position) -> nat {
        count_of(self.used@, cell)
    }

    /// How often a cell was used by too many.
    pub open spec fn history_at(&self, cell: Position) -> nat {
        count_of(self.past@, cell)
    }

    /// By how many routes too many a cell is used.
    pub open spec fn overuse_at(&self, cell: Position) -> nat {
        minus(self.usage_at(cell), 1)
    }

    /// A map without routes.
    pub fn new() -> (map: Self)
        ensures
            map.wf(),
            forall|cell: Position| #[trigger] map.usage_at(cell) == 0,
            forall|cell: Position| #[trigger] map.history_at(cell) == 0,
    {
        CongestionMap { used: Vec::new(), past: Vec::new() }
    }

    /// Whether no cell is used, and none was used by too many.
    pub fn is_empty(&self) -> (empty: bool)
        requires
            self.wf(),
        ensures
            empty == forall|cell: Position| #[trigger] self.usage_at(cell) == 0 && self.history_at(cell) == 0,
    {
        proof {
            if self.used@.len() > 0 {
                count_from_at(self.used@, 0, 0);
                assert(self.usage_at(self.used@[0].cell) > 0);
            }
            if self.past@.len() > 0 {
                count_from_at(self.past@, 0, 0);
                assert(self.usage_at(self.past@[0].cell) >= 0);
                assert(self.history_at(self.past@[0].cell) > 0);
            }
        }
        self.used.len() == 0 && self.past.len() == 0
    }

    pub fn usage(&self, position: Position) -> (count: usize)
        requires
            self.wf(),
        ensures
            count == self.usage_at(position),
    {
        read_count(&self.used, position)
    }

    pub fn history(&self, position: Position) -> (count: usize)
        requires
            self.wf(),
        ensures
            count == self.history_at(position),
    {
        read_count(&self.past, position)
    }

    pub fn present_overuse(&self, position: Position) -> (count: usize)
        requires
            self.wf(),
        ensures
            count == self.overuse_at(position),
    {
        let usage: usize = self.usage(position);
        if usage >= 1 {
            usage - 1
        } else {
            0
        }
    }

    /// Counts a route in every cell of its path.
    pub fn add_route(&mut self, path: &Vec<Position>)
        requires
            old(self).wf(),
            forall|cell: Position| #[trigger] old(self).usage_at(cell) + crossings(path@, cell) <= usize::MAX,
        ensures
            final(self).wf(),
            forall|cell: Position| #[trigger]
                final(self).usage_at(cell) == old(self).usage_at(cell) + crossings(path@, cell),
            final(self).past@ == old(self).past@,
    {
        let ghost before = *self;
        let mut index: usize = 0;
        while index < path.len()
            invariant
                index <= path.len(),
                before == *old(self),
                self.wf(),
                self.past@ == before.past@,
                forall|cell: Position| #[trigger] before.usage_at(cell) + crossings(path@, cell) <= usize::MAX,
                forall|cell: Position| #[trigger]
                    self.usage_at(cell) == before.usage_at(cell) + occurrences(path@, cell, index as nat),
            decreases path.len() - index,
        {
            let cell = path[index];
            proof {
                assert(before.usage_at(cell) + crossings(path@, cell) <= usize::MAX);
                occurrences_grow(path@, cell, (index + 1) as nat, path@.len());
                assert(self.usage_at(cell) == before.usage_at(cell) + occurrences(path@, cell, index as nat));
            }
            let count: usize = read_count(&self.used, cell);
            let ghost now = *self;
            write_count(&mut self.used, cell, count + 1);
            proof {
                assert forall|other: Position| #[trigger] self.usage_at(other) == before.usage_at(other) + occurrences(
                    path@,
                    other,
                    (index + 1) as nat,
                ) by {
                    assert(now.usage_at(other) == before.usage_at(other) + occurrences(path@, other, index as nat));
                    assert(count_of(self.used@, other) == self.usage_at(other));
                }
            }
            index += 1;
        }
    }

    /// Takes a route out of every cell of its path.
    pub fn rip_route(&mut self, path: &Vec<Position>)
        requires
            old(self).wf(),
        ensures
            final(self).wf(),
            forall|cell: Position| #[trigger]
                final(self).usage_at(cell) == minus(old(self).usage_at(cell), crossings(path@, cell)),
            final(self).past@ == old(self).past@,
    {
        let ghost before = *self;
        let mut index: usize = 0;
        while index < path.len()
            invariant
                index <= path.len(),
                before == *old(self),
                self.wf(),
                self.past@ == before.past@,
                forall|cell: Position| #[trigger]
                    self.usage_at(cell) == minus(before.usage_at(cell), occurrences(path@, cell, index as nat)),
            decreases path.len() - index,
        {
            let cell = path[index];
            let count: usize = read_count(&self.used, cell);
            let ghost now = *self;
            let left: usize = if count >= 1 {
                count - 1
            } else {
                0
            };
            write_count(&mut self.used, cell, left);
            proof {
                assert forall|other: Position| #[trigger] self.usage_at(other) == minus(
                    before.usage_at(other),
                    occurrences(path@, other, (index + 1) as nat),
                ) by {
                    assert(now.usage_at(other) == minus(
                        before.usage_at(other),
                        occurrences(path@, other, index as nat),
                    ));
                    assert(count_of(self.used@, other) == self.usage_at(other));
                }
            }
            index += 1;
        }
    }

    /// What it costs to use a cell.
    pub fn cell_cost(&self, position: Position, config: &CongestionConfig) -> (cost: usize)
        requires
            self.wf(),
            cost_at(*self, position, *config) <= usize::MAX,
        ensures
            cost == cost_at(*self, position, *config),
    {
        let overuse: usize = self.present_overuse(position);
        let history: usize = self.history(position);
        proof {
            assert(overuse * config.present_penalty >= 0) by (nonlinear_arith)
                requires
                    overuse >= 0,
                    config.present_penalty >= 0,
            ;
            assert(history * config.history_penalty >= 0) by (nonlinear_arith)
                requires
                    history >= 0,
                    config.history_penalty >= 0,
            ;
        }
        overuse * config.present_penalty + history * config.history_penalty
    }

    /// Adds what is used by too many now to the history.
    pub fn commit_iteration(&mut self)
        requires
            old(self).wf(),
            forall|cell: Position| #[trigger] old(self).history_at(cell) + old(self).overuse_at(cell) <= usize::MAX,
        ensures
            final(self).wf(),
            final(self).used@ == old(self).used@,
            forall|cell: Position| #[trigger]
                final(self).history_at(cell) == old(self).history_at(cell) + old(self).overuse_at(cell),
    {
        let ghost before = *self;
        let count: usize = self.used.len();
        let mut index: usize = 0;
        while index < count
            invariant
                index <= count,
                count == before.used@.len(),
                before == *old(self),
                before.wf(),
                self.wf(),
                self.used@ == before.used@,
                forall|cell: Position| #[trigger] before.history_at(cell) + before.overuse_at(cell) <= usize::MAX,
                forall|cell: Position| #[trigger]
                    self.history_at(cell) == before.history_at(cell) + (if listed_before(
                        before.used@,
                        cell,
                        index as int,
                    ) {
                        before.overuse_at(cell)
                    } else {
                        0
                    }),
            decreases count - index,
        {
            let cell = self.used[index].cell;
            let usage: usize = self.used[index].count;
            let ghost now = *self;
            proof {
                count_from_at(before.used@, 0, index as int);
                assert(before.usage_at(cell) == usage);
                assert(before.history_at(cell) + before.overuse_at(cell) <= usize::MAX);
                assert(self.history_at(cell) == before.history_at(cell)) by {
                    if listed_before(before.used@, cell, index as int) {
                        let i = choose|i: int| 0 <= i < index && (#[trigger] before.used@[i]).cell == cell;
                        assert(position_before(before.used@[i].cell, before.used@[index as int].cell));
                    }
                }
            }
            if usage > 1 {
                let known: usize = read_count(&self.past, cell);
                write_count(&mut self.past, cell, known + (usage - 1));
            }
            proof {
                assert forall|other: Position| #[trigger] self.history_at(other) == before.history_at(other) + (
                if listed_before(before.used@, other, index + 1) {
                    before.overuse_at(other)
                } else {
                    0
                }) by {
                    assert(now.history_at(other) == before.history_at(other) + (if listed_before(
                        before.used@,
                        other,
                        index as int,
                    ) {
                        before.overuse_at(other)
                    } else {
                        0
                    }));
                    assert(count_of(self.past@, other) == self.history_at(other));
                    if other == cell {
                        assert(before.used@[index as int].cell == other);
                    } else if listed_before(before.used@, other, index + 1) {
                        let i = choose|i: int| 0 <= i < index + 1 && (#[trigger] before.used@[i]).cell == other;
                        assert(before.used@[i].cell == other);
                    } else if listed_before(before.used@, other, index as int) {
                        let i = choose|i: int| 0 <= i < index && (#[trigger] before.used@[i]).cell == other;
                        assert(before.used@[i].cell == other);
                    }
                }
            }
            index += 1;
        }
        proof {
            assert forall|cell: Position| #[trigger] self.history_at(cell) == before.history_at(cell)
                + before.overuse_at(cell) by {
                if before.usage_at(cell) > 0 {
                    let i = counted_is_listed(before.used@, cell, 0);
                    assert(before.used@[i].cell == cell);
                }
            }
        }
    }

    /// Counts every cell of a path as used by too many.
    pub fn add_history(&mut self, path: &Vec<Position>)
        requires
            old(self).wf(),
            forall|cell: Position| #[trigger] old(self).history_at(cell) + crossings(path@, cell) <= usize::MAX,
        ensures
            final(self).wf(),
            final(self).used@ == old(self).used@,
            forall|cell: Position| #[trigger]
                final(self).history_at(cell) == old(self).history_at(cell) + crossings(path@, cell),
    {
        let ghost before = *self;
        let mut index: usize = 0;
        while index < path.len()
            invariant
                index <= path.len(),
                before == *old(self),
                self.wf(),
                self.used@ == before.used@,
                forall|cell: Position| #[trigger] before.history_at(cell) + crossings(path@, cell) <= usize::MAX,
                forall|cell: Position| #[trigger]
                    self.history_at(cell) == before.history_at(cell) + occurrences(path@, cell, index as nat),
            decreases path.len() - index,
        {
            let cell = path[index];
            proof {
                assert(before.history_at(cell) + crossings(path@, cell) <= usize::MAX);
                occurrences_grow(path@, cell, (index + 1) as nat, path@.len());
                assert(self.history_at(cell) == before.history_at(cell) + occurrences(path@, cell, index as nat));
            }
            let count: usize = read_count(&self.past, cell);
            let ghost now = *self;
            write_count(&mut self.past, cell, count + 1);
            proof {
                assert forall|other: Position| #[trigger] self.history_at(other) == before.history_at(other)
                    + occurrences(path@, other, (index + 1) as nat) by {
                    assert(now.history_at(other) == before.history_at(other) + occurrences(path@, other, index as nat));
                    assert(count_of(self.past@, other) == self.history_at(other));
                }
            }
            index += 1;
        }
    }

    /// The cells that are used by too many, in order.
    pub fn overused_cells(&self) -> (cells: Vec<Position>)
        requires
            self.wf(),
        ensures
            is_sorted(cells@),
            forall|cell: Position| #[trigger] cells@.contains(cell) <==> self.usage_at(cell) > 1,
    {
        let mut cells: Vec<Position> = Vec::new();
        let mut index: usize = 0;
        while index < self.used.len()
            invariant
                index <= self.used.len(),
                self.wf(),
                is_sorted(cells@),
                forall|k: int| 0 <= k < cells.len() ==> is_overused(self.used@, index as int, #[trigger] cells@[k]),
                forall|i: int|
                    0 <= i < index && (#[trigger] self.used@[i]).count > 1 ==> cells@.contains(self.used@[i].cell),
            decreases self.used.len() - index,
        {
            let ghost before = cells@;
            if self.used[index].count > 1 {
                cells.push(self.used[index].cell);
                proof {
                    assert(cells@[before.len() as int] == self.used@[index as int].cell);
                    assert forall|a: int, b: int| 0 <= a < b < cells.len() implies position_before(
                        #[trigger] cells@[a],
                        #[trigger] cells@[b],
                    ) by {
                        if b < before.len() {
                            assert(position_before(before[a], before[b]));
                        } else {
                            assert(cells@[a] == before[a]);
                            assert(is_overused(self.used@, index as int, before[a]));
                            let i = choose|i: int|
                                0 <= i < index && (#[trigger] self.used@[i]).cell == before[a] && self.used@[i].count > 1;
                            assert(position_before(self.used@[i].cell, self.used@[index as int].cell));
                        }
                    }
                }
            }
            proof {
                assert forall|k: int| 0 <= k < cells.len() implies is_overused(
                    self.used@,
                    index + 1,
                    #[trigger] cells@[k],
                ) by {
                    if k < before.len() {
                        assert(cells@[k] == before[k]);
                        assert(is_overused(self.used@, index as int, before[k]));
                        let i = choose|i: int|
                            0 <= i < index && (#[trigger] self.used@[i]).cell == before[k] && self.used@[i].count > 1;
                        assert(self.used@[i].cell == cells@[k]);
                    } else {
                        assert(self.used@[index as int].cell == cells@[k]);
                    }
                }
                assert forall|i: int| 0 <= i < index + 1 && (#[trigger] self.used@[i]).count > 1 implies cells@.contains(
                    self.used@[i].cell,
                ) by {
                    if i < index {
                        let k = choose|k: int| 0 <= k < before.len() && before[k] == self.used@[i].cell;
                        assert(cells@[k] == self.used@[i].cell);
                    }
                }
            }
            index += 1;
        }
        proof {
            assert forall|cell: Position| #[trigger] cells@.contains(cell) <==> self.usage_at(cell) > 1 by {
                if cells@.contains(cell) {
                    let k = choose|k: int| 0 <= k < cells.len() && cells@[k] == cell;
                    let i = choose|i: int|
                        0 <= i < index && (#[trigger] self.used@[i]).cell == cells@[k] && self.used@[i].count > 1;
                    count_from_at(self.used@, 0, i);
                }
                if self.usage_at(cell) > 1 {
                    let i = counted_is_listed(self.used@, cell, 0);
                    assert(self.used@[i].count > 1);
                }
            }
        }
        cells
    }
}

/// Whether a cell is among the first entries of a list.
spec fn listed_before(list: Seq<CellCount>, cell: Position, count: int) -> bool {
    exists|i: int| 0 <= i < count && (#[trigger] list[i]).cell == cell
}

/// What it costs to use a cell.
pub open spec fn cost_at(map: CongestionMap, cell: Position, config: CongestionConfig) -> int {
    map.overuse_at(cell) * config.present_penalty + map.history_at(cell) * config.history_penalty
}

proof fn occurrences_grow(path: Seq<Position>, cell: Position, low: nat, high: nat)
    requires
        low <= high,
    ensures
        occurrences(path, cell, low) <= occurrences(path, cell, high),
    decreases high,
{
    if low < high {
        occurrences_grow(path, cell, low, (high - 1) as nat);
    }
}

/// Taking a route out undoes putting it in: every cell is used as often as
/// before.
pub proof fn ripping_undoes_adding(
    start: CongestionMap,
    routed: CongestionMap,
    ripped: CongestionMap,
    path: Seq<Position>,
    cell: Position,
)
    requires
        routed.usage_at(cell) == start.usage_at(cell) + crossings(path, cell),
        ripped.usage_at(cell) == minus(routed.usage_at(cell), crossings(path, cell)),
    ensures
        ripped.usage_at(cell) == start.usage_at(cell),
{
}

/// Where history outlives a route: a cell that was used by too many costs its
/// history even when no route uses it any more.
pub proof fn history_outlives_routes(map: CongestionMap, cell: Position, config: CongestionConfig)
    requires
        map.usage_at(cell) <= 1,
    ensures
        cost_at(map, cell, config) == map.history_at(cell) * config.history_penalty,
{
    assert(0 * config.present_penalty == 0);
}

/// With the default penalties every cell is free.
pub proof fn default_is_free(map: CongestionMap, cell: Position)
    ensures
        cost_at(map, cell, CongestionConfig { present_penalty: 0, history_penalty: 0 }) == 0,
{
    assert(map.overuse_at(cell) * 0 == 0);
    assert(map.history_at(cell) * 0 == 0);
}

} // verus!

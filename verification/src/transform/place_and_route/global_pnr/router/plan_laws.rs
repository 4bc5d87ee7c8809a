//! In which order nets are routed, and where a switch may stand.

use super::external::{highest, largest_distance, lowest, middle};
use super::plan::{
    are_fanout_priorities, are_group_ends, are_priorities, criticality, end_fits, fanout, group_start, is_net_order,
    is_priority_of, same_source, FanoutPriority, NetOrderStrategy, RoutePriority, RoutingConnection,
};
use super::ports::ResolvedPortTarget;
use crate::number::capped;
use crate::order::{distinct_covers, in_order, is_stable_order, stable_order_distinct, SortKey};
use crate::world::position::{distance, Position};
use vstd::prelude::*;

verus! {

/// Whether an order lists each of some connections once.
pub open spec fn lists_each_once(order: Seq<usize>, count: nat) -> bool {
    &&& order.len() == count
    &&& order.no_duplicates()
    &&& forall|i: int| 0 <= i < order.len() ==> #[trigger] order[i] < count
    &&& forall|index: usize| index < count ==> #[trigger] order.contains(index)
}

proof fn stable_order_lists_each<K: SortKey>(keys: Seq<K>, order: Seq<usize>)
    requires
        is_stable_order(keys, order),
    ensures
        lists_each_once(order, keys.len()),
{
    stable_order_distinct(keys, order);
    assert forall|index: usize| index < keys.len() implies #[trigger] order.contains(index) by {
        distinct_covers(order, index);
    }
}

proof fn reversed_lists_each(order: Seq<usize>, count: nat)
    requires
        lists_each_once(order.reverse(), count),
    ensures
        lists_each_once(order, count),
{
    let back = order.reverse();
    assert forall|i: int, j: int| 0 <= i < order.len() && 0 <= j < order.len() && i != j implies order[i] != order[j] by {
        assert(back[order.len() - 1 - i] == order[i]);
        assert(back[order.len() - 1 - j] == order[j]);
    }
    assert forall|i: int| 0 <= i < order.len() implies #[trigger] order[i] < count by {
        assert(back[order.len() - 1 - i] == order[i]);
    }
    assert forall|index: usize| index < count implies #[trigger] order.contains(index) by {
        assert(back.contains(index));
        let k = choose|k: int| 0 <= k < back.len() && back[k] == index;
        assert(order[order.len() - 1 - k] == index);
    }
}

/// Whether a connection may be routed before another under a strategy: the more
/// critical one first, or the less critical one, or the one whose source has more
/// connections.
pub open spec fn may_come_first(
    vars: Seq<RoutingConnection>,
    strategy: NetOrderStrategy,
    first: RoutingConnection,
    second: RoutingConnection,
) -> bool {
    match strategy {
        NetOrderStrategy::Criticality => criticality(first) <= criticality(second),
        NetOrderStrategy::ReverseCriticality => criticality(first) >= criticality(second),
        NetOrderStrategy::HighestFanoutFirst => {
            ||| sharing(vars, first).len() > sharing(vars, second).len()
            ||| sharing(vars, first).len() == sharing(vars, second).len() && criticality(first) <= criticality(second)
        },
    }
}

/// The indices of the connections that have the source of one.
pub open spec fn sharing(vars: Seq<RoutingConnection>, var: RoutingConnection) -> Set<int> {
    sharing_below(vars, var, vars.len() as int)
}

pub open spec fn sharing_below(vars: Seq<RoutingConnection>, var: RoutingConnection, count: int) -> Set<int> {
    Set::new(
        |i: int|
            0 <= i < count && vars[i].source.0@ == var.source.0@ && vars[i].source.1@ == var.source.1@,
    )
}

proof fn fanout_counts(vars: Seq<RoutingConnection>, var: RoutingConnection, count: nat)
    requires
        count <= vars.len(),
    ensures
        sharing_below(vars, var, count as int).finite(),
        sharing_below(vars, var, count as int).len() == fanout(vars, var, count),
    decreases count,
{
    let now = sharing_below(vars, var, count as int);
    if count == 0 {
        assert(now =~= Set::<int>::empty());
    } else {
        fanout_counts(vars, var, (count - 1) as nat);
        let before = sharing_below(vars, var, count - 1);
        if same_source(vars[count - 1], var) {
            assert(now =~= before.insert(count - 1));
        } else {
            assert(now =~= before);
        }
    }
}

/// Every connection is routed once, and of two the one comes first that its strategy
/// prefers.
pub proof fn nets_are_ordered_by_strategy(
    vars: Seq<RoutingConnection>,
    strategy: NetOrderStrategy,
    order: Seq<usize>,
)
    requires
        is_net_order(vars, strategy, order),
    ensures
        lists_each_once(order, vars.len()),
        forall|i: int, j: int|
            0 <= i < j < order.len() ==> may_come_first(
                vars,
                strategy,
                vars[#[trigger] order[i] as int],
                vars[#[trigger] order[j] as int],
            ),
{
    match strategy {
        NetOrderStrategy::Criticality => {
            let keys = choose|keys: Seq<RoutePriority>| #[trigger]
                are_priorities(keys, vars) && is_stable_order(keys, order);
            stable_order_lists_each(keys, order);
            assert forall|i: int, j: int| 0 <= i < j < order.len() implies may_come_first(
                vars,
                strategy,
                vars[#[trigger] order[i] as int],
                vars[#[trigger] order[j] as int],
            ) by {
                assert(in_order(keys, order[i], order[j]));
                assert(is_priority_of(keys[order[i] as int], vars[order[i] as int]));
                assert(is_priority_of(keys[order[j] as int], vars[order[j] as int]));
            }
        },
        NetOrderStrategy::ReverseCriticality => {
            let back = order.reverse();
            let keys = choose|keys: Seq<RoutePriority>| #[trigger]
                are_priorities(keys, vars) && is_stable_order(keys, back);
            stable_order_lists_each(keys, back);
            reversed_lists_each(order, vars.len());
            assert forall|i: int, j: int| 0 <= i < j < order.len() implies may_come_first(
                vars,
                strategy,
                vars[#[trigger] order[i] as int],
                vars[#[trigger] order[j] as int],
            ) by {
                let low = order.len() - 1 - j;
                let high = order.len() - 1 - i;
                assert(back[low] == order[j] && back[high] == order[i]);
                assert(in_order(keys, back[low], back[high]));
                assert(is_priority_of(keys[order[i] as int], vars[order[i] as int]));
                assert(is_priority_of(keys[order[j] as int], vars[order[j] as int]));
            }
        },
        NetOrderStrategy::HighestFanoutFirst => {
            let keys = choose|keys: Seq<FanoutPriority>| #[trigger]
                are_fanout_priorities(keys, vars) && is_stable_order(keys, order);
            stable_order_lists_each(keys, order);
            assert forall|i: int, j: int| 0 <= i < j < order.len() implies may_come_first(
                vars,
                strategy,
                vars[#[trigger] order[i] as int],
                vars[#[trigger] order[j] as int],
            ) by {
                let left = order[i] as int;
                let right = order[j] as int;
                assert(in_order(keys, order[i], order[j]));
                assert(keys[left].fanout == fanout(vars, vars[left], vars.len()));
                assert(keys[right].fanout == fanout(vars, vars[right], vars.len()));
                assert(is_priority_of(keys[left].priority, vars[left]));
                assert(is_priority_of(keys[right].priority, vars[right]));
                fanout_counts(vars, vars[left], vars.len());
                fanout_counts(vars, vars[right], vars.len());
            }
        },
    }
}

// ---------------------------------------------------------------------------
// Groups
// ---------------------------------------------------------------------------
/// Whether a connection is in a group.
pub open spec fn in_group(ends: Seq<usize>, group: int, index: int) -> bool {
    0 <= group < ends.len() && group_start(ends, group) <= index < ends[group]
}

/// Whether a connection is in one of the groups.
pub open spec fn is_grouped(ends: Seq<usize>, index: int) -> bool {
    exists|group: int| #[trigger] in_group(ends, group, index)
}

proof fn ends_ascend(vars: Seq<RoutingConnection>, ends: Seq<usize>, low: int, high: int)
    requires
        are_group_ends(vars, ends),
        0 <= low < high < ends.len(),
    ensures
        ends[low] < ends[high],
        ends[low] <= group_start(ends, high),
    decreases high - low,
{
    assert(end_fits(vars.len(), ends, high));
    if low < high - 1 {
        ends_ascend(vars, ends, low, high - 1);
    }
}

proof fn group_shares(vars: Seq<RoutingConnection>, ends: Seq<usize>, group: int, low: int, high: int)
    requires
        are_group_ends(vars, ends),
        in_group(ends, group, low),
        in_group(ends, group, high),
        low <= high,
    ensures
        same_source(vars[low], vars[high]),
    decreases high - low,
{
    if low < high {
        group_shares(vars, ends, group, low, high - 1);
        assert(end_fits(vars.len(), ends, group));
        if ends.contains(high as usize) {
            let k = choose|k: int| 0 <= k < ends.len() && ends[k] == high as usize;
            if k < group {
                ends_ascend(vars, ends, k, group);
            } else if k > group {
                ends_ascend(vars, ends, group, k);
            }
        }
        assert(same_source(vars[high - 1], vars[high]));
    }
}

proof fn group_of(vars: Seq<RoutingConnection>, ends: Seq<usize>, index: int, count: int) -> (group: int)
    requires
        are_group_ends(vars, ends),
        0 < count <= ends.len(),
        0 <= index < ends[count - 1],
    ensures
        in_group(ends, group, index),
        group < count,
    decreases count,
{
    if index >= group_start(ends, count - 1) {
        count - 1
    } else {
        group_of(vars, ends, index, count - 1)
    }
}

/// Each connection is in one group. Those of a group have one source, and where one
/// group ends and the next begins it is another.
pub proof fn groups_have_one_source(vars: Seq<RoutingConnection>, ends: Seq<usize>)
    requires
        are_group_ends(vars, ends),
        vars.len() <= usize::MAX,
    ensures
        forall|index: int| 0 <= index < vars.len() ==> #[trigger] is_grouped(ends, index),
        forall|left: int, right: int, index: int| #[trigger]
            in_group(ends, left, index) && #[trigger] in_group(ends, right, index) ==> left == right,
        forall|group: int, left: int, right: int| #[trigger]
            in_group(ends, group, left) && #[trigger] in_group(ends, group, right) ==> vars[left].source.0@
                == vars[right].source.0@ && vars[left].source.1@ == vars[right].source.1@,
        forall|group: int|
            0 <= group < ends.len() - 1 ==> {
                let next = #[trigger] ends[group] as int;
                0 < next < vars.len() && !(vars[next - 1].source.0@ == vars[next].source.0@ && vars[next - 1].source.1@
                    == vars[next].source.1@)
            },
{
    assert forall|index: int| 0 <= index < vars.len() implies #[trigger] is_grouped(ends, index) by {
        let group = group_of(vars, ends, index, ends.len() as int);
        assert(in_group(ends, group, index));
    }
    assert forall|left: int, right: int, index: int| #[trigger]
        in_group(ends, left, index) && #[trigger] in_group(ends, right, index) implies left == right by {
        if left < right {
            ends_ascend(vars, ends, left, right);
        } else if right < left {
            ends_ascend(vars, ends, right, left);
        }
    }
    assert forall|group: int, left: int, right: int| #[trigger]
        in_group(ends, group, left) && #[trigger] in_group(ends, group, right) implies vars[left].source.0@
        == vars[right].source.0@ && vars[left].source.1@ == vars[right].source.1@ by {
        if left <= right {
            group_shares(vars, ends, group, left, right);
        } else {
            group_shares(vars, ends, group, right, left);
        }
    }
    assert forall|group: int| 0 <= group < ends.len() - 1 implies {
        let next = #[trigger] ends[group] as int;
        0 < next < vars.len() && !(vars[next - 1].source.0@ == vars[next].source.0@ && vars[next - 1].source.1@
            == vars[next].source.1@)
    } by {
        let next = ends[group] as int;
        assert(end_fits(vars.len(), ends, group));
        assert(end_fits(vars.len(), ends, group + 1));
        ends_ascend(vars, ends, group, ends.len() - 1);
        assert(ends.contains(next as usize));
        assert(!same_source(vars[next - 1], vars[next]));
    }
}

// ---------------------------------------------------------------------------
// Switches
// ---------------------------------------------------------------------------
proof fn corners_hold(cells: Seq<Position>, count: nat)
    requires
        0 < count <= cells.len(),
    ensures
        ({
            let low = lowest(cells, count);
            let high = highest(cells, count);
            &&& forall|i: int|
                0 <= i < count ==> {
                    let cell = #[trigger] cells[i];
                    &&& low.0 <= cell.0 <= high.0
                    &&& low.1 <= cell.1 <= high.1
                    &&& low.2 <= cell.2 <= high.2
                }
            &&& exists|i: int| 0 <= i < count && low.0 == (#[trigger] cells[i]).0
            &&& exists|i: int| 0 <= i < count && low.1 == (#[trigger] cells[i]).1
            &&& exists|i: int| 0 <= i < count && low.2 == (#[trigger] cells[i]).2
            &&& exists|i: int| 0 <= i < count && high.0 == (#[trigger] cells[i]).0
            &&& exists|i: int| 0 <= i < count && high.1 == (#[trigger] cells[i]).1
            &&& exists|i: int| 0 <= i < count && high.2 == (#[trigger] cells[i]).2
        }),
    decreases count,
{
    let last = cells[count - 1];
    if count > 1 {
        let fewer = (count - 1) as nat;
        corners_hold(cells, fewer);
        let low = lowest(cells, fewer);
        let high = highest(cells, fewer);
        let a = choose|i: int| 0 <= i < fewer && low.0 == (#[trigger] cells[i]).0;
        let b = choose|i: int| 0 <= i < fewer && low.1 == (#[trigger] cells[i]).1;
        let c = choose|i: int| 0 <= i < fewer && low.2 == (#[trigger] cells[i]).2;
        let d = choose|i: int| 0 <= i < fewer && high.0 == (#[trigger] cells[i]).0;
        let e = choose|i: int| 0 <= i < fewer && high.1 == (#[trigger] cells[i]).1;
        let f = choose|i: int| 0 <= i < fewer && high.2 == (#[trigger] cells[i]).2;
        assert(cells[a] == cells[a] && cells[b] == cells[b] && cells[c] == cells[c]);
        assert(cells[d] == cells[d] && cells[e] == cells[e] && cells[f] == cells[f]);
    }
}

/// The corners of some cells are those of the smallest box around them, and the
/// middle is as far from one corner as from the other, but for one step.
pub proof fn middle_lies_between_the_corners(cells: Seq<Position>)
    requires
        cells.len() > 0,
    ensures
        ({
            let low = lowest(cells, cells.len());
            let high = highest(cells, cells.len());
            let between = middle(cells);
            &&& forall|i: int|
                0 <= i < cells.len() ==> {
                    let cell = #[trigger] cells[i];
                    &&& low.0 <= cell.0 <= high.0
                    &&& low.1 <= cell.1 <= high.1
                    &&& low.2 <= cell.2 <= high.2
                }
            &&& exists|i: int| 0 <= i < cells.len() && low.0 == (#[trigger] cells[i]).0
            &&& exists|i: int| 0 <= i < cells.len() && low.1 == (#[trigger] cells[i]).1
            &&& exists|i: int| 0 <= i < cells.len() && low.2 == (#[trigger] cells[i]).2
            &&& exists|i: int| 0 <= i < cells.len() && high.0 == (#[trigger] cells[i]).0
            &&& exists|i: int| 0 <= i < cells.len() && high.1 == (#[trigger] cells[i]).1
            &&& exists|i: int| 0 <= i < cells.len() && high.2 == (#[trigger] cells[i]).2
            &&& 0 <= (high.0 - between.0) - (between.0 - low.0) <= 1
            &&& 0 <= (high.1 - between.1) - (between.1 - low.1) <= 1
            &&& 0 <= (high.2 - between.2) - (between.2 - low.2) <= 1
        }),
{
    corners_hold(cells, cells.len());
}

/// The largest distance from sinks is that from one of them, and none is further.
pub proof fn largest_distance_is_attained(cell: Position, sinks: Seq<ResolvedPortTarget>, count: nat)
    requires
        count <= sinks.len(),
    ensures
        forall|i: int|
            0 <= i < count ==> capped(distance(cell, (#[trigger] sinks[i]).position)) <= largest_distance(
                cell,
                sinks,
                count,
            ),
        count > 0 ==> exists|i: int|
            0 <= i < count && capped(distance(cell, (#[trigger] sinks[i]).position)) == largest_distance(
                cell,
                sinks,
                count,
            ),
    decreases count,
{
    if count > 0 {
        largest_distance_is_attained(cell, sinks, (count - 1) as nat);
        let rest = largest_distance(cell, sinks, (count - 1) as nat);
        let here = capped(distance(cell, sinks[count - 1].position));
        if here <= rest {
            if count > 1 {
                let i = choose|i: int|
                    0 <= i < count - 1 && capped(distance(cell, (#[trigger] sinks[i]).position)) == rest;
                assert(capped(distance(cell, sinks[i].position)) == largest_distance(cell, sinks, count));
            }
        }
        assert(sinks[count - 1] == sinks[count - 1]);
    }
}

} // verus!

//! What the layouts of a module are that are kept.

use super::candidate_check::TruthTable;
use super::candidate_check_laws::{are_cells_of, computes_after, matching_module_computes_its_table};
use super::candidate_generation::{is_fate, is_generated, kept, Fate, GenerationError, LayoutTask};
use super::candidate_layout::{CandidatePort, PlacedWorld};
use super::ir::{
    compactness, costs_of, in_frontier, is_cut_frontier, is_dominated_by, lists_frontier, LayoutCandidate,
    LayoutCandidateCost,
};
use crate::order::{distinct_covers, in_order, is_stable_order, stable_order_distinct, RankKey, SortKey};
use crate::world::grid::World3D;
use crate::world::position::Position;
use vstd::prelude::*;

verus! {

/// Whether a cost is no more than another in blocks, volume, footprint and height.
pub open spec fn is_no_more(left: LayoutCandidateCost, right: LayoutCandidateCost) -> bool {
    &&& left.block_count <= right.block_count
    &&& left.bbox_volume <= right.bbox_volume
    &&& left.bbox_footprint <= right.bbox_footprint
    &&& left.height <= right.height
}

/// Whether a cost is less than another in one of these, and no more in any.
pub open spec fn beats(left: LayoutCandidateCost, right: LayoutCandidateCost) -> bool {
    is_no_more(left, right) && (left.block_count < right.block_count || left.bbox_volume < right.bbox_volume
        || left.bbox_footprint < right.bbox_footprint || left.height < right.height)
}

spec fn weight(cost: LayoutCandidateCost) -> nat {
    (cost.block_count + cost.bbox_volume + cost.bbox_footprint + cost.height) as nat
}

proof fn some_best_is_no_more(costs: Seq<LayoutCandidateCost>, index: int) -> (best: int)
    requires
        0 <= index < costs.len(),
    ensures
        in_frontier(costs, costs.len() as int, best),
        is_no_more(costs[best], costs[index]),
    decreases weight(costs[index]), index,
{
    let count = costs.len() as int;
    if in_frontier(costs, count, index) {
        index
    } else if exists|other: int| 0 <= other < count && is_dominated_by(costs[index], #[trigger] costs[other]) {
        let other = choose|other: int| 0 <= other < count && is_dominated_by(costs[index], #[trigger] costs[other]);
        some_best_is_no_more(costs, other)
    } else {
        let earlier = choose|earlier: int|
            0 <= earlier < index && super::ir::same_metrics(#[trigger] costs[earlier], costs[index]);
        some_best_is_no_more(costs, earlier)
    }
}

/// Whether a layout is one of those that were drawn from.
pub open spec fn is_drawn(candidates: Seq<LayoutCandidate>, layout: LayoutCandidate, index: int) -> bool {
    0 <= index < candidates.len() && candidates[index] == layout
}

/// Whether a layout is one of those that were drawn from, whichever.
pub open spec fn is_one_of(candidates: Seq<LayoutCandidate>, layout: LayoutCandidate) -> bool {
    exists|index: int| #[trigger] is_drawn(candidates, layout, index)
}

/// Whether one of the layouts that are kept is no more in anything than another.
pub open spec fn is_matched_by(result: Seq<LayoutCandidate>, layout: LayoutCandidate) -> bool {
    exists|i: int| 0 <= i < result.len() && is_no_more((#[trigger] result[i]).cost, layout.cost)
}

/// Whether a layout is among those that are kept.
pub open spec fn is_returned(result: Seq<LayoutCandidate>, layout: LayoutCandidate) -> bool {
    exists|i: int| 0 <= i < result.len() && #[trigger] result[i] == layout
}

proof fn returned_place(
    candidates: Seq<LayoutCandidate>,
    limit: usize,
    result: Seq<LayoutCandidate>,
    frontier: Seq<usize>,
    i: int,
) -> (index: int)
    requires
        lists_frontier(costs_of(candidates), candidates.len() as int, frontier),
        is_cut_frontier(candidates, limit, result),
        0 <= i < result.len(),
    ensures
        is_drawn(candidates, result[i], index),
        in_frontier(costs_of(candidates), candidates.len() as int, index),
{
    let costs = costs_of(candidates);
    let kept = choose|kept: Seq<usize>| #[trigger]
        lists_frontier(costs, candidates.len() as int, kept) && if kept.len() <= limit {
            &&& result.len() == kept.len()
            &&& forall|i: int| 0 <= i < kept.len() ==> #[trigger] result[i] == candidates[kept[i] as int]
        } else {
            exists|keys: Seq<RankKey>, order: Seq<usize>|
                {
                    &&& #[trigger] is_stable_order(keys, order)
                    &&& keys.len() == kept.len()
                    &&& result.len() == limit
                    &&& forall|i: int|
                        0 <= i < limit ==> #[trigger] result[i] == candidates[kept[order[i] as int] as int]
                }
        };
    if kept.len() <= limit {
        assert(in_frontier(costs, candidates.len() as int, kept[i] as int));
        kept[i] as int
    } else {
        let (keys, order) = choose|keys: Seq<RankKey>, order: Seq<usize>|
            {
                &&& #[trigger] is_stable_order(keys, order)
                &&& keys.len() == kept.len()
                &&& forall|i: int| 0 <= i < limit ==> #[trigger] result[i] == candidates[kept[order[i] as int] as int]
            };
        assert(order[i] < keys.len());
        assert(in_frontier(costs, candidates.len() as int, kept[order[i] as int] as int));
        kept[order[i] as int] as int
    }
}

/// Of the layouts that are drawn from, those are kept that none beats, at most as
/// many as the limit. Where there are fewer, each layout has one among those kept that
/// is no more in anything. Where the limit cuts some off, none of these is more compact
/// than one that is kept.
pub proof fn frontier_keeps_the_best(candidates: Seq<LayoutCandidate>, limit: usize, result: Seq<LayoutCandidate>)
    requires
        is_cut_frontier(candidates, limit, result),
        candidates.len() <= usize::MAX,
    ensures
        result.len() <= limit,
        forall|i: int|
            0 <= i < result.len() ==> is_one_of(candidates, #[trigger] result[i]),
        forall|i: int, index: int|
            0 <= i < result.len() && 0 <= index < candidates.len() ==> !beats(
                (#[trigger] candidates[index]).cost,
                (#[trigger] result[i]).cost,
            ),
        result.len() < limit ==> forall|index: int|
            0 <= index < candidates.len() ==> is_matched_by(result, #[trigger] candidates[index]),
        forall|i: int, index: int|
            0 <= i < result.len() && 0 <= index < candidates.len() && !is_returned(result, #[trigger] candidates[index])
                && in_frontier(costs_of(candidates), candidates.len() as int, index) ==> (
            #[trigger] result[i]).cost.bbox_volume <= candidates[index].cost.bbox_volume,
{
    let costs = costs_of(candidates);
    let count = candidates.len() as int;
    let kept = choose|kept: Seq<usize>| #[trigger]
        lists_frontier(costs, candidates.len() as int, kept) && if kept.len() <= limit {
            &&& result.len() == kept.len()
            &&& forall|i: int| 0 <= i < kept.len() ==> #[trigger] result[i] == candidates[kept[i] as int]
        } else {
            exists|keys: Seq<RankKey>, order: Seq<usize>|
                {
                    &&& #[trigger] is_stable_order(keys, order)
                    &&& keys.len() == kept.len()
                    &&& forall|i: int|
                        0 <= i < kept.len() ==> #[trigger] keys[i] == compactness(costs[kept[i] as int])
                    &&& result.len() == limit
                    &&& forall|i: int|
                        0 <= i < limit ==> #[trigger] result[i] == candidates[kept[order[i] as int] as int]
                }
        };
    assert forall|i: int| 0 <= i < result.len() implies is_one_of(candidates, #[trigger] result[i]) by {
        let index = returned_place(candidates, limit, result, kept, i);
        assert(is_drawn(candidates, result[i], index));
    }
    assert forall|i: int, index: int| 0 <= i < result.len() && 0 <= index < candidates.len() implies !beats(
        (#[trigger] candidates[index]).cost,
        (#[trigger] result[i]).cost,
    ) by {
        let place = returned_place(candidates, limit, result, kept, i);
        assert(!is_dominated_by(costs[place], costs[index]));
    }
    if result.len() < limit {
        assert forall|index: int| 0 <= index < candidates.len() implies is_matched_by(
            result,
            #[trigger] candidates[index],
        ) by {
            let best = some_best_is_no_more(costs, index);
            assert(kept.contains(best as usize));
            let i = choose|i: int| 0 <= i < kept.len() && kept[i] == best as usize;
            assert(result[i] == candidates[kept[i] as int]);
            assert(is_no_more(result[i].cost, candidates[index].cost));
        }
    }
    assert forall|i: int, index: int|
        0 <= i < result.len() && 0 <= index < candidates.len() && !is_returned(result, #[trigger] candidates[index])
            && in_frontier(costs, count, index) implies (#[trigger] result[i]).cost.bbox_volume
        <= candidates[index].cost.bbox_volume by {
        assert(kept.contains(index as usize));
        let k = choose|k: int| 0 <= k < kept.len() && kept[k] == index as usize;
        if kept.len() <= limit {
            assert(result[k] == candidates[index]);
        } else {
            let (keys, order) = choose|keys: Seq<RankKey>, order: Seq<usize>|
                {
                    &&& #[trigger] is_stable_order(keys, order)
                    &&& keys.len() == kept.len()
                    &&& forall|i: int|
                        0 <= i < kept.len() ==> #[trigger] keys[i] == compactness(costs[kept[i] as int])
                    &&& forall|i: int|
                        0 <= i < limit ==> #[trigger] result[i] == candidates[kept[order[i] as int] as int]
                };
            stable_order_distinct(keys, order);
            assert(kept[k] < candidates.len());
            kept_is_short(costs, kept, count, kept.len());
            distinct_covers(order, k as usize);
            let place = choose|place: int| 0 <= place < order.len() && order[place] == k as usize;
            if place < limit {
                assert(result[place] == candidates[kept[order[place] as int] as int]);
                assert(is_returned(result, candidates[index]));
            } else {
                assert(in_order(keys, order[i], order[place]));
                assert(keys[order[i] as int] == compactness(costs[kept[order[i] as int] as int]));
                assert(keys[k] == compactness(costs[kept[k] as int]));
                assert(in_frontier(costs, count, kept[order[i] as int] as int));
                assert(result[i] == candidates[kept[order[i] as int] as int]);
            }
        }
    }
}

proof fn kept_is_short(costs: Seq<LayoutCandidateCost>, kept: Seq<usize>, count: int, taken: nat)
    requires
        lists_frontier(costs, count, kept),
        taken <= kept.len(),
    ensures
        taken > 0 ==> kept[taken - 1] + 1 >= taken,
        taken <= usize::MAX + 1,
    decreases taken,
{
    if taken > 0 {
        kept_is_short(costs, kept, count, (taken - 1) as nat);
        if taken > 1 {
            assert(kept[taken - 2] < kept[taken - 1]);
        }
    }
}

// ---------------------------------------------------------------------------
// Generation
// ---------------------------------------------------------------------------
proof fn kept_has_fate(fates: Seq<Fate>, k: int) -> (at: int)
    requires
        0 <= k < kept(fates).len(),
    ensures
        0 <= at < fates.len(),
        fates[at] == Fate::Kept(kept(fates)[k]),
    decreases fates.len(),
{
    let rest = kept(fates.drop_last());
    if k < rest.len() {
        let at = kept_has_fate(fates.drop_last(), k);
        assert(fates.drop_last()[at] == fates[at]);
        at
    } else {
        fates.len() - 1
    }
}

/// Whether a placed module is seen to compute a table for all values of its inputs.
pub open spec fn computes_table<
    O: Fn(&World3D, &Vec<Vec<(Position, bool)>>, &Vec<Position>, bool) -> Result<Vec<bool>, String>,
>(observe: &O, table: TruthTable, placed: PlacedWorld, inputs: Seq<Position>, outputs: Seq<Position>) -> bool {
    &&& are_cells_of(placed.inputs@, super::candidate_check::input_names(table), inputs)
    &&& are_cells_of(placed.outputs@, super::candidate_check::output_names(table), outputs)
    &&& forall|values: Seq<bool>|
        values.len() == table.input_names@.len() ==> computes_after(
            table,
            placed.world,
            observe,
            inputs,
            outputs,
            #[trigger] seq![values],
        )
}

/// Whether there is a port for each that is wanted.
pub open spec fn has_all_ports(layout: LayoutCandidate, wanted: Seq<CandidatePort>) -> bool {
    forall|i: int| 0 <= i < wanted.len() ==> #[trigger] has_port_named(layout, wanted[i].name@)
}

/// Whether a layout has a port of a name.
pub open spec fn has_port_named(layout: LayoutCandidate, name: Seq<char>) -> bool {
    exists|k: int| 0 <= k < layout.ports@.len() && (#[trigger] layout.ports@[k]).name@ == name
}

/// Each layout that is made of a module with a table comes of a placed module that
/// computes the table for all values of its inputs; and each layout has every port
/// that is wanted, and the name of the module.
pub proof fn layouts_compute_their_table<
    F: Fn(&World3D, Position, Position) -> bool,
    O: Fn(&World3D, &Vec<Vec<(Position, bool)>>, &Vec<Position>, bool) -> Result<Vec<bool>, String>,
>(
    rule: &F,
    observe: &O,
    task: LayoutTask,
    placed: Seq<PlacedWorld>,
    max_candidates: usize,
    fates: Seq<Fate>,
    layouts: Vec<LayoutCandidate>,
    i: int,
) -> (at: int)
    requires
        is_generated(
            rule,
            observe,
            task,
            placed,
            max_candidates,
            fates,
            Ok::<Vec<LayoutCandidate>, GenerationError>(layouts),
        ),
        kept(fates).len() <= usize::MAX,
        0 <= i < layouts@.len(),
    ensures
        0 <= at < placed.len(),
        layouts@[i].module_name@ == task.name,
        has_all_ports(layouts@[i], task.ports),
        task.table matches Some(table) ==> exists|inputs: Seq<Position>, outputs: Seq<Position>| #[trigger]
            computes_table(observe, table, placed[at], inputs, outputs),
{
    let pool = kept(fates);
    frontier_keeps_the_best(pool, max_candidates, layouts@);
    assert(is_one_of(pool, layouts@[i]));
    let k = choose|k: int| is_drawn(pool, layouts@[i], k);
    let at = kept_has_fate(fates, k);
    assert(is_fate(rule, observe, task, placed[at], fates[at]));
    assert forall|p: int| 0 <= p < task.ports.len() implies #[trigger] has_port_named(layouts@[i], task.ports[p].name@) by {
        assert(super::candidate_generation::has_port(layouts@[i].ports@, task.ports[p].name@));
    }
    if let Some(table) = task.table {
        let cells = matching_module_computes_its_table(&table, placed[at], observe);
        assert(computes_table(observe, table, placed[at], cells.0, cells.1));
    }
    at
}

} // verus!

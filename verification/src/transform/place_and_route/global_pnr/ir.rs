//! Layout candidates and their costs.

use crate::order::{is_stable_order, reorder, stable_order, RankKey};
use crate::world::grid::{bounding_box, box_extent, is_bounding_box, BoundingBox, Placed, World3D};
use crate::world::position::Position;
use crate::number::{capped, capped_sum};
use vstd::prelude::*;

verus! {

/// The direction of a physical port, seen from outside.
#[derive(Clone, Copy, Debug, PartialEq, Eq, Structural)]
pub enum PhysicalPortDirection {
    Input,
    Output,
}

/// How a port is connected to a route.
#[derive(Clone, Copy, Debug, PartialEq, Eq, Structural)]
pub enum PortConnection {
    Direct,
    InputDiode,
    OutputDiode,
}

/// A port of a layout.
#[derive(Clone, Debug)]
pub struct PhysicalPort {
    pub name: String,
    pub direction: PhysicalPortDirection,
    pub position: Position,
    pub route_position: Option<Position>,
    pub access_points: Vec<Position>,
    pub connection: PortConnection,
}

/// The cells at which a route may reach a port: its access points, or else one
/// cell of its own.
pub open spec fn access_cells(port: PhysicalPort) -> Seq<Position> {
    if port.access_points@.len() > 0 {
        port.access_points@
    } else {
        match port.route_position {
            Some(position) => seq![position],
            None => seq![port.position],
        }
    }
}

impl PhysicalPort {
    pub fn routing_access_positions(&self) -> (cells: Vec<Position>)
        ensures
            cells@ == access_cells(*self),
            cells.len() > 0,
    {
        if self.access_points.len() == 0 {
            let cell = match self.route_position {
                Some(position) => position,
                None => self.position,
            };
            let cells = vec![cell];
            assert(cells@ =~= access_cells(*self));
            return cells;
        }
        let cells = self.access_points.clone();
        assert(cells@ =~= self.access_points@);
        cells
    }

    /// The first cell at which a route may reach the port.
    pub fn primary_route_position(&self) -> (cell: Position)
        ensures
            cell == access_cells(*self)[0],
    {
        let cells = self.routing_access_positions();
        cells[0]
    }

    pub fn requires_input_diode(&self) -> (required: bool)
        ensures
            required == (self.connection == PortConnection::InputDiode),
    {
        self.connection == PortConnection::InputDiode
    }

    pub fn requires_output_diode(&self) -> (required: bool)
        ensures
            required == (self.connection == PortConnection::OutputDiode),
    {
        self.connection == PortConnection::OutputDiode
    }
}

/// Physical metrics of one layout candidate.
#[derive(Clone, Copy, Debug, PartialEq, Eq, Structural)]
pub struct LayoutCandidateCost {
    pub block_count: usize,
    pub bbox_volume: usize,
    pub bbox_footprint: usize,
    pub height: usize,
    pub port_count: usize,
    pub access_point_count: usize,
    pub blocked_cell_count: usize,
}

impl Default for LayoutCandidateCost {
    fn default() -> (cost: Self)
        ensures
            cost == (LayoutCandidateCost {
                block_count: 0,
                bbox_volume: 0,
                bbox_footprint: 0,
                height: 0,
                port_count: 0,
                access_point_count: 0,
                blocked_cell_count: 0,
            }),
    {
        LayoutCandidateCost {
            block_count: 0,
            bbox_volume: 0,
            bbox_footprint: 0,
            height: 0,
            port_count: 0,
            access_point_count: 0,
            blocked_cell_count: 0,
        }
    }
}

/// The objectives of which less is better.
pub open spec fn metrics(cost: LayoutCandidateCost) -> Seq<usize> {
    seq![cost.block_count, cost.bbox_volume, cost.bbox_footprint, cost.height]
}

/// Whether every objective of `left` is at most that of `right`.
pub open spec fn no_worse(left: LayoutCandidateCost, right: LayoutCandidateCost) -> bool {
    &&& left.block_count <= right.block_count
    &&& left.bbox_volume <= right.bbox_volume
    &&& left.bbox_footprint <= right.bbox_footprint
    &&& left.height <= right.height
}

/// Whether two costs have the same objectives.
pub open spec fn same_metrics(left: LayoutCandidateCost, right: LayoutCandidateCost) -> bool {
    no_worse(left, right) && no_worse(right, left)
}

/// Whether `left` is no worse in every objective and better in one.
pub open spec fn is_dominated_by(right: LayoutCandidateCost, left: LayoutCandidateCost) -> bool {
    no_worse(left, right) && !no_worse(right, left)
}

/// Dominance is a strict order: nothing dominates itself, of two costs at most
/// one dominates the other, and dominance is transitive.
pub proof fn dominance_is_strict_order(
    first: LayoutCandidateCost,
    second: LayoutCandidateCost,
    third: LayoutCandidateCost,
)
    ensures
        !is_dominated_by(first, first),
        !(is_dominated_by(first, second) && is_dominated_by(second, first)),
        is_dominated_by(third, second) && is_dominated_by(second, first) ==> is_dominated_by(third, first),
{
}

impl LayoutCandidateCost {
    /// The objectives of which less is better.
    pub fn minimization_metrics(&self) -> (list: [usize; 4])
        ensures
            list@ == metrics(*self),
    {
        let list = [self.block_count, self.bbox_volume, self.bbox_footprint, self.height];
        assert(list@ =~= metrics(*self));
        list
    }
}

/// Whether `left` is no worse than `right` in every objective and better in one.
pub fn dominates(left: &LayoutCandidateCost, right: &LayoutCandidateCost) -> (better: bool)
    ensures
        better == is_dominated_by(*right, *left),
{
    let left_metrics = left.minimization_metrics();
    let right_metrics = right.minimization_metrics();
    let mut strictly_better = false;
    let mut index: usize = 0;
    assert(metrics(*left).len() == 4 && metrics(*right).len() == 4);
    while index < 4
        invariant
            index <= 4,
            left_metrics@ == metrics(*left),
            right_metrics@ == metrics(*right),
            forall|i: int| 0 <= i < index ==> metrics(*left)[i] <= metrics(*right)[i],
            strictly_better <==> exists|i: int| 0 <= i < index && #[trigger] metrics(*left)[i] < metrics(*right)[i],
        decreases 4 - index,
    {
        let ghost was_better = strictly_better;
        if left_metrics[index] > right_metrics[index] {
            proof {
                assert(metrics(*left)[index as int] > metrics(*right)[index as int]);
                metrics_tell(*left, *right);
            }
            return false;
        }
        if left_metrics[index] < right_metrics[index] {
            strictly_better = true;
            assert(metrics(*left)[index as int] < metrics(*right)[index as int]);
        }
        proof {
            if was_better {
                let i = choose|i: int| 0 <= i < index && #[trigger] metrics(*left)[i] < metrics(*right)[i];
                assert(metrics(*left)[i] < metrics(*right)[i]);
            }
        }
        index += 1;
    }
    proof {
        metrics_tell(*left, *right);
        metrics_tell(*right, *left);
    }
    strictly_better
}

/// The objectives one by one.
proof fn metrics_tell(left: LayoutCandidateCost, right: LayoutCandidateCost)
    ensures
        no_worse(left, right) <==> forall|i: int| 0 <= i < 4 ==> #[trigger] metrics(left)[i] <= metrics(right)[i],
{
    if forall|i: int| 0 <= i < 4 ==> #[trigger] metrics(left)[i] <= metrics(right)[i] {
        assert(metrics(left)[0] <= metrics(right)[0]);
        assert(metrics(left)[1] <= metrics(right)[1]);
        assert(metrics(left)[2] <= metrics(right)[2]);
        assert(metrics(left)[3] <= metrics(right)[3]);
    }
}

/// A layout that implements a module.
#[derive(Clone, Debug)]
pub struct LayoutCandidate {
    pub module_name: String,
    pub world: World3D,
    pub bbox: BoundingBox,
    pub ports: Vec<PhysicalPort>,
    /// The cells with a block, in order.
    pub occupied_cells: Vec<Position>,
    /// The cells that routing must leave free, in order.
    pub blocked_cells: Vec<Position>,
    pub cost: LayoutCandidateCost,
    /// How many cells around the layout stay free.
    pub halo: usize,
}

/// The costs of some candidates.
pub open spec fn costs_of(candidates: Seq<LayoutCandidate>) -> Seq<LayoutCandidateCost> {
    candidates.map_values(|candidate: LayoutCandidate| candidate.cost)
}

/// Whether candidate `index` belongs to the frontier of the first `count`: none
/// of them dominates it, and none before it has the same objectives.
pub open spec fn in_frontier(costs: Seq<LayoutCandidateCost>, count: int, index: int) -> bool {
    &&& 0 <= index < count
    &&& forall|other: int| 0 <= other < count ==> !is_dominated_by(costs[index], #[trigger] costs[other])
    &&& forall|earlier: int| 0 <= earlier < index ==> !same_metrics(#[trigger] costs[earlier], costs[index])
}

/// `kept` lists the frontier of the first `count` candidates in order.
pub open spec fn lists_frontier(costs: Seq<LayoutCandidateCost>, count: int, kept: Seq<usize>) -> bool {
    &&& forall|i: int, j: int| 0 <= i < j < kept.len() ==> #[trigger] kept[i] < #[trigger] kept[j]
    &&& forall|i: int| 0 <= i < kept.len() ==> in_frontier(costs, count, #[trigger] kept[i] as int)
    &&& forall|index: usize| in_frontier(costs, count, index as int) ==> #[trigger] kept.contains(index)
}

/// Whether each of the first `count` candidates is matched by a kept one that is
/// no worse.
spec fn covers(costs: Seq<LayoutCandidateCost>, count: int, kept: Seq<usize>) -> bool {
    forall|index: int|
        0 <= index < count ==> exists|i: int|
            0 <= i < kept.len() && no_worse(costs[#[trigger] kept[i] as int], #[trigger] costs[index])
}

/// The keys by which a frontier is cut: compact candidates first.
pub open spec fn compactness(cost: LayoutCandidateCost) -> RankKey {
    RankKey(cost.bbox_volume, cost.block_count, cost.height, 0, 0)
}

/// The result of cutting a frontier: all of it in order, or the most compact.
pub open spec fn is_cut_frontier(
    candidates: Seq<LayoutCandidate>,
    limit: usize,
    result: Seq<LayoutCandidate>,
) -> bool {
    let costs = costs_of(candidates);
    exists|kept: Seq<usize>| #[trigger]
        lists_frontier(costs, candidates.len() as int, kept) && if kept.len() <= limit {
            &&& result.len() == kept.len()
            &&& forall|i: int| 0 <= i < kept.len() ==> #[trigger] result[i] == candidates[kept[i] as int]
        } else {
            exists|keys: Seq<RankKey>, order: Seq<usize>|
                {
                    &&& #[trigger] is_stable_order(keys, order)
                    &&& keys.len() == kept.len()
                    &&& forall|i: int|
                        0 <= i < kept.len() ==> #[trigger] keys[i] == compactness(costs[kept[i] as int])
                    &&& result.len() == limit
                    &&& forall|i: int|
                        0 <= i < limit ==> #[trigger] result[i] == candidates[kept[order[i] as int] as int]
                }
        }
}

/// Keeps a bounded Pareto frontier. No returned candidate is dominated by
/// another, and of candidates with the same objectives the first is kept. A
/// frontier above the limit is cut to its most compact candidates.
pub fn pareto_frontier(candidates: Vec<LayoutCandidate>, limit: usize) -> (frontier: Vec<LayoutCandidate>)
    ensures
        is_cut_frontier(candidates@, limit, frontier@),
{
    let ghost costs = costs_of(candidates@);
    let mut kept: Vec<usize> = Vec::new();
    let mut next: usize = 0;
    while next < candidates.len()
        invariant
            costs == costs_of(candidates@),
            next <= candidates.len(),
            lists_frontier(costs, next as int, kept@),
            covers(costs, next as int, kept@),
        decreases candidates.len() - next,
    {
        let cost = candidates[next].cost;
        assert(costs[next as int] == cost);
        let ghost before = kept@;
        let mut beaten = false;
        let mut index: usize = 0;
        while index < kept.len() && !beaten
            invariant
                costs == costs_of(candidates@),
                next < candidates.len(),
                cost == costs[next as int],
                kept@ == before,
                lists_frontier(costs, next as int, before),
                index <= kept.len(),
                beaten ==> exists|i: int| 0 <= i < before.len() && no_worse(costs[#[trigger] before[i] as int], cost),
                !beaten ==> forall|i: int|
                    0 <= i < index ==> !no_worse(costs[#[trigger] before[i] as int], cost),
            decreases kept.len() - index, if beaten { 0int } else { 1int },
        {
            assert(in_frontier(costs, next as int, before[index as int] as int));
            let existing = candidates[kept[index]].cost;
            assert(costs[before[index as int] as int] == existing);
            if dominates(&existing, &cost) || same_objectives(&existing, &cost) {
                assert(no_worse(costs[before[index as int] as int], cost));
                beaten = true;
            } else {
                index += 1;
            }
        }
        if beaten {
            proof {
                frontier_skips(costs, next as int, before);
            }
        } else {
            let mut rest: Vec<usize> = Vec::new();
            let mut index: usize = 0;
            while index < kept.len()
                invariant
                    costs == costs_of(candidates@),
                    next < candidates.len(),
                    cost == costs[next as int],
                    kept@ == before,
                    lists_frontier(costs, next as int, before),
                    index <= kept.len(),
                    forall|i: int, j: int| 0 <= i < j < rest.len() ==> #[trigger] rest[i] < #[trigger] rest[j],
                    forall|i: int|
                        0 <= i < rest.len() ==> before.contains(#[trigger] rest[i]) && !is_dominated_by(
                            costs[rest[i] as int],
                            cost,
                        ),
                    forall|i: int| 0 <= i < rest.len() && index < before.len() ==> (#[trigger] rest[i]) < before[index as int],
                    forall|i: int|
                        0 <= i < index && !is_dominated_by(costs[before[i] as int], cost) ==> rest@.contains(
                            #[trigger] before[i],
                        ),
                decreases kept.len() - index,
            {
                assert(in_frontier(costs, next as int, before[index as int] as int));
                let existing = candidates[kept[index]].cost;
                assert(costs[before[index as int] as int] == existing);
                let ghost rest_before = rest@;
                if !dominates(&cost, &existing) {
                    rest.push(kept[index]);
                    assert(rest@.last() == before[index as int]);
                }
                proof {
                    assert forall|i: int|
                        0 <= i < index + 1 && !is_dominated_by(costs[before[i] as int], cost) implies rest@.contains(
                        #[trigger] before[i],
                    ) by {
                        if i < index {
                            let k = choose|k: int| 0 <= k < rest_before.len() && rest_before[k] == before[i];
                            assert(rest@[k] == before[i]);
                        }
                    }
                }
                index += 1;
            }
            let ghost thinned = rest@;
            rest.push(next);
            kept = rest;
            proof {
                frontier_grows(costs, next as int, before, thinned);
            }
        }
        next += 1;
    }
    if kept.len() <= limit {
        let frontier = reorder(candidates, &kept);
        return frontier;
    }
    let mut keys: Vec<RankKey> = Vec::new();
    let mut index: usize = 0;
    while index < kept.len()
        invariant
            costs == costs_of(candidates@),
            lists_frontier(costs, candidates@.len() as int, kept@),
            index <= kept.len(),
            keys.len() == index,
            forall|i: int| 0 <= i < index ==> #[trigger] keys[i] == compactness(costs[kept[i] as int]),
        decreases kept.len() - index,
    {
        assert(in_frontier(costs, candidates@.len() as int, kept@[index as int] as int));
        let cost = candidates[kept[index]].cost;
        keys.push(RankKey(cost.bbox_volume, cost.block_count, cost.height, 0, 0));
        index += 1;
    }
    let order = stable_order(&keys);
    let mut chosen: Vec<usize> = Vec::new();
    let mut index: usize = 0;
    while index < limit
        invariant
            limit < kept.len(),
            order.len() == kept.len(),
            is_stable_order(keys@, order@),
            keys.len() == kept.len(),
            index <= limit,
            chosen.len() == index,
            forall|i: int| 0 <= i < index ==> #[trigger] chosen[i] == kept[order[i] as int],
        decreases limit - index,
    {
        assert(order[index as int] < kept.len());
        chosen.push(kept[order[index]]);
        index += 1;
    }
    proof {
        crate::order::stable_order_distinct(keys@, order@);
        assert forall|i: int| 0 <= i < chosen.len() implies (#[trigger] chosen[i]) < candidates.len() by {
            assert(order@[i] < kept.len());
            assert(in_frontier(costs, candidates@.len() as int, kept@[order@[i] as int] as int));
        }
        assert forall|i: int, j: int| 0 <= i < j < chosen.len() implies chosen[i] != chosen[j] by {
            let (a, b) = (order@[i] as int, order@[j] as int);
            assert(a != b);
            assert(a < b ==> kept@[a] < kept@[b]);
            assert(b < a ==> kept@[b] < kept@[a]);
        }
    }
    let frontier = reorder(candidates, &chosen);
    frontier
}

/// Whether two costs have the same objectives.
fn same_objectives(left: &LayoutCandidateCost, right: &LayoutCandidateCost) -> (same: bool)
    ensures
        same == same_metrics(*left, *right),
{
    left.block_count == right.block_count && left.bbox_volume == right.bbox_volume && left.bbox_footprint
        == right.bbox_footprint && left.height == right.height
}

/// A candidate that a kept one matches changes nothing.
proof fn frontier_skips(costs: Seq<LayoutCandidateCost>, next: int, kept: Seq<usize>)
    requires
        0 <= next < costs.len(),
        lists_frontier(costs, next, kept),
        covers(costs, next, kept),
        exists|i: int| 0 <= i < kept.len() && no_worse(costs[#[trigger] kept[i] as int], costs[next]),
    ensures
        lists_frontier(costs, next + 1, kept),
        covers(costs, next + 1, kept),
{
    let best = choose|i: int| 0 <= i < kept.len() && no_worse(costs[#[trigger] kept[i] as int], costs[next]);
    let winner = kept[best] as int;
    assert(in_frontier(costs, next, winner));
    assert forall|i: int| 0 <= i < kept.len() implies in_frontier(costs, next + 1, #[trigger] kept[i] as int) by {
        let index = kept[i] as int;
        assert(in_frontier(costs, next, index));
        assert forall|other: int| 0 <= other < next + 1 implies !is_dominated_by(costs[index], #[trigger] costs[other]) by {
            if other == next {
                assert(!is_dominated_by(costs[index], costs[winner]));
            }
        }
    }
    assert forall|index: usize| in_frontier(costs, next + 1, index as int) implies #[trigger] kept.contains(index) by {
        if index == next {
            assert(!is_dominated_by(costs[next], costs[winner]));
            assert(!same_metrics(costs[winner], costs[next]));
        } else {
            assert(in_frontier(costs, next, index as int));
        }
    }
    assert forall|index: int| 0 <= index < next + 1 implies exists|i: int|
        0 <= i < kept.len() && no_worse(costs[#[trigger] kept[i] as int], #[trigger] costs[index]) by {
        if index == next {
            assert(no_worse(costs[kept[best] as int], costs[index]));
        }
    }
}

/// A candidate that no kept one matches joins them, and those that it dominates
/// leave.
proof fn frontier_grows(costs: Seq<LayoutCandidateCost>, next: int, kept: Seq<usize>, rest: Seq<usize>)
    requires
        0 <= next < costs.len(),
        next <= usize::MAX,
        lists_frontier(costs, next, kept),
        covers(costs, next, kept),
        forall|i: int| 0 <= i < kept.len() ==> !no_worse(costs[#[trigger] kept[i] as int], costs[next]),
        forall|i: int, j: int| 0 <= i < j < rest.len() ==> #[trigger] rest[i] < #[trigger] rest[j],
        forall|i: int|
            0 <= i < rest.len() ==> kept.contains(#[trigger] rest[i]) && !is_dominated_by(
                costs[rest[i] as int],
                costs[next],
            ),
        forall|i: int|
            0 <= i < kept.len() && !is_dominated_by(costs[kept[i] as int], costs[next]) ==> rest.contains(
                #[trigger] kept[i],
            ),
    ensures
        lists_frontier(costs, next + 1, rest.push(next as usize)),
        covers(costs, next + 1, rest.push(next as usize)),
{
    let grown = rest.push(next as usize);
    assert(grown[rest.len() as int] == next);
    // Nothing before the new candidate dominates or repeats it.
    assert forall|other: int| 0 <= other < next implies !no_worse(#[trigger] costs[other], costs[next]) by {
        let i = choose|i: int| 0 <= i < kept.len() && no_worse(costs[#[trigger] kept[i] as int], costs[other]);
        assert(!no_worse(costs[kept[i] as int], costs[next]));
    }
    assert forall|i: int, j: int| 0 <= i < j < grown.len() implies #[trigger] grown[i] < #[trigger] grown[j] by {
        if j == rest.len() {
            assert(kept.contains(rest[i]));
            let k = choose|k: int| 0 <= k < kept.len() && kept[k] == rest[i];
            assert(in_frontier(costs, next, kept[k] as int));
        } else {
            assert(rest[i] < rest[j]);
        }
    }
    assert forall|i: int| 0 <= i < grown.len() implies in_frontier(costs, next + 1, #[trigger] grown[i] as int) by {
        if i < rest.len() {
            let index = rest[i] as int;
            assert(kept.contains(rest[i]));
            let k = choose|k: int| 0 <= k < kept.len() && kept[k] == rest[i];
            assert(in_frontier(costs, next, kept[k] as int));
        } else {
            assert forall|other: int| 0 <= other < next + 1 implies !is_dominated_by(
                costs[next],
                #[trigger] costs[other],
            ) by {
                if other < next {
                    assert(!no_worse(costs[other], costs[next]));
                }
            }
            assert forall|earlier: int| 0 <= earlier < next implies !same_metrics(#[trigger] costs[earlier], costs[next]) by {
                assert(!no_worse(costs[earlier], costs[next]));
            }
        }
    }
    assert forall|index: usize| in_frontier(costs, next + 1, index as int) implies #[trigger] grown.contains(index) by {
        if index == next {
            assert(grown[rest.len() as int] == index);
        } else {
            assert(in_frontier(costs, next, index as int)) by {
                assert forall|other: int| 0 <= other < next implies !is_dominated_by(
                    costs[index as int],
                    #[trigger] costs[other],
                ) by {}
            }
            assert(kept.contains(index));
            let k = choose|k: int| 0 <= k < kept.len() && kept[k] == index;
            assert(!is_dominated_by(costs[index as int], costs[next]));
            assert(rest.contains(kept[k]));
            let r = choose|r: int| 0 <= r < rest.len() && rest[r] == index;
            assert(grown[r] == index);
        }
    }
    assert forall|index: int| 0 <= index < next + 1 implies exists|i: int|
        0 <= i < grown.len() && no_worse(costs[#[trigger] grown[i] as int], #[trigger] costs[index]) by {
        if index == next {
            assert(no_worse(costs[grown[rest.len() as int] as int], costs[index]));
        } else {
            let k = choose|k: int| 0 <= k < kept.len() && no_worse(costs[#[trigger] kept[k] as int], costs[index]);
            if is_dominated_by(costs[kept[k] as int], costs[next]) {
                assert(no_worse(costs[grown[rest.len() as int] as int], costs[index]));
            } else {
                assert(rest.contains(kept[k]));
                let r = choose|r: int| 0 <= r < rest.len() && rest[r] == kept[k];
                assert(grown[r] == kept[k]);
                assert(no_worse(costs[grown[r] as int], costs[index]));
            }
        }
    }
}

/// No candidate of a frontier dominates another, and no two have the same
/// objectives.
pub proof fn frontier_is_incomparable(costs: Seq<LayoutCandidateCost>, count: int, left: int, right: int)
    requires
        in_frontier(costs, count, left),
        in_frontier(costs, count, right),
        left != right,
    ensures
        !is_dominated_by(costs[left], costs[right]),
        !same_metrics(costs[left], costs[right]),
{
}

/// The number of access points of the first `count` ports.
pub open spec fn access_point_total(ports: Seq<PhysicalPort>, count: nat) -> nat
    decreases count,
{
    if count == 0 {
        0
    } else {
        access_point_total(ports, (count - 1) as nat) + ports[count - 1].access_points@.len()
    }
}

/// Whether a candidate has the box, cells and cost of its world and ports.
pub open spec fn describes(candidate: LayoutCandidate, module_name: Seq<char>) -> bool {
    let listed = candidate.world.listed();
    let ports = candidate.ports@;
    let extent = box_extent(candidate.bbox);
    &&& candidate.module_name@ == module_name
    &&& is_bounding_box(listed, candidate.bbox)
    &&& candidate.occupied_cells@ == listed.map_values(|placed: Placed| placed.0)
    &&& candidate.blocked_cells@ == Seq::<Position>::empty()
    &&& candidate.cost.block_count == listed.len()
    &&& candidate.cost.bbox_volume == extent.0 * extent.1 * extent.2
    &&& candidate.cost.bbox_footprint == extent.0 * extent.1
    &&& candidate.cost.height == extent.2
    &&& candidate.cost.port_count == ports.len()
    &&& candidate.cost.access_point_count == capped(access_point_total(ports, ports.len()))
    &&& candidate.cost.blocked_cell_count == 0
}

/// A candidate that could not be made: its world is empty.
#[derive(Clone, Copy, Debug, PartialEq, Eq, Structural)]
pub struct EmptyLayout;

impl LayoutCandidate {
    /// A candidate with the box, cells and cost of a world.
    pub fn from_world(module_name: String, world: World3D, ports: Vec<PhysicalPort>) -> (result: Result<Self, EmptyLayout>)
        requires
            world.wf(),
            world.size.0 * world.size.1 * world.size.2 <= usize::MAX,
        ensures
            match result {
                Ok(candidate) => {
                    &&& world.listed().len() > 0
                    &&& candidate.world == world
                    &&& candidate.ports@ == ports@
                    &&& describes(candidate, module_name@)
                    &&& candidate.halo == 0
                },
                Err(_) => world.listed().len() == 0,
            },
    {
        let bbox = match bounding_box(&world) {
            Some(bbox) => bbox,
            None => return Err(EmptyLayout),
        };
        let blocks = world.iter_block();
        let mut occupied_cells: Vec<Position> = Vec::new();
        let mut index: usize = 0;
        while index < blocks.len()
            invariant
                index <= blocks.len(),
                occupied_cells.len() == index,
                forall|i: int| 0 <= i < index ==> #[trigger] occupied_cells[i] == blocks[i].0,
            decreases blocks.len() - index,
        {
            occupied_cells.push(blocks[index].0);
            index += 1;
        }
        assert(occupied_cells@ =~= world.listed().map_values(|placed: Placed| placed.0));
        let mut access_point_count: usize = 0;
        let mut index: usize = 0;
        while index < ports.len()
            invariant
                index <= ports.len(),
                access_point_count == capped(access_point_total(ports@, index as nat)),
            decreases ports.len() - index,
        {
            access_point_count = access_point_count.saturating_add(ports[index].access_points.len());
            index += 1;
        }
        let width: usize = bbox.width();
        let depth: usize = bbox.depth();
        let height: usize = bbox.height();
        proof {
            let size = world.size;
            assert(width * depth <= size.0 * size.1) by (nonlinear_arith)
                requires
                    0 <= width <= size.0,
                    0 <= depth <= size.1,
            ;
            assert(width * depth * height <= size.0 * size.1 * size.2) by (nonlinear_arith)
                requires
                    0 <= width * depth <= size.0 * size.1,
                    0 <= height <= size.2,
            ;
            assert(width * depth <= width * depth * height) by (nonlinear_arith)
                requires
                    1 <= height,
                    0 <= width * depth,
            ;
        }
        let footprint: usize = width * depth;
        let volume: usize = footprint * height;
        let cost = LayoutCandidateCost {
            block_count: occupied_cells.len(),
            bbox_volume: volume,
            bbox_footprint: footprint,
            height,
            port_count: ports.len(),
            access_point_count,
            blocked_cell_count: 0,
        };
        let blocked_cells: Vec<Position> = Vec::new();
        assert(blocked_cells@ =~= Seq::<Position>::empty());
        Ok(LayoutCandidate { module_name, world, bbox, ports, occupied_cells, blocked_cells, cost, halo: 0 })
    }
}

/// The box of a layout with the cells around it that stay free.
pub open spec fn box_with_halo(candidate: LayoutCandidate) -> BoundingBox {
    let bbox = candidate.bbox;
    let halo = candidate.halo as int;
    BoundingBox {
        min: Position(
            before_by(bbox.min.0, halo),
            before_by(bbox.min.1, halo),
            before_by(bbox.min.2, halo),
        ),
        max: Position(
            capped((bbox.max.0 + halo) as nat) as usize,
            capped((bbox.max.1 + halo) as nat) as usize,
            capped((bbox.max.2 + halo) as nat) as usize,
        ),
    }
}

/// A coordinate some cells before another, or the first one.
pub open spec fn before_by(coordinate: usize, cells: int) -> usize {
    if coordinate < cells {
        0
    } else {
        (coordinate - cells) as usize
    }
}

impl LayoutCandidate {
    /// The box of the layout with the cells around it that stay free.
    pub fn placement_bbox(&self) -> (bbox: BoundingBox)
        ensures
            bbox == box_with_halo(*self),
    {
        let own = self.bbox;
        BoundingBox {
            min: Position(
                own.min.0.saturating_sub(self.halo),
                own.min.1.saturating_sub(self.halo),
                own.min.2.saturating_sub(self.halo),
            ),
            max: Position(
                capped_sum(own.max.0, self.halo),
                capped_sum(own.max.1, self.halo),
                capped_sum(own.max.2, self.halo),
            ),
        }
    }
}

} // verus!

//! What electrical checks tell, in terms of cells, terminals and the dust between
//! them.

use super::electrical::{
    all_components, components, grown, is_dust, is_dust_path, links_from, links_of, passes, passes_along, reaches,
    CellLinks, ElectricalFacts, Labels,
};
use super::electrical_drc::{
    all_violations, anchor_among, anchor_of, arriving, cell_in, drivers_at, drivers_from, extra_drivers, feeds,
    foreign_net, found_violations, in_key_order, may_drive, merge_violations, missing_branch, net_from, nets_of,
    pin_violations, powers, violation_key, ConnectivityConfidence, PinContract, PinRecord, PlacedAnalysis,
    ViolationReason, ViolationView,
};
use crate::order::{
    ascending, comes_before, distinct_covers, in_order, lists_set, stable_order_distinct, stable_order_exists,
    the_stable_order,
};
use crate::world::grid::{listed_block, lists_cell, World3D};
use crate::world::position::{in_bounds, is_next_to, position_before, Position};
use vstd::prelude::*;

verus! {

// ---------------------------------------------------------------------------
// Wires
// ---------------------------------------------------------------------------
/// Whether a list links a cell to another. The first entry of a cell counts.
pub open spec fn is_linked(list: Seq<CellLinks>, from: Position, to: Position) -> bool {
    exists|k: int|
        {
            &&& 0 <= k < list.len()
            &&& (#[trigger] list[k]).cell == from
            &&& list[k].targets@.contains(to)
            &&& forall|j: int| 0 <= j < k ==> (#[trigger] list[j]).cell != from
        }
}

/// Whether there is dust in a cell.
pub open spec fn holds_dust(world: World3D, cell: Position) -> bool {
    world.at(cell).kind is Redstone
}

/// Whether cells are a wire: dust of which each passes its power to the next.
pub open spec fn is_wire(world: World3D, facts: ElectricalFacts, wire: Seq<Position>) -> bool {
    &&& wire.len() > 0
    &&& forall|k: int| 0 <= k < wire.len() ==> holds_dust(world, #[trigger] wire[k])
    &&& forall|k: int| 0 < k < wire.len() ==> is_linked(facts.dust_targets@, wire[k - 1], #[trigger] wire[k])
}

/// Whether a wire leads from a cell to another.
pub open spec fn leads(world: World3D, facts: ElectricalFacts, from: Position, to: Position) -> bool {
    exists|wire: Seq<Position>| #[trigger] is_wire(world, facts, wire) && wire[0] == from && wire.last() == to
}

/// Whether dust passes its power back to the dust that it gets power from.
pub open spec fn is_mutual(world: World3D, facts: ElectricalFacts) -> bool {
    forall|from: Position, to: Position|
        holds_dust(world, from) && holds_dust(world, to) && #[trigger] is_linked(facts.dust_targets@, from, to)
            ==> is_linked(facts.dust_targets@, to, from)
}

/// Whether the dust of two cells is in one component.
pub open spec fn joined(world: World3D, facts: ElectricalFacts, left: Position, right: Position) -> bool {
    let labels = all_components(world, facts).0;
    exists|i: int, j: int|
        {
            &&& 0 <= i < world.listed().len()
            &&& 0 <= j < world.listed().len()
            &&& (#[trigger] world.listed()[i]).0 == left
            &&& (#[trigger] world.listed()[j]).0 == right
            &&& labels[i] is Some
            &&& labels[i] == labels[j]
        }
}

proof fn links_are_links(list: Seq<CellLinks>, from: Position, to: Position, start: nat)
    requires
        forall|j: int| 0 <= j < start ==> (#[trigger] list[j]).cell != from,
    ensures
        links_from(list, from, start).contains(to) <==> is_linked(list, from, to),
    decreases list.len() - start,
{
    if start < list.len() {
        if list[start as int].cell == from {
            if is_linked(list, from, to) {
                let k = choose|k: int|
                    {
                        &&& 0 <= k < list.len()
                        &&& (#[trigger] list[k]).cell == from
                        &&& list[k].targets@.contains(to)
                        &&& forall|j: int| 0 <= j < k ==> (#[trigger] list[j]).cell != from
                    };
                assert(k == start);
            }
        } else {
            links_are_links(list, from, to, start + 1);
        }
    } else if is_linked(list, from, to) {
        let k = choose|k: int|
            {
                &&& 0 <= k < list.len()
                &&& (#[trigger] list[k]).cell == from
                &&& list[k].targets@.contains(to)
                &&& forall|j: int| 0 <= j < k ==> (#[trigger] list[j]).cell != from
            };
        assert(list[k].cell != from);
    }
}

/// Dust is listed, at one place.
proof fn dust_is_listed(world: World3D, cell: Position) -> (index: int)
    requires
        world.wf(),
        holds_dust(world, cell),
    ensures
        0 <= index < world.listed().len(),
        world.listed()[index].0 == cell,
        is_dust(world, index),
        forall|other: int| 0 <= other < world.listed().len() && (#[trigger] world.listed()[other]).0 == cell ==> other == index,
{
    let blocks = world.listed();
    assert(lists_cell(blocks, cell));
    let index = choose|i: int| 0 <= i < blocks.len() && (#[trigger] blocks[i]).0 == cell;
    listed_block(blocks, index);
    assert forall|other: int| 0 <= other < blocks.len() && (#[trigger] blocks[other]).0 == cell implies other == index by {
        one_place(world, other, index);
    }
    index
}

proof fn one_place(world: World3D, left: int, right: int)
    requires
        world.wf(),
        0 <= left < world.listed().len(),
        0 <= right < world.listed().len(),
        world.listed()[left].0 == world.listed()[right].0,
    ensures
        left == right,
{
    let blocks = world.listed();
    if left < right {
        assert(position_before(blocks[left].0, blocks[right].0));
    } else if right < left {
        assert(position_before(blocks[right].0, blocks[left].0));
    }
}

proof fn passing_is_linked(world: World3D, facts: ElectricalFacts, from: int, to: int)
    requires
        world.wf(),
        0 <= from < world.listed().len(),
        0 <= to < world.listed().len(),
    ensures
        passes(world, facts, from, to) <==> holds_dust(world, world.listed()[from].0) && holds_dust(
            world,
            world.listed()[to].0,
        ) && is_linked(facts.dust_targets@, world.listed()[from].0, world.listed()[to].0),
        is_dust(world, from) <==> holds_dust(world, world.listed()[from].0),
{
    listed_block(world.listed(), from);
    listed_block(world.listed(), to);
    links_are_links(facts.dust_targets@, world.listed()[from].0, world.listed()[to].0, 0);
}

/// A path of listed dust is a wire.
proof fn path_leads(world: World3D, facts: ElectricalFacts, labels: Labels, from: int, to: int)
    requires
        world.wf(),
        reaches(world, facts, labels, from, to),
    ensures
        leads(world, facts, world.listed()[from].0, world.listed()[to].0),
{
    let blocks = world.listed();
    let path = choose|path: Seq<int>| #[trigger]
        is_dust_path(world, facts, labels, path) && path[0] == from && path.last() == to;
    let wire = Seq::new(path.len(), |k: int| blocks[path[k]].0);
    assert forall|k: int| 0 <= k < wire.len() implies holds_dust(world, #[trigger] wire[k]) by {
        assert(is_dust(world, path[k]));
        listed_block(blocks, path[k]);
    }
    assert forall|k: int| 0 < k < wire.len() implies is_linked(facts.dust_targets@, wire[k - 1], #[trigger] wire[k]) by {
        assert(passes_along(world, facts, path, k));
        assert(is_dust(world, path[k]) && is_dust(world, path[k - 1]));
        passing_is_linked(world, facts, path[k - 1], path[k]);
    }
    assert(is_wire(world, facts, wire));
}

proof fn leads_back(world: World3D, facts: ElectricalFacts, from: Position, to: Position)
    requires
        is_mutual(world, facts),
        leads(world, facts, from, to),
    ensures
        leads(world, facts, to, from),
{
    let wire = choose|wire: Seq<Position>| #[trigger]
        is_wire(world, facts, wire) && wire[0] == from && wire.last() == to;
    let back = wire.reverse();
    assert forall|k: int| 0 < k < back.len() implies is_linked(facts.dust_targets@, back[k - 1], #[trigger] back[k]) by {
        let at = wire.len() - k;
        assert(wire[at - 1] == back[k] && wire[at] == back[k - 1]);
        assert(is_linked(facts.dust_targets@, wire[at - 1], wire[at]));
        assert(holds_dust(world, wire[at - 1]) && holds_dust(world, wire[at]));
    }
    assert(is_wire(world, facts, back));
}

proof fn leads_on(world: World3D, facts: ElectricalFacts, from: Position, middle: Position, to: Position)
    requires
        leads(world, facts, from, middle),
        leads(world, facts, middle, to),
    ensures
        leads(world, facts, from, to),
{
    let first = choose|wire: Seq<Position>| #[trigger]
        is_wire(world, facts, wire) && wire[0] == from && wire.last() == middle;
    let second = choose|wire: Seq<Position>| #[trigger]
        is_wire(world, facts, wire) && wire[0] == middle && wire.last() == to;
    let whole = first + second.skip(1);
    assert forall|k: int| 0 <= k < whole.len() implies holds_dust(world, #[trigger] whole[k]) by {
        if k < first.len() {
            assert(whole[k] == first[k]);
        } else {
            assert(whole[k] == second[k - first.len() + 1]);
        }
    }
    assert forall|k: int| 0 < k < whole.len() implies is_linked(facts.dust_targets@, whole[k - 1], #[trigger] whole[k]) by {
        if k < first.len() {
            assert(whole[k] == first[k] && whole[k - 1] == first[k - 1]);
        } else {
            let at = k - first.len() + 1;
            assert(whole[k] == second[at]);
            if k == first.len() {
                assert(whole[k - 1] == first.last());
                assert(second[at - 1] == middle);
            } else {
                assert(whole[k - 1] == second[at - 1]);
            }
        }
    }
    assert(is_wire(world, facts, whole));
    assert(whole.last() == to) by {
        if second.len() == 1 {
            assert(whole =~= first);
        } else {
            assert(whole.last() == second.last());
        }
    }
    assert(whole[0] == from);
}

/// What holds of the components of the first blocks.
spec fn components_hold(world: World3D, facts: ElectricalFacts, labels: Labels, next: nat, count: nat) -> bool {
    &&& labels.len() == world.listed().len()
    &&& next <= count
    &&& forall|i: int| 0 <= i < count && is_dust(world, i) ==> (#[trigger] labels[i]) is Some
    &&& forall|i: int|
        0 <= i < labels.len() && (#[trigger] labels[i]) is Some ==> is_dust(world, i) && labels[i]->0 < next
    &&& forall|i: int, j: int|
        0 <= i < labels.len() && 0 <= j < labels.len() && (#[trigger] labels[i]) is Some && labels[i] == (
        #[trigger] labels[j]) ==> have_root(world, facts, i, j)
    &&& is_mutual(world, facts) ==> forall|i: int, j: int| #[trigger]
        passes(world, facts, i, j) && labels[i] is Some ==> labels[j] == labels[i]
}

/// Whether wires lead to two blocks from one.
spec fn have_root(world: World3D, facts: ElectricalFacts, i: int, j: int) -> bool {
    exists|root: Position| #[trigger]
        leads(world, facts, root, world.listed()[i].0) && leads(world, facts, root, world.listed()[j].0)
}

proof fn components_are_wired(world: World3D, facts: ElectricalFacts, count: nat)
    requires
        world.wf(),
        count <= world.listed().len(),
    ensures
        components_hold(world, facts, components(world, facts, count).0, components(world, facts, count).1, count),
    decreases count,
{
    let blocks = world.listed();
    if count > 0 {
        components_are_wired(world, facts, (count - 1) as nat);
        let (labels, next) = components(world, facts, (count - 1) as nat);
        let seed = count - 1;
        if is_dust(world, seed) && labels[seed] is None {
            let id = next as usize;
            let after = grown(world, facts, labels, seed, id);
            assert(world.blocks.len() as nat == blocks.len());
            assert(id as nat == next);
            assert(reaches(world, facts, labels, seed, seed)) by {
                let path = seq![seed];
                assert(is_dust_path(world, facts, labels, path));
                assert(path.last() == seed);
            }
            assert forall|i: int| 0 <= i < count && is_dust(world, i) implies (#[trigger] after[i]) is Some by {
                if i < count - 1 {
                    assert(labels[i] is Some);
                }
            }
            assert forall|i: int| 0 <= i < after.len() && (#[trigger] after[i]) is Some implies is_dust(world, i)
                && after[i]->0 < next + 1 by {
                if labels[i] is None {
                    let path = choose|path: Seq<int>| #[trigger]
                        is_dust_path(world, facts, labels, path) && path[0] == seed && path.last() == i;
                    assert(is_dust(world, path[path.len() - 1]));
                }
            }
            assert forall|i: int, j: int|
                0 <= i < after.len() && 0 <= j < after.len() && (#[trigger] after[i]) is Some && after[i] == (
                #[trigger] after[j]) implies have_root(world, facts, i, j) by {
                if labels[i] is Some {
                    assert(labels[i]->0 < next);
                    assert(labels[j] is Some);
                } else {
                    if labels[j] is Some {
                        assert(labels[j]->0 < next);
                    }
                    path_leads(world, facts, labels, seed, i);
                    path_leads(world, facts, labels, seed, j);
                    assert(leads(world, facts, blocks[seed].0, blocks[i].0));
                }
            }
            if is_mutual(world, facts) {
                assert forall|i: int, j: int| #[trigger]
                    passes(world, facts, i, j) && after[i] is Some implies after[j] == after[i] by {
                    passing_is_linked(world, facts, i, j);
                    passing_is_linked(world, facts, j, i);
                    assert(passes(world, facts, j, i));
                    if labels[i] is None && labels[j] is None {
                        let path = choose|path: Seq<int>| #[trigger]
                            is_dust_path(world, facts, labels, path) && path[0] == seed && path.last() == i;
                        let longer = path.push(j);
                        assert forall|k: int| 0 <= k < longer.len() implies is_dust(world, #[trigger] longer[k])
                            && labels[longer[k]] is None by {
                            if k < path.len() {
                                assert(longer[k] == path[k]);
                            }
                        }
                        assert forall|k: int| 0 < k < longer.len() implies passes_along(world, facts, longer, k) by {
                            if k < path.len() {
                                assert(passes_along(world, facts, path, k));
                                assert(longer[k] == path[k]);
                            }
                            assert(longer[k - 1] == path[k - 1]);
                        }
                        assert(is_dust_path(world, facts, labels, longer));
                        assert(longer.last() == j);
                        assert(reaches(world, facts, labels, seed, j));
                    }
                }
            }
        }
    }
}

/// Dust in one component gets its power from one place: wires lead to both cells from
/// it. All dust is in a component, and only dust is. Where dust passes its power back
/// to what it gets power from, dust is in one component exactly where a wire leads
/// from one cell to the other.
pub proof fn components_are_wires(world: World3D, facts: ElectricalFacts, left: Position, right: Position)
    requires
        world.wf(),
    ensures
        joined(world, facts, left, left) <==> holds_dust(world, left),
        joined(world, facts, left, right) ==> holds_dust(world, left) && holds_dust(world, right),
        joined(world, facts, left, right) ==> joined(world, facts, right, left),
        joined(world, facts, left, right) ==> exists|root: Position| #[trigger]
            leads(world, facts, root, left) && leads(world, facts, root, right),
        is_mutual(world, facts) ==> (joined(world, facts, left, right) <==> leads(world, facts, left, right)),
{
    let blocks = world.listed();
    let (labels, next) = all_components(world, facts);
    components_are_wired(world, facts, blocks.len());
    if holds_dust(world, left) {
        let i = dust_is_listed(world, left);
        assert(labels[i] is Some);
        assert(joined(world, facts, left, left));
    }
    if joined(world, facts, left, left) {
        let (i, j) = choose|i: int, j: int|
            {
                &&& 0 <= i < blocks.len()
                &&& 0 <= j < blocks.len()
                &&& (#[trigger] blocks[i]).0 == left
                &&& (#[trigger] blocks[j]).0 == left
                &&& labels[i] is Some
                &&& labels[i] == labels[j]
            };
        assert(is_dust(world, i));
        listed_block(blocks, i);
    }
    if joined(world, facts, left, right) {
        let (i, j) = choose|i: int, j: int|
            {
                &&& 0 <= i < blocks.len()
                &&& 0 <= j < blocks.len()
                &&& (#[trigger] blocks[i]).0 == left
                &&& (#[trigger] blocks[j]).0 == right
                &&& labels[i] is Some
                &&& labels[i] == labels[j]
            };
        assert(labels[j] is Some);
        assert(is_dust(world, i) && is_dust(world, j));
        listed_block(blocks, i);
        listed_block(blocks, j);
        assert(blocks[j].0 == right && blocks[i].0 == left);
        assert(joined(world, facts, right, left));
        assert(have_root(world, facts, i, j));
        let root = choose|root: Position| #[trigger]
            leads(world, facts, root, blocks[i].0) && leads(world, facts, root, blocks[j].0);
        assert(leads(world, facts, root, left) && leads(world, facts, root, right));
        if is_mutual(world, facts) {
            leads_back(world, facts, root, left);
            leads_on(world, facts, left, root, right);
        }
    }
    if is_mutual(world, facts) && leads(world, facts, left, right) {
        let wire = choose|wire: Seq<Position>| #[trigger]
            is_wire(world, facts, wire) && wire[0] == left && wire.last() == right;
        wire_is_joined(world, facts, wire, (wire.len() - 1) as nat);
    }
}

proof fn wire_is_joined(world: World3D, facts: ElectricalFacts, wire: Seq<Position>, at: nat)
    requires
        world.wf(),
        is_mutual(world, facts),
        is_wire(world, facts, wire),
        at < wire.len(),
    ensures
        joined(world, facts, wire[0], wire[at as int]),
    decreases at,
{
    let blocks = world.listed();
    let labels = all_components(world, facts).0;
    components_are_wired(world, facts, blocks.len());
    assert(holds_dust(world, wire[0]) && holds_dust(world, wire[at as int]));
    let first = dust_is_listed(world, wire[0]);
    assert(labels[first] is Some);
    if at > 0 {
        wire_is_joined(world, facts, wire, (at - 1) as nat);
        assert(holds_dust(world, wire[at - 1]));
        let from = dust_is_listed(world, wire[at - 1]);
        let to = dust_is_listed(world, wire[at as int]);
        assert(is_linked(facts.dust_targets@, wire[at - 1], wire[at as int]));
        passing_is_linked(world, facts, from, to);
        assert(passes(world, facts, from, to));
        let (i, j) = choose|i: int, j: int|
            {
                &&& 0 <= i < blocks.len()
                &&& 0 <= j < blocks.len()
                &&& (#[trigger] blocks[i]).0 == wire[0]
                &&& (#[trigger] blocks[j]).0 == wire[at - 1]
                &&& labels[i] is Some
                &&& labels[i] == labels[j]
            };
        assert(blocks[i].0 == wire[0] && blocks[to].0 == wire[at as int]);
        assert(labels[to] == labels[from]);
    } else {
        assert(blocks[first].0 == wire[0]);
    }
}

// ---------------------------------------------------------------------------
// Nets
// ---------------------------------------------------------------------------
/// Whether a net comes from a cell: the last anchor that names it puts it there.
pub open spec fn comes_from(anchors: Seq<(usize, Position)>, net: usize, cell: Position) -> bool {
    exists|k: int|
        {
            &&& 0 <= k < anchors.len()
            &&& #[trigger] anchors[k] == (net, cell)
            &&& forall|j: int| k < j < anchors.len() ==> (#[trigger] anchors[j]).0 != net
        }
}

/// Whether a net is the first that an anchor puts into a cell.
pub open spec fn is_first_at(anchors: Seq<(usize, Position)>, net: usize, cell: Position) -> bool {
    exists|k: int|
        {
            &&& 0 <= k < anchors.len()
            &&& #[trigger] anchors[k] == (net, cell)
            &&& forall|j: int| 0 <= j < k ==> (#[trigger] anchors[j]).1 != cell
        }
}

/// Whether a cell holds what gives power by itself.
pub open spec fn is_terminal(world: World3D, cell: Position) -> bool {
    !(world.at(cell).kind is Redstone) && !(world.at(cell).kind is Cobble) && !(world.at(cell).kind is Air)
}

/// Whether a terminal powers the dust of a cell: by itself, or through a support block
/// next to the dust.
pub open spec fn powers_dust(world: World3D, facts: ElectricalFacts, terminal: Position, dust: Position) -> bool {
    &&& is_terminal(world, terminal)
    &&& holds_dust(world, dust)
    &&& in_bounds(world.size, dust)
    &&& is_linked(facts.power_targets@, terminal, dust) || exists|support: Position|
        {
            &&& #[trigger] is_linked(facts.power_targets@, terminal, support)
            &&& in_bounds(world.size, support)
            &&& world.at(support).kind is Cobble
            &&& is_next_to(support, dust)
        }
}

/// Whether the dust of a cell carries a net: the net's terminal powers dust of its
/// component.
pub open spec fn carries(
    world: World3D,
    facts: ElectricalFacts,
    anchors: Seq<(usize, Position)>,
    net: usize,
    cell: Position,
) -> bool {
    exists|terminal: Position, dust: Position|
        {
            &&& comes_from(anchors, net, terminal)
            &&& #[trigger] powers_dust(world, facts, terminal, dust)
            &&& joined(world, facts, dust, cell)
        }
}

/// Whether a net is there to drive from a cell: the dust of the cell carries it, or the
/// cell is where it comes from.
pub open spec fn drives_from(
    world: World3D,
    facts: ElectricalFacts,
    anchors: Seq<(usize, Position)>,
    net: usize,
    cell: Position,
) -> bool {
    if holds_dust(world, cell) {
        carries(world, facts, anchors, net, cell)
    } else {
        is_first_at(anchors, net, cell)
    }
}

/// Whether a cell belongs to a net: it is where the net comes from, dust in the
/// component of the dust that the net is, or dust that carries the net and no other.
pub open spec fn belongs(
    world: World3D,
    facts: ElectricalFacts,
    anchors: Seq<(usize, Position)>,
    net: usize,
    cell: Position,
) -> bool {
    exists|anchor: Position| #[trigger]
        comes_from(anchors, net, anchor) && if holds_dust(world, anchor) {
            joined(world, facts, anchor, cell)
        } else {
            ||| cell == anchor
            ||| {
                &&& carries(world, facts, anchors, net, cell)
                &&& forall|other: usize| #[trigger] carries(world, facts, anchors, other, cell) ==> other == net
            }
        }
}

/// Whether drivers are the nets that drive from a cell, in order and each once.
pub open spec fn are_drivers(
    world: World3D,
    facts: ElectricalFacts,
    anchors: Seq<(usize, Position)>,
    source: Position,
    drivers: Seq<(usize, Position)>,
) -> bool {
    &&& forall|i: int| 0 <= i < drivers.len() ==> (#[trigger] drivers[i]).1 == source
    &&& forall|i: int, j: int| 0 <= i < j < drivers.len() ==> (#[trigger] drivers[i]).0 < (#[trigger] drivers[j]).0
    &&& forall|net: usize| #[trigger]
        drives_from(world, facts, anchors, net, source) <==> drivers.contains((net, source))
}

/// Whether something is wrong with a pin. A pin that expects a net is wrong where it
/// gets power from a cell that does not belong to the net and that some net drives
/// from; one where nets meet, where an expected net is not carried or another is.
pub open spec fn is_wrong(
    world: World3D,
    facts: ElectricalFacts,
    anchors: Seq<(usize, Position)>,
    pin: PinRecord,
    violation: ViolationView,
) -> bool {
    &&& violation.node == pin.node
    &&& violation.position == pin.position
    &&& match pin.contract {
        PinContract::Passive => false,
        PinContract::Single { expected_net } => {
            &&& violation.reason == ViolationReason::ExtraDriver
            &&& violation.confidence == ConnectivityConfidence::Certain
            &&& violation.drivers.len() > 0
            &&& exists|source: Position| #[trigger]
                is_linked(facts.cobble_sources@, pin.position, source) && !belongs(
                    world,
                    facts,
                    anchors,
                    expected_net,
                    source,
                ) && are_drivers(world, facts, anchors, source, violation.drivers)
        },
        PinContract::Merge { input_nets } => {
            &&& violation.confidence == ConnectivityConfidence::SimulationRequired
            &&& match violation.reason {
                ViolationReason::ExtraDriver => false,
                ViolationReason::MissingBranch(net) => {
                    &&& input_nets@.contains(net)
                    &&& !carries(world, facts, anchors, net, pin.position)
                    &&& violation.drivers.len() == 0
                },
                ViolationReason::ForeignNet(net) => {
                    &&& !input_nets@.contains(net)
                    &&& carries(world, facts, anchors, net, pin.position)
                    &&& violation.drivers == seq![(net, pin.position)]
                },
            }
        },
    }
}

/// Whether violations are told in order of node and cell, and are all that is wrong.
pub open spec fn tells_all(
    world: World3D,
    analysis: PlacedAnalysis,
    facts: ElectricalFacts,
    violations: Seq<ViolationView>,
) -> bool {
    &&& forall|violation: ViolationView| #[trigger]
        violations.contains(violation) <==> exists|p: int|
            0 <= p < analysis.pins@.len() && is_wrong(
                world,
                facts,
                analysis.anchors@,
                #[trigger] analysis.pins@[p],
                violation,
            )
    &&& forall|i: int, j: int|
        0 <= i < j < violations.len() ==> {
            ||| (#[trigger] violations[i]).node < (#[trigger] violations[j]).node
            ||| violations[i].node == violations[j].node && !position_before(
                violations[j].position,
                violations[i].position,
            )
        }
}

// ---------------------------------------------------------------------------
// Proofs
// ---------------------------------------------------------------------------
proof fn anchor_is_last(anchors: Seq<(usize, Position)>, net: usize, count: nat)
    requires
        count <= anchors.len(),
        forall|j: int| count <= j < anchors.len() ==> (#[trigger] anchors[j]).0 != net,
    ensures
        forall|cell: Position| #[trigger]
            comes_from(anchors, net, cell) <==> anchor_among(anchors, net, count) == Some(cell),
    decreases count,
{
    if count == 0 {
    } else if anchors[count - 1].0 == net {
        let found = anchors[count - 1].1;
        assert(anchors[count - 1] == (net, found));
        assert(comes_from(anchors, net, found));
        assert forall|cell: Position| #[trigger] comes_from(anchors, net, cell) implies cell == found by {
            let k = choose|k: int|
                {
                    &&& 0 <= k < anchors.len()
                    &&& #[trigger] anchors[k] == (net, cell)
                    &&& forall|j: int| k < j < anchors.len() ==> (#[trigger] anchors[j]).0 != net
                };
            if k < count - 1 {
                assert(anchors[count - 1].0 != net);
            }
        }
    } else {
        anchor_is_last(anchors, net, (count - 1) as nat);
    }
}

proof fn net_is_first(anchors: Seq<(usize, Position)>, cell: Position, start: nat)
    requires
        start <= anchors.len(),
        forall|j: int| 0 <= j < start ==> (#[trigger] anchors[j]).1 != cell,
    ensures
        forall|net: usize| #[trigger] is_first_at(anchors, net, cell) <==> net_from(anchors, cell, start) == Some(net),
    decreases anchors.len() - start,
{
    if start < anchors.len() {
        if anchors[start as int].1 == cell {
            let found = anchors[start as int].0;
            assert(anchors[start as int] == (found, cell));
            assert(is_first_at(anchors, found, cell));
            assert forall|net: usize| #[trigger] is_first_at(anchors, net, cell) implies net == found by {
                let k = choose|k: int|
                    {
                        &&& 0 <= k < anchors.len()
                        &&& #[trigger] anchors[k] == (net, cell)
                        &&& forall|j: int| 0 <= j < k ==> (#[trigger] anchors[j]).1 != cell
                    };
                if k > start {
                    assert(anchors[start as int].1 != cell);
                }
            }
        } else {
            net_is_first(anchors, cell, start + 1);
        }
    }
}

/// Cells of one component are joined.
proof fn sharing_is_joined(world: World3D, facts: ElectricalFacts, left: Position, right: Position)
    requires
        world.wf(),
    ensures
        joined(world, facts, left, right) <==> exists|id: usize| #[trigger]
            cell_in(world, all_components(world, facts).0, left, id) && cell_in(
                world,
                all_components(world, facts).0,
                right,
                id,
            ),
        forall|one: usize, other: usize|
            #[trigger] cell_in(world, all_components(world, facts).0, left, one) && #[trigger] cell_in(
                world,
                all_components(world, facts).0,
                left,
                other,
            ) ==> one == other,
{
    let labels = all_components(world, facts).0;
    let blocks = world.listed();
    if joined(world, facts, left, right) {
        let (i, j) = choose|i: int, j: int|
            {
                &&& 0 <= i < blocks.len()
                &&& 0 <= j < blocks.len()
                &&& (#[trigger] blocks[i]).0 == left
                &&& (#[trigger] blocks[j]).0 == right
                &&& labels[i] is Some
                &&& labels[i] == labels[j]
            };
        let id = labels[i]->0;
        assert(cell_in(world, labels, left, id) && cell_in(world, labels, right, id));
    }
    if exists|id: usize| #[trigger] cell_in(world, labels, left, id) && cell_in(world, labels, right, id) {
        let id = choose|id: usize| #[trigger] cell_in(world, labels, left, id) && cell_in(world, labels, right, id);
        let i = choose|i: int| 0 <= i < blocks.len() && (#[trigger] blocks[i]).0 == left && labels[i] == Some(id);
        let j = choose|j: int| 0 <= j < blocks.len() && (#[trigger] blocks[j]).0 == right && labels[j] == Some(id);
        assert(blocks[i].0 == left && blocks[j].0 == right);
    }
    assert forall|one: usize, other: usize|
        #[trigger] cell_in(world, labels, left, one) && #[trigger] cell_in(world, labels, left, other) implies one
        == other by {
        let i = choose|i: int| 0 <= i < blocks.len() && (#[trigger] blocks[i]).0 == left && labels[i] == Some(one);
        let j = choose|j: int| 0 <= j < blocks.len() && (#[trigger] blocks[j]).0 == left && labels[j] == Some(other);
        one_place(world, i, j);
    }
}

/// Feeding the component of a cell is being carried by it.
proof fn feeding_is_carrying(
    world: World3D,
    facts: ElectricalFacts,
    anchors: Seq<(usize, Position)>,
    net: usize,
    cell: Position,
)
    requires
        world.wf(),
    ensures
        carries(world, facts, anchors, net, cell) <==> exists|id: usize| #[trigger]
            cell_in(world, all_components(world, facts).0, cell, id) && feeds(
                world,
                facts,
                all_components(world, facts).0,
                anchors,
                net,
                id,
            ),
{
    let labels = all_components(world, facts).0;
    anchor_is_last(anchors, net, anchors.len());
    if carries(world, facts, anchors, net, cell) {
        let (terminal, dust) = choose|terminal: Position, dust: Position|
            {
                &&& comes_from(anchors, net, terminal)
                &&& #[trigger] powers_dust(world, facts, terminal, dust)
                &&& joined(world, facts, dust, cell)
            };
        assert(anchor_of(anchors, net) == Some(terminal));
        sharing_is_joined(world, facts, dust, cell);
        let id = choose|id: usize| #[trigger] cell_in(world, labels, dust, id) && cell_in(world, labels, cell, id);
        let targets = links_of(facts.power_targets@, terminal);
        let target = if is_linked(facts.power_targets@, terminal, dust) {
            dust
        } else {
            choose|support: Position|
                {
                    &&& #[trigger] is_linked(facts.power_targets@, terminal, support)
                    &&& in_bounds(world.size, support)
                    &&& world.at(support).kind is Cobble
                    &&& is_next_to(support, dust)
                }
        };
        links_are_links(facts.power_targets@, terminal, target, 0);
        assert(targets.contains(target));
        let k = choose|k: int| 0 <= k < targets.len() && targets[k] == target;
        assert(powers(world, labels, target, id)) by {
            if target != dust {
                assert(is_next_to(target, dust) && in_bounds(world.size, dust) && world.at(dust).kind is Redstone
                    && cell_in(world, labels, dust, id));
            }
        }
        assert(powers(world, labels, targets[k], id));
        assert(feeds(world, facts, labels, anchors, net, id));
        assert(cell_in(world, labels, cell, id) && feeds(world, facts, labels, anchors, net, id));
    }
    if exists|id: usize| #[trigger] cell_in(world, labels, cell, id) && feeds(world, facts, labels, anchors, net, id) {
        let id = choose|id: usize| #[trigger]
            cell_in(world, labels, cell, id) && feeds(world, facts, labels, anchors, net, id);
        let terminal = anchor_of(anchors, net)->0;
        assert(comes_from(anchors, net, terminal));
        let targets = links_of(facts.power_targets@, terminal);
        let k = choose|k: int| 0 <= k < targets.len() && powers(world, labels, #[trigger] targets[k], id);
        let target = targets[k];
        assert(targets.contains(target));
        links_are_links(facts.power_targets@, terminal, target, 0);
        let dust = if world.at(target).kind is Redstone {
            target
        } else {
            choose|beside: Position| #[trigger]
                is_next_to(target, beside) && in_bounds(world.size, beside) && world.at(beside).kind is Redstone
                    && cell_in(world, labels, beside, id)
        };
        assert(is_linked(facts.power_targets@, terminal, target));
        assert(powers_dust(world, facts, terminal, dust));
        sharing_is_joined(world, facts, dust, cell);
        assert(cell_in(world, labels, dust, id) && cell_in(world, labels, cell, id));
        assert(joined(world, facts, dust, cell));
    }
}

proof fn driving_is_driving(
    world: World3D,
    facts: ElectricalFacts,
    anchors: Seq<(usize, Position)>,
    net: usize,
    cell: Position,
)
    requires
        world.wf(),
    ensures
        drives_from(world, facts, anchors, net, cell) <==> drivers_at(
            world,
            facts,
            all_components(world, facts).0,
            anchors,
            cell,
        ).contains(net),
{
    feeding_is_carrying(world, facts, anchors, net, cell);
    net_is_first(anchors, cell, 0);
    assert(is_first_at(anchors, net, cell) <==> net_from(anchors, cell, 0) == Some(net));
}

proof fn belonging_is_allowed(
    world: World3D,
    facts: ElectricalFacts,
    anchors: Seq<(usize, Position)>,
    net: usize,
    cell: Position,
)
    requires
        world.wf(),
    ensures
        belongs(world, facts, anchors, net, cell) <==> may_drive(
            world,
            facts,
            all_components(world, facts).0,
            anchors,
            net,
            cell,
        ),
{
    let labels = all_components(world, facts).0;
    anchor_is_last(anchors, net, anchors.len());
    assert forall|other: usize| #[trigger] carries(world, facts, anchors, other, cell) <==> exists|id: usize| #[trigger]
        cell_in(world, labels, cell, id) && feeds(world, facts, labels, anchors, other, id) by {
        feeding_is_carrying(world, facts, anchors, other, cell);
    }
    sharing_is_joined(world, facts, cell, cell);
    if let Some(anchor) = anchor_of(anchors, net) {
        assert(comes_from(anchors, net, anchor));
        sharing_is_joined(world, facts, anchor, cell);
        let alone = carries(world, facts, anchors, net, cell) && forall|other: usize| #[trigger]
            carries(world, facts, anchors, other, cell) ==> other == net;
        let single = exists|id: usize| #[trigger]
            cell_in(world, labels, cell, id) && nets_of(world, facts, labels, anchors, id) =~= set![net];
        if alone {
            let id = choose|id: usize| #[trigger]
                cell_in(world, labels, cell, id) && feeds(world, facts, labels, anchors, net, id);
            let nets = nets_of(world, facts, labels, anchors, id);
            assert forall|other: usize| nets.contains(other) <==> set![net].contains(other) by {
                if nets.contains(other) {
                    assert(cell_in(world, labels, cell, id) && feeds(world, facts, labels, anchors, other, id));
                    assert(carries(world, facts, anchors, other, cell));
                }
            }
            assert(nets =~= set![net]);
            assert(cell_in(world, labels, cell, id) && nets =~= set![net]);
        }
        if single {
            let id = choose|id: usize| #[trigger]
                cell_in(world, labels, cell, id) && nets_of(world, facts, labels, anchors, id) =~= set![net];
            let nets = nets_of(world, facts, labels, anchors, id);
            assert(nets.contains(net));
            assert(cell_in(world, labels, cell, id) && feeds(world, facts, labels, anchors, net, id));
            assert(carries(world, facts, anchors, net, cell));
            assert forall|other: usize| #[trigger] carries(world, facts, anchors, other, cell) implies other == net by {
                let own = choose|own: usize| #[trigger]
                    cell_in(world, labels, cell, own) && feeds(world, facts, labels, anchors, other, own);
                assert(cell_in(world, labels, cell, own) && cell_in(world, labels, cell, id));
                assert(nets.contains(other));
                assert(set![net].contains(other));
            }
        }
        assert(alone == single);
        if belongs(world, facts, anchors, net, cell) {
            let from = choose|from: Position| #[trigger]
                comes_from(anchors, net, from) && if holds_dust(world, from) {
                    joined(world, facts, from, cell)
                } else {
                    ||| cell == from
                    ||| {
                        &&& carries(world, facts, anchors, net, cell)
                        &&& forall|other: usize| #[trigger]
                            carries(world, facts, anchors, other, cell) ==> other == net
                    }
                };
            assert(from == anchor);
        }
    }
}

/// The members of a set below a bound, in order.
spec fn listed_below(set: Set<usize>, bound: nat) -> Seq<usize>
    decreases bound,
{
    if bound == 0 {
        Seq::empty()
    } else if set.contains((bound - 1) as usize) {
        listed_below(set, (bound - 1) as nat).push((bound - 1) as usize)
    } else {
        listed_below(set, (bound - 1) as nat)
    }
}

proof fn listing_below(set: Set<usize>, bound: nat)
    requires
        bound <= usize::MAX + 1,
    ensures
        forall|i: int, j: int|
            0 <= i < j < listed_below(set, bound).len() ==> listed_below(set, bound)[i] < listed_below(set, bound)[j],
        forall|item: usize| #[trigger]
            listed_below(set, bound).contains(item) <==> set.contains(item) && item < bound,
    decreases bound,
{
    if bound > 0 {
        listing_below(set, (bound - 1) as nat);
        let before = listed_below(set, (bound - 1) as nat);
        let after = listed_below(set, bound);
        let last = (bound - 1) as usize;
        assert forall|i: int, j: int| 0 <= i < j < after.len() implies after[i] < after[j] by {
            assert(before.contains(before[i]));
            if j < before.len() {
                assert(after[j] == before[j]);
            }
        }
        assert forall|item: usize| #[trigger] after.contains(item) <==> set.contains(item) && item < bound by {
            if before.contains(item) {
                let i = choose|i: int| 0 <= i < before.len() && before[i] == item;
                assert(after[i] == item);
            }
            if set.contains(last) && item == last {
                assert(after[before.len() as int] == item);
            }
            if after.contains(item) {
                let i = choose|i: int| 0 <= i < after.len() && after[i] == item;
                if i < before.len() {
                    assert(before[i] == item);
                }
            }
        }
    }
}

/// Numbers can be listed in order.
proof fn ascending_lists(set: Set<usize>)
    ensures
        lists_set(ascending(set), set),
{
    listing_below(set, (usize::MAX + 1) as nat);
    let items = listed_below(set, (usize::MAX + 1) as nat);
    assert(lists_set(items, set)) by {
        assert forall|i: int, j: int| 0 <= i < j < items.len() implies comes_before(
            #[trigger] items[i],
            #[trigger] items[j],
        ) by {}
    }
}

proof fn extra_drivers_are_wrong(
    world: World3D,
    facts: ElectricalFacts,
    anchors: Seq<(usize, Position)>,
    pin: PinRecord,
    expected: usize,
    count: nat,
    violation: ViolationView,
)
    requires
        world.wf(),
        count <= links_of(facts.cobble_sources@, pin.position).len(),
    ensures
        extra_drivers(world, facts, all_components(world, facts).0, anchors, pin, expected, count).contains(violation)
            <==> exists|k: int|
            {
                &&& 0 <= k < count
                &&& is_source_wrong(
                    world,
                    facts,
                    anchors,
                    pin,
                    expected,
                    #[trigger] links_of(facts.cobble_sources@, pin.position)[k],
                    violation,
                )
            },
    decreases count,
{
    let labels = all_components(world, facts).0;
    let all = extra_drivers(world, facts, labels, anchors, pin, expected, count);
    let sources = links_of(facts.cobble_sources@, pin.position);
    if count > 0 {
        extra_drivers_are_wrong(world, facts, anchors, pin, expected, (count - 1) as nat, violation);
        let before = extra_drivers(world, facts, labels, anchors, pin, expected, (count - 1) as nat);
        let source = sources[count - 1];
        let set = drivers_at(world, facts, labels, anchors, source);
        let nets = ascending(set);
        ascending_lists(set);
        belonging_is_allowed(world, facts, anchors, expected, source);
        let drivers = drivers_from(nets, source);
        assert forall|net: usize| #[trigger]
            drives_from(world, facts, anchors, net, source) <==> drivers.contains((net, source)) by {
            driving_is_driving(world, facts, anchors, net, source);
            if nets.contains(net) {
                let i = choose|i: int| 0 <= i < nets.len() && nets[i] == net;
                assert(drivers[i] == (net, source));
            }
            if drivers.contains((net, source)) {
                let i = choose|i: int| 0 <= i < drivers.len() && drivers[i] == (net, source);
                assert(nets[i] == net);
            }
        }
        assert forall|i: int, j: int| 0 <= i < j < drivers.len() implies (#[trigger] drivers[i]).0 < (
        #[trigger] drivers[j]).0 by {
            assert(comes_before(nets[i], nets[j]));
        }
        assert(are_drivers(world, facts, anchors, source, drivers));
        assert forall|others: Seq<(usize, Position)>| #[trigger]
            are_drivers(world, facts, anchors, source, others) implies others == drivers by {
            drivers_are_unique(world, facts, anchors, source, others, drivers);
        }
        let own = ViolationView {
            node: pin.node,
            position: pin.position,
            drivers,
            reason: ViolationReason::ExtraDriver,
            confidence: ConnectivityConfidence::Certain,
        };
        assert(is_source_wrong(world, facts, anchors, pin, expected, source, violation) <==> violation == own && !belongs(
            world,
            facts,
            anchors,
            expected,
            source,
        ) && drivers.len() > 0);
        if !belongs(world, facts, anchors, expected, source) && drivers.len() > 0 {
            assert(all == before.push(own));
            if before.contains(violation) {
                let i = choose|i: int| 0 <= i < before.len() && before[i] == violation;
                assert(all[i] == violation);
            }
            if violation == own {
                assert(all[before.len() as int] == violation);
            }
            if all.contains(violation) && violation != own {
                let i = choose|i: int| 0 <= i < all.len() && all[i] == violation;
                assert(before[i] == violation);
            }
        } else {
            assert(all == before);
        }
        if exists|k: int|
            {
                &&& 0 <= k < count
                &&& is_source_wrong(world, facts, anchors, pin, expected, #[trigger] sources[k], violation)
            } {
            let k = choose|k: int|
                {
                    &&& 0 <= k < count
                    &&& is_source_wrong(world, facts, anchors, pin, expected, #[trigger] sources[k], violation)
                };
            assert(k < count - 1 || sources[k] == source);
        }
    }
}

/// Whether a violation of a pin is that of one of its sources.
spec fn is_source_wrong(
    world: World3D,
    facts: ElectricalFacts,
    anchors: Seq<(usize, Position)>,
    pin: PinRecord,
    expected: usize,
    source: Position,
    violation: ViolationView,
) -> bool {
    &&& violation.node == pin.node
    &&& violation.position == pin.position
    &&& violation.reason == ViolationReason::ExtraDriver
    &&& violation.confidence == ConnectivityConfidence::Certain
    &&& violation.drivers.len() > 0
    &&& !belongs(world, facts, anchors, expected, source)
    &&& are_drivers(world, facts, anchors, source, violation.drivers)
}

/// There is one list of drivers.
proof fn drivers_are_unique(
    world: World3D,
    facts: ElectricalFacts,
    anchors: Seq<(usize, Position)>,
    source: Position,
    left: Seq<(usize, Position)>,
    right: Seq<(usize, Position)>,
)
    requires
        are_drivers(world, facts, anchors, source, left),
        are_drivers(world, facts, anchors, source, right),
    ensures
        left == right,
{
    let set = Set::new(|net: usize| drives_from(world, facts, anchors, net, source));
    let first = Seq::new(left.len(), |i: int| left[i].0);
    let second = Seq::new(right.len(), |i: int| right[i].0);
    drivers_list(world, facts, anchors, source, left, first, set);
    drivers_list(world, facts, anchors, source, right, second, set);
    crate::order::ascending_is_unique(first, set);
    crate::order::ascending_is_unique(second, set);
    assert(first == second);
    assert(left.len() == first.len() && right.len() == second.len());
    assert forall|i: int| 0 <= i < left.len() implies left[i] == right[i] by {
        assert(first[i] == second[i]);
        assert(left[i].1 == source && right[i].1 == source);
    }
    assert(left =~= right);
}

proof fn drivers_list(
    world: World3D,
    facts: ElectricalFacts,
    anchors: Seq<(usize, Position)>,
    source: Position,
    drivers: Seq<(usize, Position)>,
    nets: Seq<usize>,
    set: Set<usize>,
)
    requires
        are_drivers(world, facts, anchors, source, drivers),
        nets == Seq::new(drivers.len(), |i: int| drivers[i].0),
        set == Set::new(|net: usize| drives_from(world, facts, anchors, net, source)),
    ensures
        lists_set(nets, set),
{
    assert forall|i: int, j: int| 0 <= i < j < nets.len() implies comes_before(#[trigger] nets[i], #[trigger] nets[j]) by {
        assert(drivers[i].0 < drivers[j].0);
    }
    assert forall|net: usize| #[trigger] nets.contains(net) <==> set.contains(net) by {
        assert(drives_from(world, facts, anchors, net, source) <==> drivers.contains((net, source)));
        if nets.contains(net) {
            let i = choose|i: int| 0 <= i < nets.len() && nets[i] == net;
            assert(drivers[i].1 == source);
            assert(drivers[i] == (net, source));
        }
        if drivers.contains((net, source)) {
            let i = choose|i: int| 0 <= i < drivers.len() && drivers[i] == (net, source);
            assert(nets[i] == net);
        }
    }
}

proof fn merge_violations_are_wrong(
    world: World3D,
    facts: ElectricalFacts,
    anchors: Seq<(usize, Position)>,
    pin: PinRecord,
    violation: ViolationView,
)
    requires
        world.wf(),
        pin.contract is Merge,
    ensures
        pin_violations(world, facts, all_components(world, facts).0, anchors, pin).contains(violation) <==> is_wrong(
            world,
            facts,
            anchors,
            pin,
            violation,
        ),
{
    let labels = all_components(world, facts).0;
    let inputs = pin.contract->input_nets;
    let expected = inputs@.to_set();
    let actual = arriving(world, facts, labels, anchors, pin.position);
    let absent = expected.difference(actual);
    let strange = actual.difference(expected);
    ascending_lists(absent);
    ascending_lists(strange);
    assert forall|net: usize| #[trigger]
        carries(world, facts, anchors, net, pin.position) <==> actual.contains(net) by {
        feeding_is_carrying(world, facts, anchors, net, pin.position);
    }
    assert forall|net: usize| expected.contains(net) <==> #[trigger] inputs@.contains(net) by {}
    let first = ascending(absent).map_values(|net: usize| missing_branch(pin, net));
    let second = ascending(strange).map_values(|net: usize| foreign_net(pin, net));
    let all = first + second;
    assert(all == merge_violations(world, facts, labels, anchors, pin, expected));
    if all.contains(violation) {
        let i = choose|i: int| 0 <= i < all.len() && all[i] == violation;
        if i < first.len() {
            let net = ascending(absent)[i];
            assert(ascending(absent).contains(net));
            assert(absent.contains(net));
            assert(!carries(world, facts, anchors, net, pin.position));
            assert(inputs@.contains(net));
        } else {
            let net = ascending(strange)[i - first.len()];
            assert(all[i] == second[i - first.len()]);
            assert(ascending(strange).contains(net));
            assert(strange.contains(net));
            assert(carries(world, facts, anchors, net, pin.position));
            assert(!inputs@.contains(net));
        }
    }
    if is_wrong(world, facts, anchors, pin, violation) {
        match violation.reason {
            ViolationReason::MissingBranch(net) => {
                assert(absent.contains(net));
                assert(ascending(absent).contains(net));
                let i = choose|i: int| 0 <= i < ascending(absent).len() && ascending(absent)[i] == net;
                assert(violation.drivers =~= Seq::empty());
                assert(all[i] == violation);
            },
            ViolationReason::ForeignNet(net) => {
                assert(strange.contains(net));
                assert(ascending(strange).contains(net));
                let i = choose|i: int| 0 <= i < ascending(strange).len() && ascending(strange)[i] == net;
                assert(second[i] == violation);
                assert(all[first.len() + i] == violation);
            },
            ViolationReason::ExtraDriver => {},
        }
    }
}

proof fn pin_violations_are_wrong(
    world: World3D,
    facts: ElectricalFacts,
    anchors: Seq<(usize, Position)>,
    pin: PinRecord,
    violation: ViolationView,
)
    requires
        world.wf(),
    ensures
        pin_violations(world, facts, all_components(world, facts).0, anchors, pin).contains(violation) <==> is_wrong(
            world,
            facts,
            anchors,
            pin,
            violation,
        ),
{
    match pin.contract {
        PinContract::Passive => {},
        PinContract::Merge { input_nets } => {
            merge_violations_are_wrong(world, facts, anchors, pin, violation);
        },
        PinContract::Single { expected_net } => {
            let sources = links_of(facts.cobble_sources@, pin.position);
            extra_drivers_are_wrong(world, facts, anchors, pin, expected_net, sources.len(), violation);
            assert forall|source: Position| #[trigger]
                is_linked(facts.cobble_sources@, pin.position, source) <==> sources.contains(source) by {
                links_are_links(facts.cobble_sources@, pin.position, source, 0);
            }
            if is_wrong(world, facts, anchors, pin, violation) {
                let source = choose|source: Position| #[trigger]
                    is_linked(facts.cobble_sources@, pin.position, source) && !belongs(
                        world,
                        facts,
                        anchors,
                        expected_net,
                        source,
                    ) && are_drivers(world, facts, anchors, source, violation.drivers);
                let k = choose|k: int| 0 <= k < sources.len() && sources[k] == source;
                assert(is_source_wrong(world, facts, anchors, pin, expected_net, sources[k], violation));
            }
            if exists|k: int|
                {
                    &&& 0 <= k < sources.len()
                    &&& is_source_wrong(world, facts, anchors, pin, expected_net, #[trigger] sources[k], violation)
                } {
                let k = choose|k: int|
                    {
                        &&& 0 <= k < sources.len()
                        &&& is_source_wrong(world, facts, anchors, pin, expected_net, #[trigger] sources[k], violation)
                    };
                assert(sources.contains(sources[k]));
                assert(is_linked(facts.cobble_sources@, pin.position, sources[k]));
            }
        },
    }
}

proof fn found_violations_are_wrong(
    world: World3D,
    facts: ElectricalFacts,
    anchors: Seq<(usize, Position)>,
    pins: Seq<PinRecord>,
    count: nat,
    violation: ViolationView,
)
    requires
        world.wf(),
        count <= pins.len(),
    ensures
        found_violations(world, facts, all_components(world, facts).0, anchors, pins, count).contains(violation)
            <==> exists|p: int| 0 <= p < count && is_wrong(world, facts, anchors, #[trigger] pins[p], violation),
    decreases count,
{
    let labels = all_components(world, facts).0;
    if count > 0 {
        found_violations_are_wrong(world, facts, anchors, pins, (count - 1) as nat, violation);
        pin_violations_are_wrong(world, facts, anchors, pins[count - 1], violation);
        let before = found_violations(world, facts, labels, anchors, pins, (count - 1) as nat);
        let own = pin_violations(world, facts, labels, anchors, pins[count - 1]);
        let all = before + own;
        if before.contains(violation) {
            let i = choose|i: int| 0 <= i < before.len() && before[i] == violation;
            assert(all[i] == violation);
        }
        if own.contains(violation) {
            let i = choose|i: int| 0 <= i < own.len() && own[i] == violation;
            assert(all[before.len() + i] == violation);
        }
        if all.contains(violation) {
            let i = choose|i: int| 0 <= i < all.len() && all[i] == violation;
            if i < before.len() {
                assert(before[i] == violation);
            } else {
                assert(own[i - before.len()] == violation);
            }
        }
        if exists|p: int| 0 <= p < count && is_wrong(world, facts, anchors, #[trigger] pins[p], violation) {
            let p = choose|p: int| 0 <= p < count && is_wrong(world, facts, anchors, #[trigger] pins[p], violation);
            assert(p < count - 1 || p == count - 1);
        }
    }
}

/// The check of a layout tells all that is wrong with its pins and nothing else, in
/// order of node and cell.
pub proof fn all_that_is_wrong_is_told(world: World3D, analysis: PlacedAnalysis, facts: ElectricalFacts)
    requires
        world.wf(),
        all_violations(world, analysis, facts).len() <= usize::MAX,
    ensures
        tells_all(world, analysis, facts, all_violations(world, analysis, facts)),
{
    let labels = all_components(world, facts).0;
    let anchors = analysis.anchors@;
    let pins = analysis.pins@;
    let found = found_violations(world, facts, labels, anchors, pins, pins.len());
    let told = all_violations(world, analysis, facts);
    let keys = found.map_values(|violation: ViolationView| violation_key(violation));
    let order = the_stable_order(keys);
    let _ = stable_order_exists(keys);
    stable_order_distinct(keys, order);
    assert(told == in_key_order(found));
    assert forall|violation: ViolationView| #[trigger] told.contains(violation) <==> exists|p: int|
        0 <= p < pins.len() && is_wrong(world, facts, anchors, #[trigger] pins[p], violation) by {
        found_violations_are_wrong(world, facts, anchors, pins, pins.len(), violation);
        if told.contains(violation) {
            let i = choose|i: int| 0 <= i < told.len() && told[i] == violation;
            assert(order[i] < keys.len());
            assert(found[order[i] as int] == violation);
        }
        if found.contains(violation) {
            let k = choose|k: int| 0 <= k < found.len() && found[k] == violation;
            distinct_covers(order, k as usize);
            let i = choose|i: int| 0 <= i < order.len() && order[i] == k as usize;
            assert(told[i] == violation);
        }
    }
    assert forall|i: int, j: int| 0 <= i < j < told.len() implies {
        ||| (#[trigger] told[i]).node < (#[trigger] told[j]).node
        ||| told[i].node == told[j].node && !position_before(told[j].position, told[i].position)
    } by {
        assert(order[i] < keys.len() && order[j] < keys.len());
        assert(in_order(keys, order[i], order[j]));
    }
}

/// A pin that expects one net is told of every other net that a cell next to it gives
/// it: where the cell is dust in a component that the terminal of the other net powers,
/// a violation of the pin names that net at that cell. The one exception is a net that
/// is itself dust of that component.
pub proof fn foreign_nets_are_told(
    world: World3D,
    analysis: PlacedAnalysis,
    facts: ElectricalFacts,
    pin: int,
    source: Position,
    terminal: Position,
    dust: Position,
    net: usize,
)
    requires
        world.wf(),
        all_violations(world, analysis, facts).len() <= usize::MAX,
        0 <= pin < analysis.pins@.len(),
        analysis.pins@[pin].contract matches PinContract::Single { expected_net } && net != expected_net
            && forall|anchor: Position| #[trigger]
            comes_from(analysis.anchors@, expected_net, anchor) && holds_dust(world, anchor) ==> !joined(
                world,
                facts,
                anchor,
                source,
            ),
        is_linked(facts.cobble_sources@, analysis.pins@[pin].position, source),
        comes_from(analysis.anchors@, net, terminal),
        powers_dust(world, facts, terminal, dust),
        joined(world, facts, dust, source),
    ensures
        exists|i: int|
            {
                let violation = #[trigger] all_violations(world, analysis, facts)[i];
                &&& 0 <= i < all_violations(world, analysis, facts).len()
                &&& violation.node == analysis.pins@[pin].node
                &&& violation.position == analysis.pins@[pin].position
                &&& violation.reason == ViolationReason::ExtraDriver
                &&& violation.drivers.contains((net, source))
            },
{
    let anchors = analysis.anchors@;
    let record = analysis.pins@[pin];
    let expected = record.contract->expected_net;
    let labels = all_components(world, facts).0;
    let told = all_violations(world, analysis, facts);
    all_that_is_wrong_is_told(world, analysis, facts);
    components_are_wires(world, facts, dust, source);
    assert(carries(world, facts, anchors, net, source));
    assert(drives_from(world, facts, anchors, net, source));
    assert(!belongs(world, facts, anchors, expected, source));
    let set = drivers_at(world, facts, labels, anchors, source);
    ascending_lists(set);
    let nets = ascending(set);
    let drivers = drivers_from(nets, source);
    assert forall|other: usize| #[trigger]
        drives_from(world, facts, anchors, other, source) <==> drivers.contains((other, source)) by {
        driving_is_driving(world, facts, anchors, other, source);
        if nets.contains(other) {
            let i = choose|i: int| 0 <= i < nets.len() && nets[i] == other;
            assert(drivers[i] == (other, source));
        }
        if drivers.contains((other, source)) {
            let i = choose|i: int| 0 <= i < drivers.len() && drivers[i] == (other, source);
            assert(nets[i] == other);
        }
    }
    assert forall|i: int, j: int| 0 <= i < j < drivers.len() implies (#[trigger] drivers[i]).0 < (
    #[trigger] drivers[j]).0 by {
        assert(comes_before(nets[i], nets[j]));
    }
    assert(are_drivers(world, facts, anchors, source, drivers));
    assert(drivers.contains((net, source)));
    let violation = ViolationView {
        node: record.node,
        position: record.position,
        drivers,
        reason: ViolationReason::ExtraDriver,
        confidence: ConnectivityConfidence::Certain,
    };
    assert(is_wrong(world, facts, anchors, analysis.pins@[pin], violation));
    assert(told.contains(violation));
    let i = choose|i: int| 0 <= i < told.len() && told[i] == violation;
    assert(told[i].drivers.contains((net, source)));
}

} // verus!

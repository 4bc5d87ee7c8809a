//! Checking that every pin of a layout is driven by what it is meant to be
//! driven by, and by nothing else.

use super::electrical::{
    all_components, block_index, electrical_components, find_links, links_of, ElectricalFacts, Labels,
};
use super::electrical_laws::{all_that_is_wrong_is_told, tells_all};
use crate::order::{
    ascending, ascending_is_unique, comes_before, insert_ascending, is_ascending, lists_set, reorder, stable_order,
    stable_order_distinct, stable_order_is_unique, the_stable_order, SortKey,
};
use crate::world::grid::World3D;
use crate::world::position::{in_bounds, is_next_to, position_before, Position};
use vstd::prelude::*;

verus! {

/// What a pin is meant to be driven by.
#[derive(Clone, Debug)]
pub enum PinContract {
    /// One net.
    Single { expected_net: usize },
    /// Several nets that meet.
    Merge { input_nets: Vec<usize> },
    /// Anything.
    Passive,
}

/// A pin of a placed node.
#[derive(Clone, Debug)]
pub struct PinRecord {
    pub node: usize,
    pub position: Position,
    pub contract: PinContract,
}

/// Where nets come from, and what pins expect.
#[derive(Clone, Debug)]
pub struct PlacedAnalysis {
    pub anchors: Vec<(usize, Position)>,
    pub pins: Vec<PinRecord>,
}

impl Default for PlacedAnalysis {
    fn default() -> (analysis: Self)
        ensures
            analysis.anchors@.len() == 0,
            analysis.pins@.len() == 0,
    {
        PlacedAnalysis { anchors: Vec::new(), pins: Vec::new() }
    }
}

/// How sure a violation is.
#[derive(Clone, Copy, Debug, PartialEq, Eq, PartialOrd, Ord, Structural)]
pub enum ConnectivityConfidence {
    /// It follows from the rules of redstone.
    Certain,
    /// It has to be simulated.
    SimulationRequired,
}

#[derive(Clone, Copy, Debug, PartialEq, Eq, PartialOrd, Ord, Structural)]
pub enum ViolationReason {
    /// A driver that does not belong to the expected net.
    ExtraDriver,
    /// An expected net that does not arrive.
    MissingBranch(usize),
    /// A net that is not expected.
    ForeignNet(usize),
}

/// A pin that is not driven as it is meant to be.
#[derive(Clone, Debug, PartialEq, Eq)]
pub struct Violation {
    pub node: usize,
    pub position: Position,
    pub drivers: Vec<(usize, Position)>,
    pub reason: ViolationReason,
    pub confidence: ConnectivityConfidence,
}

/// The contents of a [`Violation`].
pub ghost struct ViolationView {
    pub node: usize,
    pub position: Position,
    pub drivers: Seq<(usize, Position)>,
    pub reason: ViolationReason,
    pub confidence: ConnectivityConfidence,
}

impl View for Violation {
    type V = ViolationView;

    open spec fn view(&self) -> ViolationView {
        ViolationView {
            node: self.node,
            position: self.position,
            drivers: self.drivers@,
            reason: self.reason,
            confidence: self.confidence,
        }
    }
}

pub open spec fn violation_views(violations: Seq<Violation>) -> Seq<ViolationView> {
    violations.map_values(|violation: Violation| violation@)
}

// ---------------------------------------------------------------------------
// Anchors
// ---------------------------------------------------------------------------
/// Where a net comes from: the last of the first `count` anchors that names it.
pub open spec fn anchor_among(anchors: Seq<(usize, Position)>, net: usize, count: nat) -> Option<Position>
    decreases count,
{
    if count == 0 {
        None
    } else if anchors[count - 1].0 == net {
        Some(anchors[count - 1].1)
    } else {
        anchor_among(anchors, net, (count - 1) as nat)
    }
}

/// Where a net comes from.
pub open spec fn anchor_of(anchors: Seq<(usize, Position)>, net: usize) -> Option<Position> {
    anchor_among(anchors, net, anchors.len())
}

/// The net that comes from a cell: the first, from `start` on, that an anchor
/// puts there.
pub open spec fn net_from(anchors: Seq<(usize, Position)>, cell: Position, start: nat) -> Option<usize>
    decreases anchors.len() - start,
{
    if start >= anchors.len() {
        None
    } else if anchors[start as int].1 == cell {
        Some(anchors[start as int].0)
    } else {
        net_from(anchors, cell, start + 1)
    }
}

fn find_anchor(anchors: &Vec<(usize, Position)>, net: usize) -> (cell: Option<Position>)
    ensures
        cell == anchor_of(anchors@, net),
{
    let mut left: usize = anchors.len();
    while left > 0
        invariant
            left <= anchors.len(),
            anchor_of(anchors@, net) == anchor_among(anchors@, net, left as nat),
        decreases left,
    {
        if anchors[left - 1].0 == net {
            return Some(anchors[left - 1].1);
        }
        left -= 1;
    }
    None
}

fn find_net(anchors: &Vec<(usize, Position)>, cell: Position) -> (net: Option<usize>)
    ensures
        net == net_from(anchors@, cell, 0),
{
    let mut index: usize = 0;
    while index < anchors.len()
        invariant
            index <= anchors.len(),
            net_from(anchors@, cell, 0) == net_from(anchors@, cell, index as nat),
        decreases anchors.len() - index,
    {
        if anchors[index].1 == cell {
            return Some(anchors[index].0);
        }
        index += 1;
    }
    None
}

// ---------------------------------------------------------------------------
// Nets of components
// ---------------------------------------------------------------------------
/// Whether the block of a cell is in a component.
pub open spec fn cell_in(world: World3D, labels: Labels, cell: Position, id: usize) -> bool {
    exists|i: int| 0 <= i < world.listed().len() && (#[trigger] world.listed()[i]).0 == cell && labels[i] == Some(id)
}

/// Whether a powered cell puts its power into a component: it is dust of it, or
/// a support block next to dust of it.
pub open spec fn powers(world: World3D, labels: Labels, cell: Position, id: usize) -> bool {
    in_bounds(world.size, cell) && (if world.at(cell).kind is Redstone {
        cell_in(world, labels, cell, id)
    } else {
        world.at(cell).kind is Cobble && exists|beside: Position| #[trigger]
            is_next_to(cell, beside) && in_bounds(world.size, beside) && world.at(beside).kind is Redstone && cell_in(
                world,
                labels,
                beside,
                id,
            )
    })
}

/// Whether a net's terminal puts its power into a component.
pub open spec fn feeds(
    world: World3D,
    facts: ElectricalFacts,
    labels: Labels,
    anchors: Seq<(usize, Position)>,
    net: usize,
    id: usize,
) -> bool {
    match anchor_of(anchors, net) {
        None => false,
        Some(cell) => {
            let kind = world.at(cell).kind;
            let targets = links_of(facts.power_targets@, cell);
            &&& !(kind is Redstone) && !(kind is Cobble) && !(kind is Air)
            &&& exists|k: int| 0 <= k < targets.len() && powers(world, labels, #[trigger] targets[k], id)
        },
    }
}

/// The nets that feed a component.
pub open spec fn nets_of(
    world: World3D,
    facts: ElectricalFacts,
    labels: Labels,
    anchors: Seq<(usize, Position)>,
    id: usize,
) -> Set<usize> {
    Set::new(|net: usize| feeds(world, facts, labels, anchors, net, id))
}

/// The component of the block of a cell.
fn find_component(world: &World3D, labels: &Vec<Option<usize>>, cell: Position) -> (id: Option<usize>)
    requires
        world.wf(),
        labels@.len() == world.listed().len(),
    ensures
        match id {
            Some(id) => cell_in(*world, labels@, cell, id),
            None => true,
        },
        forall|other: usize| #[trigger] cell_in(*world, labels@, cell, other) ==> id == Some(other),
{
    match block_index(world, cell) {
        None => None,
        Some(index) => {
            proof {
                assert forall|other: usize| #[trigger] cell_in(*world, labels@, cell, other) implies labels@[index as int]
                    == Some(other) by {
                    let i = choose|i: int|
                        0 <= i < world.listed().len() && (#[trigger] world.listed()[i]).0 == cell && labels@[i] == Some(
                            other,
                        );
                    if i < index {
                        assert(position_before(world.listed()[i].0, world.listed()[index as int].0));
                    } else if i > index {
                        assert(position_before(world.listed()[index as int].0, world.listed()[i].0));
                    }
                }
                assert(world.listed()[index as int].0 == cell);
            }
            labels[index]
        },
    }
}

/// Adds the components that a powered cell puts its power into.
fn collect_powered(world: &World3D, labels: &Vec<Option<usize>>, cell: Position, found: &mut Vec<usize>)
    requires
        world.wf(),
        labels@.len() == world.listed().len(),
        is_ascending(old(found)@),
    ensures
        is_ascending(final(found)@),
        forall|id: usize| #[trigger]
            final(found)@.contains(id) <==> old(found)@.contains(id) || powers(*world, labels@, cell, id),
{
    if !world.size.bound_on(cell) {
        return;
    }
    let kind = world.get(cell).kind;
    if kind.is_redstone() {
        if let Some(id) = find_component(world, labels, cell) {
            insert_ascending(found, id);
        }
    } else if kind.is_cobble() {
        let ghost before = found@;
        let cells = cell.forwards();
        let mut index: usize = 0;
        while index < cells.len()
            invariant
                index <= cells.len(),
                world.wf(),
                labels@.len() == world.listed().len(),
                before == old(found)@,
                is_ascending(found@),
                forall|id: usize| #[trigger]
                    found@.contains(id) <==> before.contains(id) || exists|k: int|
                        0 <= k < index && in_bounds(world.size, #[trigger] cells@[k]) && world.at(cells@[k]).kind is Redstone
                            && cell_in(*world, labels@, cells@[k], id),
            decreases cells.len() - index,
        {
            let beside = cells[index];
            let ghost so_far = found@;
            let mut joined: Option<usize> = None;
            if world.size.bound_on(beside) && world.get(beside).kind.is_redstone() {
                joined = find_component(world, labels, beside);
                if let Some(id) = joined {
                    insert_ascending(found, id);
                }
            }
            proof {
                assert forall|id: usize| #[trigger] found@.contains(id) <==> before.contains(id) || exists|k: int|
                    0 <= k < index + 1 && in_bounds(world.size, #[trigger] cells@[k]) && world.at(
                        cells@[k],
                    ).kind is Redstone && cell_in(*world, labels@, cells@[k], id) by {
                    if so_far.contains(id) && !before.contains(id) {
                        let k = choose|k: int|
                            0 <= k < index && in_bounds(world.size, #[trigger] cells@[k]) && world.at(
                                cells@[k],
                            ).kind is Redstone && cell_in(*world, labels@, cells@[k], id);
                        assert(cell_in(*world, labels@, cells@[k], id));
                    }
                    if joined == Some(id) {
                        assert(cell_in(*world, labels@, cells@[index as int], id));
                    }
                    if exists|k: int|
                        0 <= k < index + 1 && in_bounds(world.size, #[trigger] cells@[k]) && world.at(
                            cells@[k],
                        ).kind is Redstone && cell_in(*world, labels@, cells@[k], id) {
                        let k = choose|k: int|
                            0 <= k < index + 1 && in_bounds(world.size, #[trigger] cells@[k]) && world.at(
                                cells@[k],
                            ).kind is Redstone && cell_in(*world, labels@, cells@[k], id);
                        if k == index {
                            assert(joined == Some(id));
                        } else {
                            assert(so_far.contains(id));
                        }
                    }
                }
            }
            index += 1;
        }
        proof {
            assert forall|id: usize| #[trigger] found@.contains(id) <==> before.contains(id) || powers(
                *world,
                labels@,
                cell,
                id,
            ) by {
                if powers(*world, labels@, cell, id) {
                    let beside = choose|beside: Position| #[trigger]
                        is_next_to(cell, beside) && in_bounds(world.size, beside) && world.at(beside).kind is Redstone
                            && cell_in(*world, labels@, beside, id);
                    assert(cells@.contains(beside));
                    let k = choose|k: int| 0 <= k < cells.len() && cells@[k] == beside;
                    assert(cell_in(*world, labels@, cells@[k], id));
                }
                if found@.contains(id) && !before.contains(id) {
                    let k = choose|k: int|
                        0 <= k < index && in_bounds(world.size, #[trigger] cells@[k]) && world.at(
                            cells@[k],
                        ).kind is Redstone && cell_in(*world, labels@, cells@[k], id);
                    assert(is_next_to(cell, cells@[k]));
                }
            }
        }
    }
}

/// The components that a net feeds.
fn components_fed(
    world: &World3D,
    facts: &ElectricalFacts,
    labels: &Vec<Option<usize>>,
    anchors: &Vec<(usize, Position)>,
    net: usize,
) -> (fed: Vec<usize>)
    requires
        world.wf(),
        labels@.len() == world.listed().len(),
    ensures
        is_ascending(fed@),
        forall|id: usize| #[trigger] fed@.contains(id) <==> feeds(*world, *facts, labels@, anchors@, net, id),
{
    let mut fed: Vec<usize> = Vec::new();
    let cell = match find_anchor(anchors, net) {
        None => return fed,
        Some(cell) => cell,
    };
    let kind = world.get(cell).kind;
    if kind.is_redstone() || kind.is_cobble() || kind.is_air() {
        return fed;
    }
    let targets = find_links(&facts.power_targets, cell);
    let mut index: usize = 0;
    while index < targets.len()
        invariant
            index <= targets.len(),
            world.wf(),
            labels@.len() == world.listed().len(),
            is_ascending(fed@),
            forall|id: usize| #[trigger]
                fed@.contains(id) <==> exists|k: int| 0 <= k < index && powers(*world, labels@, #[trigger] targets@[k], id),
        decreases targets.len() - index,
    {
        let ghost before = fed@;
        collect_powered(world, labels, targets[index], &mut fed);
        proof {
            assert forall|id: usize| #[trigger] fed@.contains(id) <==> exists|k: int|
                0 <= k < index + 1 && powers(*world, labels@, #[trigger] targets@[k], id) by {
                if before.contains(id) {
                    let k = choose|k: int| 0 <= k < index && powers(*world, labels@, #[trigger] targets@[k], id);
                    assert(powers(*world, labels@, targets@[k], id));
                }
                if powers(*world, labels@, targets@[index as int], id) {
                    assert(fed@.contains(id));
                }
                if exists|k: int| 0 <= k < index + 1 && powers(*world, labels@, #[trigger] targets@[k], id) {
                    let k = choose|k: int| 0 <= k < index + 1 && powers(*world, labels@, #[trigger] targets@[k], id);
                    if k < index {
                        assert(before.contains(id));
                    }
                }
            }
        }
        index += 1;
    }
    fed
}

/// The nets that feed a component, in order.
fn nets_feeding(
    world: &World3D,
    facts: &ElectricalFacts,
    labels: &Vec<Option<usize>>,
    anchors: &Vec<(usize, Position)>,
    id: usize,
) -> (nets: Vec<usize>)
    requires
        world.wf(),
        labels@.len() == world.listed().len(),
    ensures
        lists_set(nets@, nets_of(*world, *facts, labels@, anchors@, id)),
        nets@ == ascending(nets_of(*world, *facts, labels@, anchors@, id)),
{
    let mut nets: Vec<usize> = Vec::new();
    let mut index: usize = 0;
    while index < anchors.len()
        invariant
            index <= anchors.len(),
            world.wf(),
            labels@.len() == world.listed().len(),
            is_ascending(nets@),
            forall|net: usize| #[trigger]
                nets@.contains(net) <==> feeds(*world, *facts, labels@, anchors@, net, id) && exists|k: int|
                    0 <= k < index && (#[trigger] anchors@[k]).0 == net,
        decreases anchors.len() - index,
    {
        let net: usize = anchors[index].0;
        let fed = components_fed(world, facts, labels, anchors, net);
        let mut part: usize = 0;
        let mut found = false;
        while part < fed.len()
            invariant
                part <= fed.len(),
                found <==> exists|k: int| 0 <= k < part && #[trigger] fed@[k] == id,
            decreases fed.len() - part,
        {
            if fed[part] == id {
                assert(fed@[part as int] == id);
                found = true;
            }
            part += 1;
        }
        assert(found == fed@.contains(id));
        let ghost before = nets@;
        if found {
            insert_ascending(&mut nets, net);
        }
        proof {
            assert forall|other: usize| #[trigger] nets@.contains(other) <==> feeds(
                *world,
                *facts,
                labels@,
                anchors@,
                other,
                id,
            ) && exists|k: int| 0 <= k < index + 1 && (#[trigger] anchors@[k]).0 == other by {
                if before.contains(other) {
                    let k = choose|k: int| 0 <= k < index && (#[trigger] anchors@[k]).0 == other;
                    assert(anchors@[k].0 == other);
                }
                if other == net {
                    assert(anchors@[index as int].0 == other);
                }
                if exists|k: int| 0 <= k < index + 1 && (#[trigger] anchors@[k]).0 == other {
                    let k = choose|k: int| 0 <= k < index + 1 && (#[trigger] anchors@[k]).0 == other;
                    if k < index {
                        assert(anchors@[k].0 == other);
                    }
                }
            }
        }
        index += 1;
    }
    proof {
        let set = nets_of(*world, *facts, labels@, anchors@, id);
        assert forall|net: usize| #[trigger] nets@.contains(net) <==> set.contains(net) by {
            if feeds(*world, *facts, labels@, anchors@, net, id) {
                let k = anchored(anchors@, net, anchors@.len());
                assert(anchors@[k].0 == net);
            }
        }
        ascending_is_unique(nets@, set);
    }
    nets
}

/// A net that comes from somewhere is named by an anchor.
proof fn anchored(anchors: Seq<(usize, Position)>, net: usize, count: nat) -> (index: int)
    requires
        count <= anchors.len(),
        anchor_among(anchors, net, count) is Some,
    ensures
        0 <= index < count,
        anchors[index].0 == net,
    decreases count,
{
    if anchors[count - 1].0 == net {
        count - 1
    } else {
        anchored(anchors, net, (count - 1) as nat)
    }
}

// ---------------------------------------------------------------------------
// Drivers
// ---------------------------------------------------------------------------
/// Whether a net may drive from a cell: a net that is dust from the dust of its
/// component, another from its own cell and the dust of components that it
/// feeds alone.
pub open spec fn may_drive(
    world: World3D,
    facts: ElectricalFacts,
    labels: Labels,
    anchors: Seq<(usize, Position)>,
    net: usize,
    cell: Position,
) -> bool {
    match anchor_of(anchors, net) {
        None => false,
        Some(anchor) => if world.at(anchor).kind is Redstone {
            exists|id: usize| #[trigger] cell_in(world, labels, anchor, id) && cell_in(world, labels, cell, id)
        } else {
            cell == anchor || exists|id: usize| #[trigger]
                cell_in(world, labels, cell, id) && nets_of(world, facts, labels, anchors, id) =~= set![net]
        },
    }
}

/// The nets that drive from a cell: those that feed the component of its dust,
/// or the net that comes from it.
pub open spec fn drivers_at(
    world: World3D,
    facts: ElectricalFacts,
    labels: Labels,
    anchors: Seq<(usize, Position)>,
    cell: Position,
) -> Set<usize> {
    if world.at(cell).kind is Redstone {
        Set::new(
            |net: usize|
                exists|id: usize| #[trigger]
                    cell_in(world, labels, cell, id) && feeds(world, facts, labels, anchors, net, id),
        )
    } else {
        match net_from(anchors, cell, 0) {
            Some(net) => set![net],
            None => set![],
        }
    }
}

fn is_allowed(
    world: &World3D,
    facts: &ElectricalFacts,
    labels: &Vec<Option<usize>>,
    anchors: &Vec<(usize, Position)>,
    net: usize,
    cell: Position,
) -> (allowed: bool)
    requires
        world.wf(),
        labels@.len() == world.listed().len(),
    ensures
        allowed == may_drive(*world, *facts, labels@, anchors@, net, cell),
{
    let anchor = match find_anchor(anchors, net) {
        None => return false,
        Some(anchor) => anchor,
    };
    let component = find_component(world, labels, cell);
    if world.get(anchor).kind.is_redstone() {
        let own = find_component(world, labels, anchor);
        return match (own, component) {
            (Some(left), Some(right)) => {
                proof {
                    if left == right {
                        assert(cell_in(*world, labels@, anchor, left) && cell_in(*world, labels@, cell, left));
                    }
                }
                left == right
            },
            _ => false,
        };
    }
    if cell == anchor {
        return true;
    }
    match component {
        None => false,
        Some(id) => {
            let nets = nets_feeding(world, facts, labels, anchors, id);
            let ghost set = nets_of(*world, *facts, labels@, anchors@, id);
            let alone = nets.len() == 1 && nets[0] == net;
            proof {
                if alone {
                    assert forall|other: usize| set.contains(other) <==> set![net].contains(other) by {
                        assert(nets@.contains(other) <==> set.contains(other));
                        assert(nets@[0] == net);
                    }
                    assert(set =~= set![net]);
                    assert(cell_in(*world, labels@, cell, id));
                } else if set =~= set![net] {
                    assert(set.contains(net));
                    assert(nets@.contains(net));
                    let k = choose|k: int| 0 <= k < nets.len() && nets@[k] == net;
                    if nets.len() > 1 {
                        let j: int = if k == 0 { 1 } else { 0 };
                        assert(nets@.contains(nets@[j]));
                        assert(set.contains(nets@[j]));
                        assert(set![net].contains(nets@[j]));
                        assert(nets@[j] == net);
                        assert(nets@[0].before(&nets@[1])) by {
                            assert(comes_before(nets@[0], nets@[1]));
                        }
                    }
                }
            }
            alone
        },
    }
}

fn driver_nets(
    world: &World3D,
    facts: &ElectricalFacts,
    labels: &Vec<Option<usize>>,
    anchors: &Vec<(usize, Position)>,
    cell: Position,
) -> (nets: Vec<usize>)
    requires
        world.wf(),
        labels@.len() == world.listed().len(),
    ensures
        nets@ == ascending(drivers_at(*world, *facts, labels@, anchors@, cell)),
        lists_set(nets@, drivers_at(*world, *facts, labels@, anchors@, cell)),
{
    let ghost set = drivers_at(*world, *facts, labels@, anchors@, cell);
    let mut nets: Vec<usize> = Vec::new();
    if world.get(cell).kind.is_redstone() {
        if let Some(id) = find_component(world, labels, cell) {
            nets = nets_feeding(world, facts, labels, anchors, id);
            assert(nets_of(*world, *facts, labels@, anchors@, id) =~= set);
        }
    } else {
        if let Some(net) = find_net(anchors, cell) {
            nets.push(net);
            assert(nets@[0] == net);
        }
    }
    proof {
        assert forall|net: usize| #[trigger] nets@.contains(net) <==> set.contains(net) by {}
        ascending_is_unique(nets@, set);
    }
    nets
}

// ---------------------------------------------------------------------------
// Violations
// ---------------------------------------------------------------------------
/// Nets, each with the cell that it drives from.
pub open spec fn drivers_from(nets: Seq<usize>, cell: Position) -> Seq<(usize, Position)> {
    nets.map_values(|net: usize| (net, cell))
}

/// The violations of a pin that expects one net: each of its first `count`
/// sources that drives and may not.
pub open spec fn extra_drivers(
    world: World3D,
    facts: ElectricalFacts,
    labels: Labels,
    anchors: Seq<(usize, Position)>,
    pin: PinRecord,
    expected: usize,
    count: nat,
) -> Seq<ViolationView>
    decreases count,
{
    if count == 0 {
        Seq::empty()
    } else {
        let rest = extra_drivers(world, facts, labels, anchors, pin, expected, (count - 1) as nat);
        let source = links_of(facts.cobble_sources@, pin.position)[count - 1];
        let drivers = ascending(drivers_at(world, facts, labels, anchors, source));
        if may_drive(world, facts, labels, anchors, expected, source) || drivers.len() == 0 {
            rest
        } else {
            rest.push(
                ViolationView {
                    node: pin.node,
                    position: pin.position,
                    drivers: drivers_from(drivers, source),
                    reason: ViolationReason::ExtraDriver,
                    confidence: ConnectivityConfidence::Certain,
                },
            )
        }
    }
}

/// The violation of a pin that a net does not reach.
pub open spec fn missing_branch(pin: PinRecord, net: usize) -> ViolationView {
    ViolationView {
        node: pin.node,
        position: pin.position,
        drivers: Seq::empty(),
        reason: ViolationReason::MissingBranch(net),
        confidence: ConnectivityConfidence::SimulationRequired,
    }
}

/// The violation of a pin that a net reaches and should not.
pub open spec fn foreign_net(pin: PinRecord, net: usize) -> ViolationView {
    ViolationView {
        node: pin.node,
        position: pin.position,
        drivers: seq![(net, pin.position)],
        reason: ViolationReason::ForeignNet(net),
        confidence: ConnectivityConfidence::SimulationRequired,
    }
}

/// The nets that reach the component of a cell, if it is in one.
pub open spec fn arriving(
    world: World3D,
    facts: ElectricalFacts,
    labels: Labels,
    anchors: Seq<(usize, Position)>,
    cell: Position,
) -> Set<usize> {
    Set::new(
        |net: usize|
            exists|id: usize| #[trigger]
                cell_in(world, labels, cell, id) && feeds(world, facts, labels, anchors, net, id),
    )
}

/// The violations of a pin where nets meet: each expected net that does not
/// arrive, then each net that arrives and is not expected.
pub open spec fn merge_violations(
    world: World3D,
    facts: ElectricalFacts,
    labels: Labels,
    anchors: Seq<(usize, Position)>,
    pin: PinRecord,
    expected: Set<usize>,
) -> Seq<ViolationView> {
    let actual = arriving(world, facts, labels, anchors, pin.position);
    ascending(expected.difference(actual)).map_values(|net: usize| missing_branch(pin, net)) + ascending(
        actual.difference(expected),
    ).map_values(|net: usize| foreign_net(pin, net))
}

/// The violations of a pin.
pub open spec fn pin_violations(
    world: World3D,
    facts: ElectricalFacts,
    labels: Labels,
    anchors: Seq<(usize, Position)>,
    pin: PinRecord,
) -> Seq<ViolationView> {
    match pin.contract {
        PinContract::Single { expected_net } => extra_drivers(
            world,
            facts,
            labels,
            anchors,
            pin,
            expected_net,
            links_of(facts.cobble_sources@, pin.position).len(),
        ),
        PinContract::Merge { input_nets } => merge_violations(
            world,
            facts,
            labels,
            anchors,
            pin,
            input_nets@.to_set(),
        ),
        PinContract::Passive => Seq::empty(),
    }
}

/// The violations of the first `count` pins.
pub open spec fn found_violations(
    world: World3D,
    facts: ElectricalFacts,
    labels: Labels,
    anchors: Seq<(usize, Position)>,
    pins: Seq<PinRecord>,
    count: nat,
) -> Seq<ViolationView>
    decreases count,
{
    if count == 0 {
        Seq::empty()
    } else {
        found_violations(world, facts, labels, anchors, pins, (count - 1) as nat) + pin_violations(
            world,
            facts,
            labels,
            anchors,
            pins[count - 1],
        )
    }
}

/// By what violations are ordered: node, cell, reason and confidence.
#[derive(Clone, Copy, Debug, PartialEq, Eq, Structural)]
pub struct ViolationKey {
    pub node: usize,
    pub position: Position,
    pub reason: usize,
    pub net: usize,
    pub confidence: usize,
}

impl SortKey for ViolationKey {
    open spec fn before(&self, other: &Self) -> bool {
        if self.node != other.node {
            self.node < other.node
        } else if self.position != other.position {
            position_before(self.position, other.position)
        } else if self.reason != other.reason {
            self.reason < other.reason
        } else if self.net != other.net {
            self.net < other.net
        } else {
            self.confidence < other.confidence
        }
    }

    fn is_before(&self, other: &Self) -> (before: bool) {
        if self.node != other.node {
            self.node < other.node
        } else if self.position != other.position {
            self.position.is_before(&other.position)
        } else if self.reason != other.reason {
            self.reason < other.reason
        } else if self.net != other.net {
            self.net < other.net
        } else {
            self.confidence < other.confidence
        }
    }

    proof fn before_asymmetric(&self, other: &Self) {
    }

    proof fn not_before_transitive(&self, middle: &Self, other: &Self) {
    }
}

/// By what a violation is ordered.
pub open spec fn violation_key(violation: ViolationView) -> ViolationKey {
    ViolationKey {
        node: violation.node,
        position: violation.position,
        reason: match violation.reason {
            ViolationReason::ExtraDriver => 0,
            ViolationReason::MissingBranch(_) => 1,
            ViolationReason::ForeignNet(_) => 2,
        },
        net: match violation.reason {
            ViolationReason::ExtraDriver => 0,
            ViolationReason::MissingBranch(net) => net,
            ViolationReason::ForeignNet(net) => net,
        },
        confidence: match violation.confidence {
            ConnectivityConfidence::Certain => 0,
            ConnectivityConfidence::SimulationRequired => 1,
        },
    }
}

fn key_of(violation: &Violation) -> (key: ViolationKey)
    ensures
        key == violation_key(violation@),
{
    let (reason, net): (usize, usize) = match violation.reason {
        ViolationReason::ExtraDriver => (0, 0),
        ViolationReason::MissingBranch(net) => (1, net),
        ViolationReason::ForeignNet(net) => (2, net),
    };
    let confidence: usize = match violation.confidence {
        ConnectivityConfidence::Certain => 0,
        ConnectivityConfidence::SimulationRequired => 1,
    };
    ViolationKey { node: violation.node, position: violation.position, reason, net, confidence }
}

/// Violations in order.
pub open spec fn in_key_order(violations: Seq<ViolationView>) -> Seq<ViolationView> {
    let order = the_stable_order(violations.map_values(|violation: ViolationView| violation_key(violation)));
    Seq::new(violations.len(), |i: int| violations[order[i] as int])
}

/// The violations of a layout.
pub open spec fn all_violations(world: World3D, analysis: PlacedAnalysis, facts: ElectricalFacts) -> Seq<ViolationView> {
    let labels = all_components(world, facts).0;
    in_key_order(
        found_violations(world, facts, labels, analysis.anchors@, analysis.pins@, analysis.pins@.len()),
    )
}

fn with_cell(nets: &Vec<usize>, cell: Position) -> (drivers: Vec<(usize, Position)>)
    ensures
        drivers@ == drivers_from(nets@, cell),
{
    let mut drivers: Vec<(usize, Position)> = Vec::new();
    let mut index: usize = 0;
    while index < nets.len()
        invariant
            index <= nets.len(),
            drivers.len() == index,
            forall|i: int| 0 <= i < index ==> #[trigger] drivers[i] == (nets[i], cell),
        decreases nets.len() - index,
    {
        drivers.push((nets[index], cell));
        index += 1;
    }
    assert(drivers@ =~= drivers_from(nets@, cell));
    drivers
}

fn check_single(
    world: &World3D,
    facts: &ElectricalFacts,
    labels: &Vec<Option<usize>>,
    anchors: &Vec<(usize, Position)>,
    pin: &PinRecord,
    expected: usize,
    violations: &mut Vec<Violation>,
)
    requires
        world.wf(),
        labels@.len() == world.listed().len(),
    ensures
        violation_views(final(violations)@) == violation_views(old(violations)@) + extra_drivers(
            *world,
            *facts,
            labels@,
            anchors@,
            *pin,
            expected,
            links_of(facts.cobble_sources@, pin.position).len(),
        ),
{
    let ghost before = violation_views(violations@);
    let sources = find_links(&facts.cobble_sources, pin.position);
    assert(before + Seq::<ViolationView>::empty() =~= before);
    let mut index: usize = 0;
    while index < sources.len()
        invariant
            index <= sources.len(),
            world.wf(),
            labels@.len() == world.listed().len(),
            sources@ == links_of(facts.cobble_sources@, pin.position),
            violation_views(violations@) == before + extra_drivers(
                *world,
                *facts,
                labels@,
                anchors@,
                *pin,
                expected,
                index as nat,
            ),
        decreases sources.len() - index,
    {
        let source = sources[index];
        if !is_allowed(world, facts, labels, anchors, expected, source) {
            let nets = driver_nets(world, facts, labels, anchors, source);
            if nets.len() > 0 {
                let drivers = with_cell(&nets, source);
                let ghost all = violation_views(violations@);
                let violation = Violation {
                    node: pin.node,
                    position: pin.position,
                    drivers,
                    reason: ViolationReason::ExtraDriver,
                    confidence: ConnectivityConfidence::Certain,
                };
                let ghost added = violation@;
                violations.push(violation);
                assert(violation_views(violations@) =~= all.push(added));
                assert(violation_views(violations@) =~= before + extra_drivers(
                    *world,
                    *facts,
                    labels@,
                    anchors@,
                    *pin,
                    expected,
                    (index + 1) as nat,
                ));
            }
        }
        index += 1;
    }
}

/// The nets of one list that are not in another.
fn without(nets: &Vec<usize>, others: &Vec<usize>, Ghost(set): Ghost<Set<usize>>, Ghost(other_set): Ghost<Set<usize>>) -> (rest:
    Vec<usize>)
    requires
        lists_set(nets@, set),
        forall|net: usize| #[trigger] others@.contains(net) <==> other_set.contains(net),
    ensures
        rest@ == ascending(set.difference(other_set)),
{
    let mut rest: Vec<usize> = Vec::new();
    let mut index: usize = 0;
    while index < nets.len()
        invariant
            index <= nets.len(),
            forall|net: usize| #[trigger] others@.contains(net) <==> other_set.contains(net),
            is_ascending(rest@),
            forall|net: usize| #[trigger]
                rest@.contains(net) <==> !other_set.contains(net) && exists|k: int| 0 <= k < index && #[trigger] nets@[k] == net,
        decreases nets.len() - index,
    {
        let net: usize = nets[index];
        let ghost before = rest@;
        let known = has_net(others, net);
        if !known {
            insert_ascending(&mut rest, net);
        }
        proof {
            assert(known == other_set.contains(net));
            assert forall|other: usize| #[trigger] rest@.contains(other) <==> !other_set.contains(other) && exists|k: int|
                0 <= k < index + 1 && #[trigger] nets@[k] == other by {
                if before.contains(other) {
                    let k = choose|k: int| 0 <= k < index && #[trigger] nets@[k] == other;
                    assert(nets@[k] == other);
                }
                if other == net {
                    assert(nets@[index as int] == other);
                }
                if exists|k: int| 0 <= k < index + 1 && #[trigger] nets@[k] == other {
                    let k = choose|k: int| 0 <= k < index + 1 && #[trigger] nets@[k] == other;
                    if k < index {
                        assert(nets@[k] == other);
                    }
                }
            }
        }
        index += 1;
    }
    proof {
        let set = set.difference(other_set);
        assert forall|net: usize| #[trigger] rest@.contains(net) <==> set.contains(net) by {
            assert(nets@.contains(net) <==> exists|k: int| 0 <= k < index && #[trigger] nets@[k] == net);
        }
        ascending_is_unique(rest@, set);
    }
    rest
}

fn has_net(nets: &Vec<usize>, net: usize) -> (found: bool)
    ensures
        found == nets@.contains(net),
{
    let mut index: usize = 0;
    while index < nets.len()
        invariant
            index <= nets.len(),
            forall|k: int| 0 <= k < index ==> #[trigger] nets@[k] != net,
        decreases nets.len() - index,
    {
        if nets[index] == net {
            assert(nets@[index as int] == net);
            return true;
        }
        index += 1;
    }
    false
}

fn check_merge(
    world: &World3D,
    facts: &ElectricalFacts,
    labels: &Vec<Option<usize>>,
    anchors: &Vec<(usize, Position)>,
    pin: &PinRecord,
    input_nets: &Vec<usize>,
    violations: &mut Vec<Violation>,
)
    requires
        world.wf(),
        labels@.len() == world.listed().len(),
    ensures
        violation_views(final(violations)@) == violation_views(old(violations)@) + merge_violations(
            *world,
            *facts,
            labels@,
            anchors@,
            *pin,
            input_nets@.to_set(),
        ),
{
    let ghost before = violation_views(violations@);
    let ghost wanted = input_nets@.to_set();
    let ghost there = arriving(*world, *facts, labels@, anchors@, pin.position);
    let mut expected: Vec<usize> = Vec::new();
    let mut index: usize = 0;
    while index < input_nets.len()
        invariant
            index <= input_nets.len(),
            is_ascending(expected@),
            forall|net: usize| #[trigger]
                expected@.contains(net) <==> exists|k: int| 0 <= k < index && #[trigger] input_nets@[k] == net,
        decreases input_nets.len() - index,
    {
        let ghost so_far = expected@;
        insert_ascending(&mut expected, input_nets[index]);
        proof {
            assert forall|net: usize| #[trigger] expected@.contains(net) <==> exists|k: int|
                0 <= k < index + 1 && #[trigger] input_nets@[k] == net by {
                if so_far.contains(net) {
                    let k = choose|k: int| 0 <= k < index && #[trigger] input_nets@[k] == net;
                    assert(input_nets@[k] == net);
                }
                if net == input_nets@[index as int] {
                    assert(input_nets@[index as int] == net);
                }
            }
        }
        index += 1;
    }
    let mut actual: Vec<usize> = Vec::new();
    if let Some(id) = find_component(world, labels, pin.position) {
        actual = nets_feeding(world, facts, labels, anchors, id);
        assert(nets_of(*world, *facts, labels@, anchors@, id) =~= there);
    }
    proof {
        assert forall|net: usize| #[trigger] expected@.contains(net) <==> wanted.contains(net) by {
            assert(wanted.contains(net) <==> input_nets@.contains(net));
        }
        assert forall|net: usize| #[trigger] actual@.contains(net) <==> there.contains(net) by {}
    }
    let missing = without(&expected, &actual, Ghost(wanted), Ghost(there));
    let foreign = without(&actual, &expected, Ghost(there), Ghost(wanted));
    let ghost absent = missing@.map_values(|net: usize| missing_branch(*pin, net));
    let ghost strange = foreign@.map_values(|net: usize| foreign_net(*pin, net));
    assert(before + absent.take(0) =~= before);
    let mut index: usize = 0;
    while index < missing.len()
        invariant
            index <= missing.len(),
            absent == missing@.map_values(|net: usize| missing_branch(*pin, net)),
            violation_views(violations@) == before + absent.take(index as int),
        decreases missing.len() - index,
    {
        let ghost all = violation_views(violations@);
        let drivers: Vec<(usize, Position)> = Vec::new();
        assert(drivers@ =~= Seq::<(usize, Position)>::empty());
        let violation = Violation {
            node: pin.node,
            position: pin.position,
            drivers,
            reason: ViolationReason::MissingBranch(missing[index]),
            confidence: ConnectivityConfidence::SimulationRequired,
        };
        let ghost added = violation@;
        assert(added == absent[index as int]);
        violations.push(violation);
        assert(violation_views(violations@) =~= all.push(added));
        assert(violation_views(violations@) =~= before + absent.take(index + 1));
        index += 1;
    }
    assert(absent.take(index as int) =~= absent);
    assert(before + absent + strange.take(0) =~= before + absent);
    let mut index: usize = 0;
    while index < foreign.len()
        invariant
            index <= foreign.len(),
            strange == foreign@.map_values(|net: usize| foreign_net(*pin, net)),
            violation_views(violations@) == before + absent + strange.take(index as int),
        decreases foreign.len() - index,
    {
        let ghost all = violation_views(violations@);
        let drivers: Vec<(usize, Position)> = vec![(foreign[index], pin.position)];
        assert(drivers@ =~= seq![(foreign[index as int], pin.position)]);
        let violation = Violation {
            node: pin.node,
            position: pin.position,
            drivers,
            reason: ViolationReason::ForeignNet(foreign[index]),
            confidence: ConnectivityConfidence::SimulationRequired,
        };
        let ghost added = violation@;
        assert(added == strange[index as int]);
        violations.push(violation);
        assert(violation_views(violations@) =~= all.push(added));
        assert(violation_views(violations@) =~= before + absent + strange.take(index + 1));
        index += 1;
    }
    assert(strange.take(index as int) =~= strange);
    assert(before + absent + strange =~= before + (absent + strange));
}

/// Checks every pin of a layout against what it expects. The violations come in
/// order of node, cell, reason and confidence.
pub fn analyze(world: &World3D, analysis: &PlacedAnalysis, facts: &ElectricalFacts) -> (violations: Vec<Violation>)
    requires
        world.wf(),
        forall|i: int|
            0 <= i < analysis.anchors.len() ==> in_bounds(world.size, (#[trigger] analysis.anchors[i]).1),
    ensures
        violation_views(violations@) == all_violations(*world, *analysis, *facts),
        tells_all(*world, *analysis, *facts, violation_views(violations@)),
{
    let (labels, _) = electrical_components(world, facts);
    let mut violations: Vec<Violation> = Vec::new();
    assert(violation_views(violations@) =~= Seq::<ViolationView>::empty());
    let mut index: usize = 0;
    while index < analysis.pins.len()
        invariant
            index <= analysis.pins.len(),
            world.wf(),
            labels@.len() == world.listed().len(),
            violation_views(violations@) == found_violations(
                *world,
                *facts,
                labels@,
                analysis.anchors@,
                analysis.pins@,
                index as nat,
            ),
        decreases analysis.pins.len() - index,
    {
        let pin = &analysis.pins[index];
        match &pin.contract {
            PinContract::Single { expected_net } => {
                check_single(world, facts, &labels, &analysis.anchors, pin, *expected_net, &mut violations);
            },
            PinContract::Merge { input_nets } => {
                check_merge(world, facts, &labels, &analysis.anchors, pin, input_nets, &mut violations);
            },
            PinContract::Passive => {
                assert(violation_views(violations@) + Seq::<ViolationView>::empty() =~= violation_views(violations@));
            },
        }
        index += 1;
    }
    let ghost found = violation_views(violations@);
    let ghost keys_of = found.map_values(|violation: ViolationView| violation_key(violation));
    let mut keys: Vec<ViolationKey> = Vec::new();
    let mut index: usize = 0;
    while index < violations.len()
        invariant
            index <= violations.len(),
            found == violation_views(violations@),
            keys.len() == index,
            forall|i: int| 0 <= i < index ==> #[trigger] keys[i] == violation_key(found[i]),
        decreases violations.len() - index,
    {
        keys.push(key_of(&violations[index]));
        index += 1;
    }
    assert(keys@ =~= keys_of);
    let order = stable_order(&keys);
    proof {
        stable_order_is_unique(keys@, order@);
        stable_order_distinct(keys@, order@);
    }
    let sorted = reorder(violations, &order);
    assert(violation_views(sorted@) =~= in_key_order(found));
    proof {
        assert(sorted.len() as nat == all_violations(*world, *analysis, *facts).len());
        all_that_is_wrong_is_told(*world, *analysis, *facts);
    }
    sorted
}

} // verus!

//! Routes and the ways to search for them.

use super::state::{PoweredRouteSource, MAX_REDSTONE_STRENGTH};
use crate::world::grid::{copy_placed, Placed};
use crate::world::position::Position;
use vstd::prelude::*;

verus! {

/// In what order the ends of routes are extended.
#[derive(Clone, Copy, Debug, PartialEq, Eq, Structural)]
pub enum GlobalRoutingStrategy {
    /// The oldest first.
    BreadthFirst,
    /// The cheapest first.
    AStar,
    /// Only the cheapest, which replaces the others.
    DirectGreedy { max_steps: usize },
    /// The cheapest first, of a limited number.
    GreedyBeam {
        beam_width: usize,
        max_expansions: usize,
        /// Varies the choice among routes of equal cost.
        variant_seed: u64,
    },
}

/// One end of a net: a port of the design or of one of its instances.
#[derive(Clone, Copy, Debug, PartialEq, Eq, Structural)]
pub enum ResolvedEndpoint {
    TopPort { port: usize },
    InstancePort { instance: usize, port: usize },
}

/// A route between two cells.
#[derive(Clone, Debug)]
pub struct RoutedNet {
    /// The net that the route belongs to, once it is known.
    pub net_id: Option<usize>,
    pub source_endpoint: Option<ResolvedEndpoint>,
    pub sink_endpoint: Option<ResolvedEndpoint>,
    pub source_label: Option<String>,
    pub sink_label: Option<String>,
    pub source: Position,
    pub sink: Position,
    /// The blocks that the route adds.
    pub blocks: Vec<Placed>,
    pub path: Vec<Position>,
    /// Cells that have power while the source has.
    pub required_powered_positions: Vec<Position>,
    /// Cells that have none while the source has none.
    pub required_released_positions: Vec<Position>,
    /// Cells from which the signal can be taken up, and how strong it is there.
    pub powered_taps: Vec<(Position, usize)>,
}

/// A route that was not found.
#[derive(Clone, Copy, Debug, PartialEq, Eq, Structural)]
pub enum RouteFailure {
    Unreachable { source: Position, sink: Position },
}

/// The cells and strengths of taps.
pub open spec fn tap_pairs(taps: Seq<PoweredRouteSource>) -> Seq<(Position, usize)> {
    taps.map_values(|tap: PoweredRouteSource| (tap.position, tap.strength))
}

/// Whether a route has no identity yet and asks for power at its sink alone.
pub open spec fn is_plain_route(
    net: RoutedNet,
    source: Position,
    sink: Position,
    blocks: Seq<Placed>,
    path: Seq<Position>,
) -> bool {
    &&& net.net_id is None
    &&& net.source_endpoint is None
    &&& net.sink_endpoint is None
    &&& net.source_label is None
    &&& net.sink_label is None
    &&& net.source == source
    &&& net.sink == sink
    &&& net.blocks@ == blocks
    &&& net.path@ == path
    &&& net.required_powered_positions@ == seq![sink]
    &&& net.required_released_positions@ == seq![sink]
}

/// Whether two routes are the same but for their identity.
pub open spec fn same_course(left: RoutedNet, right: RoutedNet) -> bool {
    &&& left.source == right.source
    &&& left.sink == right.sink
    &&& left.blocks@ == right.blocks@
    &&& left.path@ == right.path@
    &&& left.required_powered_positions@ == right.required_powered_positions@
    &&& left.required_released_positions@ == right.required_released_positions@
    &&& left.powered_taps@ == right.powered_taps@
}

/// Whether two routes have the same identity.
pub open spec fn same_identity(left: RoutedNet, right: RoutedNet) -> bool {
    &&& left.net_id == right.net_id
    &&& left.source_endpoint == right.source_endpoint
    &&& left.sink_endpoint == right.sink_endpoint
    &&& left.source_label == right.source_label
    &&& left.sink_label == right.sink_label
}

fn copy_cells(cells: &Vec<Position>) -> (copy: Vec<Position>)
    ensures
        copy@ == cells@,
{
    let copy = cells.clone();
    assert(copy@ =~= cells@);
    copy
}

fn copy_taps(taps: &Vec<(Position, usize)>) -> (copy: Vec<(Position, usize)>)
    ensures
        copy@ == taps@,
{
    let mut copy: Vec<(Position, usize)> = Vec::new();
    let mut index: usize = 0;
    while index < taps.len()
        invariant
            index <= taps.len(),
            copy.len() == index,
            forall|i: int| 0 <= i < index ==> #[trigger] copy@[i] == taps@[i],
        decreases taps.len() - index,
    {
        copy.push((taps[index].0, taps[index].1));
        index += 1;
    }
    assert(copy@ =~= taps@);
    copy
}

fn copy_label(label: &Option<String>) -> (copy: Option<String>)
    ensures
        copy == *label,
{
    match label {
        Some(text) => Some(text.clone()),
        None => None,
    }
}

impl RoutedNet {
    /// A route whose sink is to have power, and whose signal can be taken up at
    /// the end of its path.
    pub fn new(source: Position, sink: Position, blocks: Vec<Placed>, path: Vec<Position>) -> (net: Self)
        ensures
            is_plain_route(net, source, sink, blocks@, path@),
            net.powered_taps@ == (if path@.len() > 0 {
                seq![(path@.last(), MAX_REDSTONE_STRENGTH)]
            } else {
                Seq::<(Position, usize)>::empty()
            }),
    {
        let mut powered_taps: Vec<(Position, usize)> = Vec::new();
        if path.len() > 0 {
            powered_taps.push((path[path.len() - 1], MAX_REDSTONE_STRENGTH));
        }
        assert(powered_taps@ =~= (if path@.len() > 0 {
            seq![(path@.last(), MAX_REDSTONE_STRENGTH)]
        } else {
            Seq::<(Position, usize)>::empty()
        }));
        let required_powered_positions = vec![sink];
        let required_released_positions = vec![sink];
        assert(required_powered_positions@ =~= seq![sink]);
        assert(required_released_positions@ =~= seq![sink]);
        RoutedNet {
            net_id: None,
            source_endpoint: None,
            sink_endpoint: None,
            source_label: None,
            sink_label: None,
            source,
            sink,
            blocks,
            path,
            required_powered_positions,
            required_released_positions,
            powered_taps,
        }
    }

    /// Gives the route the identity of a net.
    pub fn with_topology_identity(
        self,
        net_id: usize,
        source: ResolvedEndpoint,
        sink: Option<ResolvedEndpoint>,
    ) -> (net: Self)
        ensures
            same_course(net, self),
            net.net_id == Some(net_id),
            net.source_endpoint == Some(source),
            net.sink_endpoint == sink,
            net.source_label == self.source_label,
            net.sink_label == self.sink_label,
    {
        let mut net = self;
        net.net_id = Some(net_id);
        net.source_endpoint = Some(source);
        net.sink_endpoint = sink;
        net
    }

    /// Names the ends of the route.
    pub fn with_labels(self, source: String, sink: String) -> (net: Self)
        ensures
            same_course(net, self),
            net.net_id == self.net_id,
            net.source_endpoint == self.source_endpoint,
            net.sink_endpoint == self.sink_endpoint,
            net.source_label == Some(source),
            net.sink_label == Some(sink),
    {
        let mut net = self;
        net.source_label = Some(source);
        net.sink_label = Some(sink);
        net
    }

    /// Asks for power at other cells, and for none there while the source has
    /// none.
    pub fn with_required_powered_positions(self, positions: Vec<Position>) -> (net: Self)
        ensures
            net.required_powered_positions@ == positions@,
            net.required_released_positions@ == positions@,
            same_identity(net, self),
            net.source == self.source,
            net.sink == self.sink,
            net.blocks@ == self.blocks@,
            net.path@ == self.path@,
            net.powered_taps@ == self.powered_taps@,
    {
        let mut net = self;
        net.required_powered_positions = copy_cells(&positions);
        net.required_released_positions = positions;
        net
    }

    /// Asks for no power at other cells while the source has none.
    pub fn with_required_released_positions(self, positions: Vec<Position>) -> (net: Self)
        ensures
            net.required_released_positions@ == positions@,
            net.required_powered_positions@ == self.required_powered_positions@,
            same_identity(net, self),
            net.source == self.source,
            net.sink == self.sink,
            net.blocks@ == self.blocks@,
            net.path@ == self.path@,
            net.powered_taps@ == self.powered_taps@,
    {
        let mut net = self;
        net.required_released_positions = positions;
        net
    }

    /// Sets the cells from which the signal can be taken up.
    pub fn with_powered_taps(self, taps: Vec<PoweredRouteSource>) -> (net: Self)
        ensures
            net.powered_taps@ == tap_pairs(taps@),
            same_identity(net, self),
            net.source == self.source,
            net.sink == self.sink,
            net.blocks@ == self.blocks@,
            net.path@ == self.path@,
            net.required_powered_positions@ == self.required_powered_positions@,
            net.required_released_positions@ == self.required_released_positions@,
    {
        let mut pairs: Vec<(Position, usize)> = Vec::new();
        let mut index: usize = 0;
        while index < taps.len()
            invariant
                index <= taps.len(),
                pairs.len() == index,
                forall|i: int| 0 <= i < index ==> #[trigger] pairs@[i] == (taps@[i].position, taps@[i].strength),
            decreases taps.len() - index,
        {
            pairs.push((taps[index].position, taps[index].strength));
            index += 1;
        }
        assert(pairs@ =~= tap_pairs(taps@));
        let mut net = self;
        net.powered_taps = pairs;
        net
    }

    /// The cells from which the signal can be taken up.
    pub fn powered_route_sources(&self) -> (taps: Vec<PoweredRouteSource>)
        ensures
            tap_pairs(taps@) == self.powered_taps@,
    {
        let mut taps: Vec<PoweredRouteSource> = Vec::new();
        let mut index: usize = 0;
        while index < self.powered_taps.len()
            invariant
                index <= self.powered_taps.len(),
                taps.len() == index,
                forall|i: int|
                    0 <= i < index ==> (#[trigger] taps@[i]).position == self.powered_taps@[i].0 && taps@[i].strength
                        == self.powered_taps@[i].1,
            decreases self.powered_taps.len() - index,
        {
            let tap = self.powered_taps[index];
            taps.push(PoweredRouteSource { position: tap.0, strength: tap.1 });
            index += 1;
        }
        assert(tap_pairs(taps@) =~= self.powered_taps@);
        taps
    }

    /// An equal route.
    pub fn copy(&self) -> (copy: Self)
        ensures
            same_course(copy, *self),
            same_identity(copy, *self),
    {
        RoutedNet {
            net_id: self.net_id,
            source_endpoint: self.source_endpoint,
            sink_endpoint: self.sink_endpoint,
            source_label: copy_label(&self.source_label),
            sink_label: copy_label(&self.sink_label),
            source: self.source,
            sink: self.sink,
            blocks: copy_placed(&self.blocks),
            path: copy_cells(&self.path),
            required_powered_positions: copy_cells(&self.required_powered_positions),
            required_released_positions: copy_cells(&self.required_released_positions),
            powered_taps: copy_taps(&self.powered_taps),
        }
    }
}

} // verus!

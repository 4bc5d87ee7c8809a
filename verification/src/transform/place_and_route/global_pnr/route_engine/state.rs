//! A route that is being extended.

use super::route::GlobalRoutingStrategy;
use crate::world::block::BlockKind;
use crate::world::grid::World3D;
use crate::world::position::{in_bounds, Direction, Position};
use vstd::prelude::*;

verus! {

/// The strength of a fresh signal.
pub const MAX_REDSTONE_STRENGTH: usize = 15;

/// A cell from which a signal can be taken up, and how strong it is there.
#[derive(Clone, Copy, Debug, PartialEq, Eq, Structural)]
pub struct PoweredRouteSource {
    pub position: Position,
    pub strength: usize,
}

/// A cell into which a route may be extended.
#[derive(Clone, Copy, Debug, PartialEq, Eq, Structural)]
pub struct PlaceBound {
    /// How the power gets there.
    pub kind: usize,
    pub position: Position,
    pub direction: Direction,
}

/// A route that is being extended, with the world that it has led to.
#[derive(Clone)]
pub struct RouteSearchState {
    pub world: World3D,
    pub terminal: Position,
    pub route: Vec<Position>,
    pub signal_strength: usize,
    pub powered_taps: Vec<PoweredRouteSource>,
    /// The cells into which the route is to be extended, where they are known.
    pub pending_bounds: Option<Vec<PlaceBound>>,
}

/// How deep a search is where routes of different length to one cell differ.
pub open spec fn visited_depth(strategy: GlobalRoutingStrategy, depth: nat) -> nat {
    if strategy is BreadthFirst {
        depth
    } else {
        0
    }
}

/// How deep a search is where routes of different length to one cell differ.
pub fn route_visited_depth(strategy: GlobalRoutingStrategy, route_depth: usize) -> (depth: usize)
    ensures
        depth == visited_depth(strategy, route_depth as nat),
{
    match strategy {
        GlobalRoutingStrategy::BreadthFirst => route_depth,
        _ => 0,
    }
}

/// By what searches tell states apart: end, depth and strength.
pub type VisitedKey = (Position, usize, usize);

/// The number of steps of a route.
pub open spec fn steps_of(route: Seq<Position>) -> nat {
    if route.len() == 0 {
        0
    } else {
        (route.len() - 1) as nat
    }
}

/// By what a search tells a state apart.
pub open spec fn visited_key(strategy: GlobalRoutingStrategy, state: RouteSearchState) -> VisitedKey {
    (state.terminal, visited_depth(strategy, steps_of(state.route@)) as usize, state.signal_strength)
}

/// By what a search tells a state apart.
pub fn route_visited_key(strategy: GlobalRoutingStrategy, state: &RouteSearchState) -> (key: VisitedKey)
    ensures
        key == visited_key(strategy, *state),
{
    let steps: usize = if state.route.len() == 0 {
        0
    } else {
        state.route.len() - 1
    };
    (state.terminal, route_visited_depth(strategy, steps), state.signal_strength)
}

/// How strong a signal is where it starts.
pub open spec fn starting_strength(kind: BlockKind) -> usize {
    match kind {
        BlockKind::Redstone { strength, .. } => if strength > 0 {
            strength
        } else {
            2
        },
        BlockKind::Switch { .. } => MAX_REDSTONE_STRENGTH,
        BlockKind::Torch { .. } => MAX_REDSTONE_STRENGTH,
        BlockKind::Repeater { .. } => MAX_REDSTONE_STRENGTH,
        BlockKind::RedstoneBlock => MAX_REDSTONE_STRENGTH,
        _ => 0,
    }
}

/// How strong a signal is where it starts.
pub fn initial_signal_strength(world: &World3D, source: Position) -> (strength: usize)
    requires
        world.wf(),
    ensures
        strength == starting_strength(world.at(source).kind),
{
    match world.get(source).kind {
        BlockKind::Redstone { strength, .. } => if strength > 0 {
            strength
        } else {
            2
        },
        BlockKind::Switch { .. } => MAX_REDSTONE_STRENGTH,
        BlockKind::Torch { .. } => MAX_REDSTONE_STRENGTH,
        BlockKind::Repeater { .. } => MAX_REDSTONE_STRENGTH,
        BlockKind::RedstoneBlock => MAX_REDSTONE_STRENGTH,
        _ => 0,
    }
}

/// Whether a block carries or makes a signal.
pub open spec fn is_signal(kind: BlockKind) -> bool {
    kind is Redstone || kind is Switch || kind is Torch || kind is Repeater || kind is RedstoneBlock
}

/// Whether a block carries or makes a signal.
pub fn is_signal_terminal_kind(kind: &BlockKind) -> (signal: bool)
    ensures
        signal == is_signal(*kind),
{
    kind.is_redstone() || kind.is_switch() || kind.is_torch() || kind.is_repeater() || matches!(
        kind,
        BlockKind::RedstoneBlock
    )
}

/// Whether a route can be extended from a cell.
pub fn is_route_terminal(world: &World3D, position: Position) -> (terminal: bool)
    requires
        world.wf(),
    ensures
        terminal == is_signal(world.at(position).kind),
{
    is_signal_terminal_kind(&world.get(position).kind)
}

/// The signal that can be taken up from a cell, if there is one.
pub fn powered_route_source(world: &World3D, position: Position) -> (source: Option<PoweredRouteSource>)
    requires
        world.wf(),
    ensures
        source == (if in_bounds(world.size, position) && is_signal(world.at(position).kind) {
            Some(PoweredRouteSource { position, strength: starting_strength(world.at(position).kind) })
        } else {
            None
        }),
{
    if world.size.bound_on(position) && is_route_terminal(world, position) {
        Some(PoweredRouteSource { position, strength: initial_signal_strength(world, position) })
    } else {
        None
    }
}

} // verus!

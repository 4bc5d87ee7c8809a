//! Routes to the ports of placed modules.

use super::ports::ResolvedPortTarget;
use super::reach::{remake, is_remade, Approach};
use super::sources::FANOUT_ROUTE_SOURCE_LIMIT;
use super::tools::{copy_cells, is_first, RouteAttempt, RouteResult, RouteTools};
use crate::number::capped;
use crate::order::{stable_order, stable_order_is_unique, the_stable_order};
use crate::transform::place_and_route::global_pnr::dust::{is_linked, is_rule, joined_network, says};
use crate::transform::place_and_route::global_pnr::ir::{PhysicalPort, PhysicalPortDirection, PortConnection};
use crate::transform::place_and_route::global_pnr::route_engine::route::{
    GlobalRoutingStrategy, RouteFailure, RoutedNet,
};
use crate::transform::place_and_route::global_pnr::route_engine::search::PlaceRequest;
use crate::transform::place_and_route::global_pnr::route_engine::state::{
    initial_signal_strength, is_route_terminal, is_signal, starting_strength, PlaceBound, PoweredRouteSource,
};
use crate::world::block::Block;
use crate::world::grid::World3D;
use crate::world::position::{distance, in_bounds, Position};
use vstd::prelude::*;

verus! {

// ---------------------------------------------------------------------------
// Sources in order
// ---------------------------------------------------------------------------
/// By what cells are ordered: their distance from the sink.
pub open spec fn distance_keys(cells: Seq<Position>, sink: Position) -> Seq<usize> {
    cells.map_values(|cell: Position| capped(distance(cell, sink)) as usize)
}

/// Cells with the nearest to the sink first.
pub open spec fn nearest_cells(cells: Seq<Position>, sink: Position) -> Seq<Position> {
    let order = the_stable_order(distance_keys(cells, sink));
    Seq::new(cells.len(), |i: int| cells[order[i] as int])
}

fn order_by_distance(cells: &Vec<Position>, sink: Position) -> (order: Vec<usize>)
    ensures
        order@ == the_stable_order(distance_keys(cells@, sink)),
        order.len() == cells.len(),
        forall|i: int| 0 <= i < order.len() ==> #[trigger] order@[i] < cells.len(),
{
    let mut keys: Vec<usize> = Vec::new();
    let mut index: usize = 0;
    while index < cells.len()
        invariant
            index <= cells.len(),
            keys.len() == index,
            forall|i: int| 0 <= i < index ==> #[trigger] keys@[i] == distance_keys(cells@, sink)[i],
        decreases cells.len() - index,
    {
        let steps: usize = cells[index].capped_distance(&sink);
        keys.push(steps);
        index += 1;
    }
    assert(keys@ =~= distance_keys(cells@, sink));
    let order = stable_order(&keys);
    proof {
        stable_order_is_unique(keys@, order@);
    }
    order
}

/// Puts the nearest to the sink first.
pub fn sort_cells(cells: &Vec<Position>, sink: Position) -> (sorted: Vec<Position>)
    ensures
        sorted@ == nearest_cells(cells@, sink),
{
    let order = order_by_distance(cells, sink);
    let mut sorted: Vec<Position> = Vec::new();
    let mut index: usize = 0;
    while index < order.len()
        invariant
            index <= order.len(),
            order.len() == cells.len(),
            order@ == the_stable_order(distance_keys(cells@, sink)),
            forall|i: int| 0 <= i < order.len() ==> #[trigger] order@[i] < cells.len(),
            sorted.len() == index,
            forall|i: int| 0 <= i < index ==> #[trigger] sorted@[i] == cells@[order@[i] as int],
        decreases order.len() - index,
    {
        let at: usize = order[index];
        assert(order@[index as int] < cells.len());
        sorted.push(cells[at]);
        index += 1;
    }
    assert(sorted@ =~= nearest_cells(cells@, sink));
    sorted
}

/// The cells of sources.
pub open spec fn source_cells(sources: Seq<PoweredRouteSource>) -> Seq<Position> {
    sources.map_values(|source: PoweredRouteSource| source.position)
}

/// Sources with the nearest to the sink first.
pub open spec fn nearest_sources(sources: Seq<PoweredRouteSource>, sink: Position) -> Seq<PoweredRouteSource> {
    let order = the_stable_order(distance_keys(source_cells(sources), sink));
    Seq::new(sources.len(), |i: int| sources[order[i] as int])
}

/// Puts the nearest to the sink first.
pub fn sort_sources(sources: &Vec<PoweredRouteSource>, sink: Position) -> (sorted: Vec<PoweredRouteSource>)
    ensures
        sorted@ == nearest_sources(sources@, sink),
{
    let mut cells: Vec<Position> = Vec::new();
    let mut index: usize = 0;
    while index < sources.len()
        invariant
            index <= sources.len(),
            cells.len() == index,
            forall|i: int| 0 <= i < index ==> #[trigger] cells@[i] == source_cells(sources@)[i],
        decreases sources.len() - index,
    {
        cells.push(sources[index].position);
        index += 1;
    }
    assert(cells@ =~= source_cells(sources@));
    let order = order_by_distance(&cells, sink);
    let mut sorted: Vec<PoweredRouteSource> = Vec::new();
    let mut index: usize = 0;
    while index < order.len()
        invariant
            index <= order.len(),
            order.len() == sources.len(),
            order@ == the_stable_order(distance_keys(source_cells(sources@), sink)),
            forall|i: int| 0 <= i < order.len() ==> #[trigger] order@[i] < sources.len(),
            sorted.len() == index,
            forall|i: int| 0 <= i < index ==> #[trigger] sorted@[i] == sources@[order@[i] as int],
        decreases order.len() - index,
    {
        let at: usize = order[index];
        assert(order@[index as int] < sources.len());
        sorted.push(sources[at]);
        index += 1;
    }
    assert(sorted@ =~= nearest_sources(sources@, sink));
    sorted
}

/// Cells without those that equal the one in front of them.
pub open spec fn deduped(cells: Seq<Position>) -> Seq<Position>
    decreases cells.len(),
{
    if cells.len() == 0 {
        cells
    } else {
        let rest = deduped(cells.drop_last());
        if cells.len() > 1 && cells[cells.len() - 2] == cells.last() {
            rest
        } else {
            rest.push(cells.last())
        }
    }
}

/// Drops the cells that equal the one in front of them.
pub fn dedup_cells(cells: &Vec<Position>) -> (kept: Vec<Position>)
    ensures
        kept@ == deduped(cells@),
{
    let mut kept: Vec<Position> = Vec::new();
    assert(cells@.take(0) =~= Seq::<Position>::empty());
    let mut index: usize = 0;
    while index < cells.len()
        invariant
            index <= cells.len(),
            kept@ == deduped(cells@.take(index as int)),
        decreases cells.len() - index,
    {
        assert(cells@.take(index + 1).drop_last() =~= cells@.take(index as int));
        if index == 0 || cells[index - 1] != cells[index] {
            kept.push(cells[index]);
        }
        index += 1;
    }
    assert(cells@.take(index as int) =~= cells@);
    kept
}

/// The first cells, as many as a net is routed from.
pub open spec fn first_cells(cells: Seq<Position>) -> Seq<Position> {
    if cells.len() > FANOUT_ROUTE_SOURCE_LIMIT {
        cells.take(FANOUT_ROUTE_SOURCE_LIMIT as int)
    } else {
        cells
    }
}

/// The number of sources that are tried.
pub open spec fn tried_count(total: nat) -> nat {
    if total > FANOUT_ROUTE_SOURCE_LIMIT {
        FANOUT_ROUTE_SOURCE_LIMIT as nat
    } else {
        total
    }
}

/// From where a port is tried to be left: the cells nearest to the sink, and its
/// own cell in any case.
pub open spec fn leaving_cells(access: Seq<Position>, logical: Position, sink: Position) -> Seq<Position> {
    let first = first_cells(deduped(nearest_cells(access.push(logical), sink)));
    if first.contains(logical) {
        first
    } else {
        first.push(logical)
    }
}

/// The first of some cells, or another where there is none.
pub open spec fn first_or(cells: Seq<Position>, other: Position) -> Position {
    if cells.len() > 0 {
        cells[0]
    } else {
        other
    }
}

/// Whether a route can start in a cell.
pub open spec fn is_usable(world: World3D, cell: Position) -> bool {
    in_bounds(world.size, cell) && is_signal(world.at(cell).kind)
}

fn usable(world: &World3D, cell: Position) -> (yes: bool)
    requires
        world.wf(),
    ensures
        yes == is_usable(*world, cell),
{
    world.size.bound_on(cell) && is_route_terminal(world, cell)
}

// ---------------------------------------------------------------------------
// Networks
// ---------------------------------------------------------------------------
/// Whether a listed block is dust that is joined to a cell.
pub open spec fn is_joined_to<F: Fn(&World3D, Position, Position) -> bool>(
    rule: &F,
    world: World3D,
    cell: Position,
    index: int,
) -> bool {
    let blocks = world.listed();
    &&& 0 <= index < blocks.len()
    &&& blocks[index].1.kind is Redstone
    &&& says(rule, world, cell, blocks[index].0) || says(rule, world, blocks[index].0, cell)
}

/// Whether indices are those of the dust that is joined to a cell.
pub open spec fn are_joined_to<F: Fn(&World3D, Position, Position) -> bool>(
    rule: &F,
    world: World3D,
    cell: Position,
    indices: Seq<usize>,
) -> bool {
    &&& forall|k: int| 0 <= k < indices.len() ==> is_joined_to(rule, world, cell, #[trigger] indices[k] as int)
    &&& forall|i: int| #[trigger] is_joined_to(rule, world, cell, i) ==> indices.contains(i as usize)
}

/// Whether a cell is in the network of another: the cell itself, or dust that is
/// joined to it, or to dust in the network.
pub open spec fn is_in_network_of<F: Fn(&World3D, Position, Position) -> bool>(
    rule: &F,
    world: World3D,
    seeds: Seq<usize>,
    own: Position,
    cell: Position,
) -> bool {
    cell == own || exists|i: int|
        0 <= i < world.listed().len() && (#[trigger] world.listed()[i]).0 == cell && is_linked(rule, world, seeds, i)
}

/// Whether cells are those of the network of a cell.
pub open spec fn is_network_of<F: Fn(&World3D, Position, Position) -> bool>(
    rule: &F,
    world: World3D,
    own: Position,
    cells: Seq<Position>,
) -> bool {
    exists|seeds: Seq<usize>| #[trigger]
        are_joined_to(rule, world, own, seeds) && forall|cell: Position| #[trigger]
            cells.contains(cell) <==> is_in_network_of(rule, world, seeds, own, cell)
}

/// The cells of the network of a cell.
pub fn redstone_network_positions<F: Fn(&World3D, Position, Position) -> bool>(
    rule: &F,
    world: &World3D,
    own: Position,
) -> (cells: Vec<Position>)
    requires
        is_rule(rule),
        world.wf(),
    ensures
        is_network_of(rule, *world, own, cells@),
{
    let total: usize = world.blocks.len();
    let listed = world.iter_block();
    let mut seeds: Vec<usize> = Vec::new();
    let mut index: usize = 0;
    while index < total
        invariant
            index <= total,
            total == world.listed().len(),
            listed@ == world.listed(),
            is_rule(rule),
            seeds@.no_duplicates(),
            forall|k: int|
                0 <= k < seeds.len() ==> seeds@[k] < index && is_joined_to(
                    rule,
                    *world,
                    own,
                    #[trigger] seeds@[k] as int,
                ),
            forall|i: int| 0 <= i < index && #[trigger] is_joined_to(rule, *world, own, i) ==> seeds@.contains(i as usize),
        decreases total - index,
    {
        let cell = listed[index].0;
        if listed[index].1.kind.is_redstone() && (rule(world, own, cell) || rule(world, cell, own)) {
            let ghost before = seeds@;
            seeds.push(index);
            proof {
                assert(seeds@[before.len() as int] == index);
                assert forall|i: int| 0 <= i < index + 1 && #[trigger] is_joined_to(rule, *world, own, i) implies seeds@.contains(
                    i as usize,
                ) by {
                    if i < index {
                        assert(before.contains(i as usize));
                        let k = choose|k: int| 0 <= k < before.len() && before[k] == i as usize;
                        assert(seeds@[k] == i as usize);
                    }
                }
            }
        }
        index += 1;
    }
    let ghost started = seeds@;
    proof {
        assert forall|i: int| #[trigger] is_joined_to(rule, *world, own, i) implies started.contains(i as usize) by {}
        assert(are_joined_to(rule, *world, own, started));
    }
    let members = joined_network(rule, world, seeds);
    let mut cells: Vec<Position> = vec![own];
    let mut index: usize = 0;
    proof {
        assert(cells@ =~= seq![own]);
        assert forall|cell: Position| #[trigger] cells@.contains(cell) <==> cell == own by {
            assert(cells@[0] == own);
        }
    }
    while index < members.len()
        invariant
            index <= members.len(),
            total == world.listed().len(),
            listed@ == world.listed(),
            forall|k: int| 0 <= k < members.len() ==> #[trigger] members@[k] < total,
            forall|cell: Position| #[trigger]
                cells@.contains(cell) <==> cell == own || exists|k: int|
                    0 <= k < index && world.listed()[#[trigger] members@[k] as int].0 == cell,
        decreases members.len() - index,
    {
        let at: usize = members[index];
        assert(members@[index as int] < total);
        let ghost before = cells@;
        cells.push(listed[at].0);
        proof {
            assert(cells@ == before.push(listed@[at as int].0));
            assert forall|cell: Position| #[trigger] cells@.contains(cell) <==> cell == own || exists|k: int|
                0 <= k < index + 1 && world.listed()[#[trigger] members@[k] as int].0 == cell by {
                if cells@.contains(cell) {
                    let i = choose|i: int| 0 <= i < cells@.len() && cells@[i] == cell;
                    if i < before.len() {
                        assert(before[i] == cell);
                        assert(before.contains(cell));
                    } else {
                        assert(world.listed()[members@[index as int] as int].0 == cell);
                    }
                }
                if before.contains(cell) {
                    let i = choose|i: int| 0 <= i < before.len() && before[i] == cell;
                    assert(cells@[i] == cell);
                }
                if listed@[at as int].0 == cell {
                    assert(cells@[before.len() as int] == cell);
                }
                if exists|k: int| 0 <= k < index + 1 && world.listed()[#[trigger] members@[k] as int].0 == cell {
                    let k = choose|k: int|
                        0 <= k < index + 1 && world.listed()[#[trigger] members@[k] as int].0 == cell;
                    if k < index {
                        assert(world.listed()[members@[k] as int].0 == cell);
                        assert(before.contains(cell));
                    }
                }
            }
        }
        index += 1;
    }
    proof {
        assert forall|cell: Position| #[trigger] cells@.contains(cell) <==> is_in_network_of(
            rule,
            *world,
            started,
            own,
            cell,
        ) by {
            if exists|k: int| 0 <= k < members.len() && world.listed()[#[trigger] members@[k] as int].0 == cell {
                let k = choose|k: int| 0 <= k < members.len() && world.listed()[#[trigger] members@[k] as int].0 == cell;
                let i = members@[k] as int;
                assert(world.listed()[i].0 == cell && is_linked(rule, *world, started, i));
            }
            if cell != own && is_in_network_of(rule, *world, started, own, cell) {
                let i = choose|i: int|
                    0 <= i < world.listed().len() && (#[trigger] world.listed()[i]).0 == cell && is_linked(
                        rule,
                        *world,
                        started,
                        i,
                    );
                assert(members@.contains(i as usize));
                let k = choose|k: int| 0 <= k < members@.len() && members@[k] == i as usize;
                assert(world.listed()[members@[k] as int].0 == cell);
            }
        }
    }
    cells
}

impl<
    F: Fn(&World3D, Position, Position) -> bool,
    C: Fn(&World3D, Position, Position) -> bool,
    B: Fn(&World3D, Position) -> Vec<PlaceBound>,
    L: Fn(&World3D, &PlaceRequest) -> Option<(World3D, Position)>,
    P: Fn(&World3D, Position, Block, &Vec<Position>) -> Option<World3D>,
    S: Fn(&World3D, Position, Option<bool>, &Vec<Position>) -> Option<Vec<bool>>,
> RouteTools<F, C, B, L, P, S> {
    /// What routing from a source to a port comes to: through a repeater where the
    /// port asks for one.
    pub open spec fn is_target_route(
        &self,
        world: World3D,
        source: Position,
        sink: ResolvedPortTarget,
        strategy: GlobalRoutingStrategy,
        allowed: Seq<Position>,
        result: RouteResult,
    ) -> bool {
        let strength = starting_strength(world.at(source).kind);
        if sink.requires_input_diode {
            self.is_repeated_route(
                world,
                source,
                Approach::Signal { source: PoweredRouteSource { position: source, strength } },
                sink.position,
                sink.input_repeater_delay,
                strategy,
                allowed,
                result,
            )
        } else {
            self.routes_from(world, source, strength, sink.position, strategy, allowed, result)
        }
    }

    /// Routes from a source to a port.
    pub fn route_to_target_position(
        &self,
        world: &World3D,
        source: Position,
        sink: ResolvedPortTarget,
        strategy: GlobalRoutingStrategy,
        allowed: &Vec<Position>,
    ) -> (result: RouteResult)
        requires
            self.valid(),
            world.wf(),
        ensures
            self.is_target_route(*world, source, sink, strategy, allowed@, result),
            result matches Ok((_, after)) ==> after.wf(),
    {
        let strength: usize = initial_signal_strength(world, source);
        if sink.requires_input_diode {
            return self.route_to_redstone_input_through_repeater(
                world,
                source,
                sink.position,
                sink.input_repeater_delay,
                strategy,
                allowed,
            );
        }
        self.route_from(world, source, strength, sink.position, strategy, allowed)
    }

    /// Routes to an input through a repeater in front of it, from a source with
    /// the signal that it has.
    pub fn route_to_redstone_input_through_repeater(
        &self,
        world: &World3D,
        source: Position,
        sink: Position,
        delay: usize,
        strategy: GlobalRoutingStrategy,
        allowed: &Vec<Position>,
    ) -> (result: RouteResult)
        requires
            self.valid(),
            world.wf(),
        ensures
            self.is_repeated_route(
                *world,
                source,
                Approach::Signal {
                    source: PoweredRouteSource {
                        position: source,
                        strength: starting_strength(world.at(source).kind),
                    },
                },
                sink,
                delay,
                strategy,
                allowed@,
                result,
            ),
            result matches Ok((_, after)) ==> after.wf(),
    {
        let strength: usize = initial_signal_strength(world, source);
        self.route_to_redstone_input_through_repeater_from_route_source(
            world,
            source,
            Approach::Signal { source: PoweredRouteSource { position: source, strength } },
            sink,
            delay,
            strategy,
            allowed,
        )
    }

    /// What routing to a port from a signal that stands for a source comes to.
    pub open spec fn is_logical_route(
        &self,
        world: World3D,
        logical: Position,
        source: PoweredRouteSource,
        sink: ResolvedPortTarget,
        strategy: GlobalRoutingStrategy,
        allowed: Seq<Position>,
        result: RouteResult,
    ) -> bool {
        if sink.requires_input_diode {
            self.is_repeated_route(
                world,
                logical,
                Approach::Signal { source },
                sink.position,
                sink.input_repeater_delay,
                strategy,
                allowed,
                result,
            )
        } else {
            exists|tried: RouteResult| #[trigger]
                self.routes_from(
                    world,
                    source.position,
                    source.strength,
                    sink.position,
                    strategy,
                    allowed,
                    tried,
                ) && match tried {
                    Err(failure) => result == Err::<(RoutedNet, World3D), RouteFailure>(failure),
                    Ok(found) => self.is_owned_route(world, logical, sink.position, found, strategy, result),
                }
        }
    }

    /// What making a route start at another source comes to.
    pub open spec fn is_owned_route(
        &self,
        world: World3D,
        logical: Position,
        sink: Position,
        found: (RoutedNet, World3D),
        strategy: GlobalRoutingStrategy,
        result: RouteResult,
    ) -> bool {
        exists|route: RoutedNet, attempt: RouteAttempt|
            {
                &&& #[trigger] is_remade(route, found.0, logical, sink, found.0.blocks@)
                &&& #[trigger] self.is_passed(world, route, found.1, strategy, attempt)
                &&& match attempt {
                    Some(found) => result == Ok::<(RoutedNet, World3D), RouteFailure>(found),
                    None => result == Err::<(RoutedNet, World3D), RouteFailure>(
                        RouteFailure::Unreachable { source: logical, sink },
                    ),
                }
            }
    }

    /// Routes to a port from a signal that stands for a source.
    pub fn route_logical_source_to_target_position_with_strength(
        &self,
        world: &World3D,
        logical_source: Position,
        source: PoweredRouteSource,
        sink: ResolvedPortTarget,
        strategy: GlobalRoutingStrategy,
        allowed: &Vec<Position>,
    ) -> (result: RouteResult)
        requires
            self.valid(),
            world.wf(),
        ensures
            self.is_logical_route(*world, logical_source, source, sink, strategy, allowed@, result),
            result matches Ok((_, after)) ==> after.wf(),
    {
        if sink.requires_input_diode {
            return self.route_to_redstone_input_through_repeater_from_route_source(
                world,
                logical_source,
                Approach::Signal { source },
                sink.position,
                sink.input_repeater_delay,
                strategy,
                allowed,
            );
        }
        let tried = self.route_from(world, source.position, source.strength, sink.position, strategy, allowed);
        let ghost outcome = tried;
        assert(self.routes_from(
            *world,
            source.position,
            source.strength,
            sink.position,
            strategy,
            allowed@,
            outcome,
        ));
        let (mut found, after) = match tried {
            Err(failure) => return Err(failure),
            Ok(found) => found,
        };
        let ghost was = found;
        let mut blocks: Vec<(Position, Block)> = Vec::new();
        blocks.append(&mut found.blocks);
        assert(blocks@ =~= was.blocks@);
        let route = remake(found, logical_source, sink.position, blocks);
        let ghost made = route;
        assert(is_remade(made, was, logical_source, sink.position, was.blocks@));
        let attempt = self.accept(world, Ok((route, after)), strategy);
        let ghost passed = attempt;
        assert(self.is_passed(*world, made, after, strategy, passed));
        let result: RouteResult = match attempt {
            Some(found) => Ok(found),
            None => Err(RouteFailure::Unreachable { source: logical_source, sink: sink.position }),
        };
        assert(self.is_owned_route(*world, logical_source, sink.position, (was, after), strategy, result));
        result
    }

    // -----------------------------------------------------------------------
    // From a network
    // -----------------------------------------------------------------------
    /// What routing to a port from one cell of a network comes to.
    pub open spec fn tries_cell(
        &self,
        world: World3D,
        sink: ResolvedPortTarget,
        strategy: GlobalRoutingStrategy,
        allowed: Seq<Position>,
        cell: Position,
        attempt: RouteAttempt,
    ) -> bool {
        if !is_usable(world, cell) {
            attempt is None
        } else {
            exists|tried: RouteResult| #[trigger]
                self.is_target_route(world, cell, sink, strategy, allowed, tried) && self.is_accepted(
                    world,
                    tried,
                    strategy,
                    attempt,
                )
        }
    }

    fn try_cell(
        &self,
        world: &World3D,
        sink: ResolvedPortTarget,
        strategy: GlobalRoutingStrategy,
        allowed: &Vec<Position>,
        cell: Position,
    ) -> (attempt: RouteAttempt)
        requires
            self.valid(),
            world.wf(),
        ensures
            self.tries_cell(*world, sink, strategy, allowed@, cell, attempt),
            attempt matches Some((_, after)) ==> after.wf(),
    {
        if !usable(world, cell) {
            return None;
        }
        let tried = self.route_to_target_position(world, cell, sink, strategy, allowed);
        assert(self.is_target_route(*world, cell, sink, strategy, allowed@, tried));
        self.accept(world, tried, strategy)
    }

    /// Whether the cells of a network were tried in turn.
    pub open spec fn are_cells_tried(
        &self,
        world: World3D,
        sink: ResolvedPortTarget,
        strategy: GlobalRoutingStrategy,
        allowed: Seq<Position>,
        cells: Seq<Position>,
        tried: Seq<RouteAttempt>,
    ) -> bool {
        forall|i: int|
            0 <= i < tried.len() && i < cells.len() ==> self.tries_cell(
                world,
                sink,
                strategy,
                allowed,
                cells[i],
                #[trigger] tried[i],
            )
    }

    /// What routing to a port from a network comes to: from its cells nearest to
    /// the port in turn.
    pub open spec fn is_network_route(
        &self,
        world: World3D,
        sources: Seq<Position>,
        sink: ResolvedPortTarget,
        strategy: GlobalRoutingStrategy,
        allowed: Seq<Position>,
        result: RouteResult,
    ) -> bool {
        let cells = nearest_cells(sources, sink.position);
        exists|tried: Seq<RouteAttempt>| #[trigger]
            self.are_cells_tried(world, sink, strategy, allowed, cells, tried) && is_first(
                tried,
                tried_count(cells.len()),
                RouteFailure::Unreachable { source: first_or(cells, sink.position), sink: sink.position },
                result,
            )
    }

    /// Routes to a port from a network.
    pub fn route_to_target_from_network(
        &self,
        world: &World3D,
        sources: &Vec<Position>,
        sink: ResolvedPortTarget,
        strategy: GlobalRoutingStrategy,
        allowed: &Vec<Position>,
    ) -> (result: RouteResult)
        requires
            self.valid(),
            world.wf(),
        ensures
            self.is_network_route(*world, sources@, sink, strategy, allowed@, result),
            result matches Ok((_, after)) ==> after.wf(),
    {
        let cells = sort_cells(sources, sink.position);
        let fallback = if cells.len() > 0 {
            cells[0]
        } else {
            sink.position
        };
        let count: usize = if cells.len() > FANOUT_ROUTE_SOURCE_LIMIT {
            FANOUT_ROUTE_SOURCE_LIMIT
        } else {
            cells.len()
        };
        let ghost mut tried = Seq::<RouteAttempt>::empty();
        let ghost failure = RouteFailure::Unreachable { source: fallback, sink: sink.position };
        let mut result: RouteResult = Err(RouteFailure::Unreachable { source: fallback, sink: sink.position });
        let mut index: usize = 0;
        while index < count && result.is_err()
            invariant
                index <= count,
                count <= cells.len(),
                self.valid(),
                world.wf(),
                tried.len() == index,
                failure == (RouteFailure::Unreachable { source: fallback, sink: sink.position }),
                is_first(tried, index as nat, failure, result),
                self.are_cells_tried(*world, sink, strategy, allowed@, cells@, tried),
                result matches Ok((_, after)) ==> after.wf(),
            decreases count - index,
        {
            let attempt = self.try_cell(world, sink, strategy, allowed, cells[index]);
            let ghost before = tried;
            proof {
                tried = tried.push(attempt);
                assert forall|i: int| 0 <= i < tried.len() && i < cells.len() implies self.tries_cell(*world, sink, strategy, allowed@, cells@[i], #[trigger] tried[i]) by {
                    if i < before.len() {
                        assert(tried[i] == before[i]);
                    }
                }
            }
            if let Some(found) = attempt {
                result = Ok(found);
            }
            index += 1;
        }
        proof {
            assert(cells@ == nearest_cells(sources@, sink.position));
            assert(is_first(tried, tried_count(cells@.len()), failure, result));
            assert(self.are_cells_tried(*world, sink, strategy, allowed@, cells@, tried));
        }
        result
    }

    /// What routing to a port from one signal comes to.
    pub open spec fn tries_signal(
        &self,
        world: World3D,
        sink: ResolvedPortTarget,
        strategy: GlobalRoutingStrategy,
        allowed: Seq<Position>,
        source: PoweredRouteSource,
        attempt: RouteAttempt,
    ) -> bool {
        if !is_usable(world, source.position) {
            attempt is None
        } else {
            exists|tried: RouteResult| #[trigger]
                self.is_logical_route(world, source.position, source, sink, strategy, allowed, tried)
                    && self.is_accepted(world, tried, strategy, attempt)
        }
    }

    fn try_signal(
        &self,
        world: &World3D,
        sink: ResolvedPortTarget,
        strategy: GlobalRoutingStrategy,
        allowed: &Vec<Position>,
        source: PoweredRouteSource,
    ) -> (attempt: RouteAttempt)
        requires
            self.valid(),
            world.wf(),
        ensures
            self.tries_signal(*world, sink, strategy, allowed@, source, attempt),
            attempt matches Some((_, after)) ==> after.wf(),
    {
        if !usable(world, source.position) {
            return None;
        }
        let tried = self.route_logical_source_to_target_position_with_strength(
            world,
            source.position,
            source,
            sink,
            strategy,
            allowed,
        );
        assert(self.is_logical_route(*world, source.position, source, sink, strategy, allowed@, tried));
        self.accept(world, tried, strategy)
    }

    /// Whether signals were tried in turn.
    pub open spec fn are_signals_tried(
        &self,
        world: World3D,
        sink: ResolvedPortTarget,
        strategy: GlobalRoutingStrategy,
        allowed: Seq<Position>,
        sources: Seq<PoweredRouteSource>,
        tried: Seq<RouteAttempt>,
    ) -> bool {
        forall|i: int|
            0 <= i < tried.len() && i < sources.len() ==> self.tries_signal(
                world,
                sink,
                strategy,
                allowed,
                sources[i],
                #[trigger] tried[i],
            )
    }

    /// What routing to a port from the signals of a network comes to: from those
    /// nearest to the port in turn.
    pub open spec fn is_powered_route(
        &self,
        world: World3D,
        sources: Seq<PoweredRouteSource>,
        sink: ResolvedPortTarget,
        strategy: GlobalRoutingStrategy,
        allowed: Seq<Position>,
        result: RouteResult,
    ) -> bool {
        let sorted = nearest_sources(sources, sink.position);
        exists|tried: Seq<RouteAttempt>| #[trigger]
            self.are_signals_tried(world, sink, strategy, allowed, sorted, tried) && is_first(
                tried,
                tried_count(sorted.len()),
                RouteFailure::Unreachable {
                    source: if sorted.len() > 0 {
                        sorted[0].position
                    } else {
                        sink.position
                    },
                    sink: sink.position,
                },
                result,
            )
    }

    /// Routes to a port from the signals of a network.
    pub fn route_to_target_from_powered_network(
        &self,
        world: &World3D,
        sources: &Vec<PoweredRouteSource>,
        sink: ResolvedPortTarget,
        strategy: GlobalRoutingStrategy,
        allowed: &Vec<Position>,
    ) -> (result: RouteResult)
        requires
            self.valid(),
            world.wf(),
        ensures
            self.is_powered_route(*world, sources@, sink, strategy, allowed@, result),
            result matches Ok((_, after)) ==> after.wf(),
    {
        let sorted = sort_sources(sources, sink.position);
        let fallback = if sorted.len() > 0 {
            sorted[0].position
        } else {
            sink.position
        };
        let count: usize = if sorted.len() > FANOUT_ROUTE_SOURCE_LIMIT {
            FANOUT_ROUTE_SOURCE_LIMIT
        } else {
            sorted.len()
        };
        let ghost mut tried = Seq::<RouteAttempt>::empty();
        let ghost failure = RouteFailure::Unreachable { source: fallback, sink: sink.position };
        let mut result: RouteResult = Err(RouteFailure::Unreachable { source: fallback, sink: sink.position });
        let mut index: usize = 0;
        while index < count && result.is_err()
            invariant
                index <= count,
                count <= sorted.len(),
                self.valid(),
                world.wf(),
                tried.len() == index,
                failure == (RouteFailure::Unreachable { source: fallback, sink: sink.position }),
                is_first(tried, index as nat, failure, result),
                self.are_signals_tried(*world, sink, strategy, allowed@, sorted@, tried),
                result matches Ok((_, after)) ==> after.wf(),
            decreases count - index,
        {
            let attempt = self.try_signal(world, sink, strategy, allowed, sorted[index]);
            let ghost before = tried;
            proof {
                tried = tried.push(attempt);
                assert forall|i: int| 0 <= i < tried.len() && i < sorted.len() implies self.tries_signal(*world, sink, strategy, allowed@, sorted@[i], #[trigger] tried[i]) by {
                    if i < before.len() {
                        assert(tried[i] == before[i]);
                    }
                }
            }
            if let Some(found) = attempt {
                result = Ok(found);
            }
            index += 1;
        }
        proof {
            assert(sorted@ == nearest_sources(sources@, sink.position));
            assert(is_first(tried, tried_count(sorted@.len()), failure, result));
            assert(self.are_signals_tried(*world, sink, strategy, allowed@, sorted@, tried));
        }
        result
    }

    /// What routing an input from one signal comes to.
    pub open spec fn tries_input_signal(
        &self,
        world: World3D,
        logical: Position,
        sink: ResolvedPortTarget,
        strategy: GlobalRoutingStrategy,
        allowed: Seq<Position>,
        source: PoweredRouteSource,
        attempt: RouteAttempt,
    ) -> bool {
        exists|tried: RouteResult| #[trigger]
            self.is_logical_route(world, logical, source, sink, strategy, allowed, tried) && match tried {
                Ok(found) => attempt == Some(found),
                Err(_) => attempt is None,
            }
    }

    fn try_input_signal(
        &self,
        world: &World3D,
        logical: Position,
        sink: ResolvedPortTarget,
        strategy: GlobalRoutingStrategy,
        allowed: &Vec<Position>,
        source: PoweredRouteSource,
    ) -> (attempt: RouteAttempt)
        requires
            self.valid(),
            world.wf(),
        ensures
            self.tries_input_signal(*world, logical, sink, strategy, allowed@, source, attempt),
            attempt matches Some((_, after)) ==> after.wf(),
    {
        let tried = self.route_logical_source_to_target_position_with_strength(
            world,
            logical,
            source,
            sink,
            strategy,
            allowed,
        );
        let ghost outcome = tried;
        assert(self.is_logical_route(*world, logical, source, sink, strategy, allowed@, outcome));
        match tried {
            Ok(found) => Some(found),
            Err(_) => None,
        }
    }

    /// Whether signals of an input were tried in turn.
    pub open spec fn are_input_signals_tried(
        &self,
        world: World3D,
        logical: Position,
        sink: ResolvedPortTarget,
        strategy: GlobalRoutingStrategy,
        allowed: Seq<Position>,
        sources: Seq<PoweredRouteSource>,
        tried: Seq<RouteAttempt>,
    ) -> bool {
        forall|i: int|
            0 <= i < tried.len() && i < sources.len() ==> self.tries_input_signal(
                world,
                logical,
                sink,
                strategy,
                allowed,
                sources[i],
                #[trigger] tried[i],
            )
    }

    /// What routing an input to a port comes to: from its signals, the nearest to
    /// the port first.
    pub open spec fn is_input_route(
        &self,
        world: World3D,
        logical: Position,
        sources: Seq<PoweredRouteSource>,
        sink: ResolvedPortTarget,
        strategy: GlobalRoutingStrategy,
        allowed: Seq<Position>,
        result: RouteResult,
    ) -> bool {
        let sorted = nearest_sources(sources, sink.position);
        exists|tried: Seq<RouteAttempt>| #[trigger]
            self.are_input_signals_tried(world, logical, sink, strategy, allowed, sorted, tried) && is_first(
                tried,
                sorted.len(),
                RouteFailure::Unreachable { source: logical, sink: sink.position },
                result,
            )
    }

    /// Routes an input to a port.
    pub fn route_top_input_to_target_from_network(
        &self,
        world: &World3D,
        logical_source: Position,
        sources: &Vec<PoweredRouteSource>,
        sink: ResolvedPortTarget,
        strategy: GlobalRoutingStrategy,
        allowed: &Vec<Position>,
    ) -> (result: RouteResult)
        requires
            self.valid(),
            world.wf(),
        ensures
            self.is_input_route(*world, logical_source, sources@, sink, strategy, allowed@, result),
            result matches Ok((_, after)) ==> after.wf(),
    {
        let sorted = sort_sources(sources, sink.position);
        let count: usize = sorted.len();
        let ghost mut tried = Seq::<RouteAttempt>::empty();
        let ghost failure = RouteFailure::Unreachable { source: logical_source, sink: sink.position };
        let mut result: RouteResult = Err(RouteFailure::Unreachable { source: logical_source, sink: sink.position });
        let mut index: usize = 0;
        while index < count && result.is_err()
            invariant
                index <= count,
                count <= sorted.len(),
                self.valid(),
                world.wf(),
                tried.len() == index,
                failure == (RouteFailure::Unreachable { source: logical_source, sink: sink.position }),
                is_first(tried, index as nat, failure, result),
                self.are_input_signals_tried(*world, logical_source, sink, strategy, allowed@, sorted@, tried),
                result matches Ok((_, after)) ==> after.wf(),
            decreases count - index,
        {
            let attempt = self.try_input_signal(world, logical_source, sink, strategy, allowed, sorted[index]);
            let ghost before = tried;
            proof {
                tried = tried.push(attempt);
                assert forall|i: int| 0 <= i < tried.len() && i < sorted.len() implies self.tries_input_signal(*world, logical_source, sink, strategy, allowed@, sorted@[i], #[trigger] tried[i]) by {
                    if i < before.len() {
                        assert(tried[i] == before[i]);
                    }
                }
            }
            if let Some(found) = attempt {
                result = Ok(found);
            }
            index += 1;
        }
        proof {
            assert(sorted@ == nearest_sources(sources@, sink.position));
            assert(is_first(tried, sorted@.len(), failure, result));
            assert(self.are_input_signals_tried(*world, logical_source, sink, strategy, allowed@, sorted@, tried));
        }
        result
    }

    // -----------------------------------------------------------------------
    // From a port
    // -----------------------------------------------------------------------
    /// What routing from an output that has to be cut off comes to: through the
    /// repeater of an input where the sink asks for one, and where that leads
    /// nowhere, through a repeater at the output.
    pub open spec fn is_isolated_target_route(
        &self,
        world: World3D,
        logical: Position,
        source: Position,
        sink: ResolvedPortTarget,
        strategy: GlobalRoutingStrategy,
        allowed: Seq<Position>,
        result: RouteResult,
    ) -> bool {
        if sink.requires_input_diode {
            exists|tried: RouteResult| #[trigger]
                self.is_repeated_route(
                    world,
                    logical,
                    Approach::Output { source },
                    sink.position,
                    sink.input_repeater_delay,
                    strategy,
                    allowed,
                    tried,
                ) && match tried {
                    Ok(_) => result == tried,
                    Err(_) => self.is_isolated_route(
                        world,
                        logical,
                        source,
                        sink.position,
                        strategy,
                        allowed,
                        result,
                    ),
                }
        } else {
            self.is_isolated_route(world, logical, source, sink.position, strategy, allowed, result)
        }
    }

    /// Routes from an output that has to be cut off.
    pub fn route_isolated_output_to_target_position(
        &self,
        world: &World3D,
        logical_source: Position,
        route_source: Position,
        sink: ResolvedPortTarget,
        strategy: GlobalRoutingStrategy,
        allowed: &Vec<Position>,
    ) -> (result: RouteResult)
        requires
            self.valid(),
            world.wf(),
        ensures
            self.is_isolated_target_route(
                *world,
                logical_source,
                route_source,
                sink,
                strategy,
                allowed@,
                result,
            ),
            result matches Ok((_, after)) ==> after.wf(),
    {
        if sink.requires_input_diode {
            let tried = self.route_to_redstone_input_through_repeater_from_route_source(
                world,
                logical_source,
                Approach::Output { source: route_source },
                sink.position,
                sink.input_repeater_delay,
                strategy,
                allowed,
            );
            assert(self.is_repeated_route(
                *world,
                logical_source,
                Approach::Output { source: route_source },
                sink.position,
                sink.input_repeater_delay,
                strategy,
                allowed@,
                tried,
            ));
            if tried.is_ok() {
                return tried;
            }
            let result = self.route_isolated_output_to_point(
                world,
                logical_source,
                route_source,
                sink.position,
                strategy,
                allowed,
            );
            return result;
        }
        self.route_isolated_output_to_point(world, logical_source, route_source, sink.position, strategy, allowed)
    }

    /// What routing from a cell of a port comes to.
    pub open spec fn is_port_route(
        &self,
        world: World3D,
        port: PhysicalPort,
        logical: Position,
        source: Position,
        sink: ResolvedPortTarget,
        strategy: GlobalRoutingStrategy,
        allowed: Seq<Position>,
        result: RouteResult,
    ) -> bool {
        if port.direction == PhysicalPortDirection::Output && port.connection == PortConnection::OutputDiode {
            self.is_isolated_target_route(world, logical, source, sink, strategy, allowed, result)
        } else if port.direction == PhysicalPortDirection::Input {
            exists|network: Seq<Position>| #[trigger]
                is_network_of(&self.rule, world, logical, network) && self.is_network_route(
                    world,
                    network.push(source),
                    sink,
                    strategy,
                    allowed,
                    result,
                )
        } else {
            self.is_target_route(world, source, sink, strategy, allowed, result)
        }
    }

    /// Routes from a cell of a port.
    pub fn route_source_to_target_position(
        &self,
        world: &World3D,
        source_port: &PhysicalPort,
        logical_source: Position,
        route_source: Position,
        sink: ResolvedPortTarget,
        strategy: GlobalRoutingStrategy,
        allowed: &Vec<Position>,
    ) -> (result: RouteResult)
        requires
            self.valid(),
            world.wf(),
        ensures
            self.is_port_route(
                *world,
                *source_port,
                logical_source,
                route_source,
                sink,
                strategy,
                allowed@,
                result,
            ),
            result matches Ok((_, after)) ==> after.wf(),
    {
        if source_port.direction == PhysicalPortDirection::Output && source_port.requires_output_diode() {
            return self.route_isolated_output_to_target_position(
                world,
                logical_source,
                route_source,
                sink,
                strategy,
                allowed,
            );
        }
        if source_port.direction == PhysicalPortDirection::Input {
            let mut sources = redstone_network_positions(&self.rule, world, logical_source);
            let ghost network = sources@;
            assert(is_network_of(&self.rule, *world, logical_source, network));
            sources.push(route_source);
            return self.route_to_target_from_network(world, &sources, sink, strategy, allowed);
        }
        self.route_to_target_position(world, route_source, sink, strategy, allowed)
    }

    /// What routing from one of the cells of a port comes to.
    pub open spec fn tries_access(
        &self,
        world: World3D,
        port: PhysicalPort,
        logical: Position,
        sink: ResolvedPortTarget,
        strategy: GlobalRoutingStrategy,
        allowed: Seq<Position>,
        cell: Position,
        attempt: RouteAttempt,
    ) -> bool {
        if !is_usable(world, cell) {
            attempt is None
        } else {
            exists|tried: RouteResult| #[trigger]
                self.is_port_route(world, port, logical, cell, sink, strategy, allowed, tried) && self.is_accepted(
                    world,
                    tried,
                    strategy,
                    attempt,
                )
        }
    }

    fn try_access(
        &self,
        world: &World3D,
        port: &PhysicalPort,
        logical: Position,
        sink: ResolvedPortTarget,
        strategy: GlobalRoutingStrategy,
        allowed: &Vec<Position>,
        cell: Position,
    ) -> (attempt: RouteAttempt)
        requires
            self.valid(),
            world.wf(),
        ensures
            self.tries_access(*world, *port, logical, sink, strategy, allowed@, cell, attempt),
            attempt matches Some((_, after)) ==> after.wf(),
    {
        if !usable(world, cell) {
            return None;
        }
        let tried = self.route_source_to_target_position(world, port, logical, cell, sink, strategy, allowed);
        assert(self.is_port_route(*world, *port, logical, cell, sink, strategy, allowed@, tried));
        self.accept(world, tried, strategy)
    }

    /// Whether the cells of a port were tried in turn.
    pub open spec fn are_accesses_tried(
        &self,
        world: World3D,
        port: PhysicalPort,
        logical: Position,
        sink: ResolvedPortTarget,
        strategy: GlobalRoutingStrategy,
        allowed: Seq<Position>,
        cells: Seq<Position>,
        tried: Seq<RouteAttempt>,
    ) -> bool {
        forall|i: int|
            0 <= i < tried.len() && i < cells.len() ==> self.tries_access(
                world,
                port,
                logical,
                sink,
                strategy,
                allowed,
                cells[i],
                #[trigger] tried[i],
            )
    }

    /// What routing from a port comes to: from its cells nearest to the sink in
    /// turn.
    pub open spec fn is_access_route(
        &self,
        world: World3D,
        port: PhysicalPort,
        logical: Position,
        access: Seq<Position>,
        sink: ResolvedPortTarget,
        strategy: GlobalRoutingStrategy,
        allowed: Seq<Position>,
        result: RouteResult,
    ) -> bool {
        let cells = leaving_cells(access, logical, sink.position);
        exists|tried: Seq<RouteAttempt>| #[trigger]
            self.are_accesses_tried(world, port, logical, sink, strategy, allowed, cells, tried) && is_first(
                tried,
                cells.len(),
                RouteFailure::Unreachable {
                    source: first_or(deduped(nearest_cells(access.push(logical), sink.position)), logical),
                    sink: sink.position,
                },
                result,
            )
    }

    /// Routes from a port.
    pub fn route_source_to_target_from_access_points(
        &self,
        world: &World3D,
        source_port: &PhysicalPort,
        logical_source: Position,
        route_sources: &Vec<Position>,
        sink: ResolvedPortTarget,
        strategy: GlobalRoutingStrategy,
        allowed: &Vec<Position>,
    ) -> (result: RouteResult)
        requires
            self.valid(),
            world.wf(),
        ensures
            self.is_access_route(
                *world,
                *source_port,
                logical_source,
                route_sources@,
                sink,
                strategy,
                allowed@,
                result,
            ),
            result matches Ok((_, after)) ==> after.wf(),
    {
        let mut sources = copy_cells(route_sources);
        sources.push(logical_source);
        let sorted = sort_cells(&sources, sink.position);
        let distinct = dedup_cells(&sorted);
        let fallback = if distinct.len() > 0 {
            distinct[0]
        } else {
            logical_source
        };
        let cells = choose_leaving(&distinct, logical_source);
        let count: usize = cells.len();
        let ghost mut tried = Seq::<RouteAttempt>::empty();
        let ghost failure = RouteFailure::Unreachable { source: fallback, sink: sink.position };
        let mut result: RouteResult = Err(RouteFailure::Unreachable { source: fallback, sink: sink.position });
        let mut index: usize = 0;
        while index < count && result.is_err()
            invariant
                index <= count,
                count <= cells.len(),
                self.valid(),
                world.wf(),
                tried.len() == index,
                failure == (RouteFailure::Unreachable { source: fallback, sink: sink.position }),
                is_first(tried, index as nat, failure, result),
                self.are_accesses_tried(*world, *source_port, logical_source, sink, strategy, allowed@, cells@, tried),
                result matches Ok((_, after)) ==> after.wf(),
            decreases count - index,
        {
            let attempt = self.try_access(world, source_port, logical_source, sink, strategy, allowed, cells[index]);
            let ghost before = tried;
            proof {
                tried = tried.push(attempt);
                assert forall|i: int| 0 <= i < tried.len() && i < cells.len() implies self.tries_access(*world, *source_port, logical_source, sink, strategy, allowed@, cells@[i], #[trigger] tried[i]) by {
                    if i < before.len() {
                        assert(tried[i] == before[i]);
                    }
                }
            }
            if let Some(found) = attempt {
                result = Ok(found);
            }
            index += 1;
        }
        proof {
            assert(cells@ == leaving_cells(route_sources@, logical_source, sink.position));
            assert(is_first(tried, cells@.len(), failure, result));
            assert(self.are_accesses_tried(
                *world,
                *source_port,
                logical_source,
                sink,
                strategy,
                allowed@,
                cells@,
                tried,
            ));
        }
        result
    }
}

fn choose_leaving(distinct: &Vec<Position>, logical: Position) -> (cells: Vec<Position>)
    ensures
        cells@ == (if first_cells(distinct@).contains(logical) {
            first_cells(distinct@)
        } else {
            first_cells(distinct@).push(logical)
        }),
{
    let mut cells: Vec<Position> = Vec::new();
    let mut found = false;
    let mut index: usize = 0;
    while index < distinct.len() && index < FANOUT_ROUTE_SOURCE_LIMIT
        invariant
            index <= distinct.len(),
            index <= FANOUT_ROUTE_SOURCE_LIMIT,
            cells@ == distinct@.take(index as int),
            found == cells@.contains(logical),
        decreases distinct.len() - index,
    {
        let ghost before = cells@;
        cells.push(distinct[index]);
        proof {
            assert(cells@ =~= distinct@.take(index + 1));
            if before.contains(logical) {
                let i = choose|i: int| 0 <= i < before.len() && before[i] == logical;
                assert(cells@[i] == logical);
            }
            if distinct@[index as int] == logical {
                assert(cells@[index as int] == logical);
            }
            if cells@.contains(logical) && distinct@[index as int] != logical {
                let i = choose|i: int| 0 <= i < cells@.len() && cells@[i] == logical;
                assert(before[i] == logical);
            }
        }
        if distinct[index] == logical {
            found = true;
        }
        index += 1;
    }
    assert(cells@ =~= first_cells(distinct@));
    if !found {
        cells.push(logical);
    }
    cells
}

} // verus!

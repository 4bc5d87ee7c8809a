//! Routes that leave an output, and routes that lead through the repeater of an
//! input.

use super::diode::InputDiodeAdapter;
use super::tools::{copy_cells, is_first, RouteAttempt, RouteResult, RouteTools};
use crate::number::capped;
use crate::order::{stable_order, stable_order_is_unique, the_stable_order, RankKey};
use crate::transform::place_and_route::global_pnr::route_engine::contacts::{added_blocks, added_route_blocks};
use crate::transform::place_and_route::global_pnr::route_engine::engine::{
    copies_are_wf, copy_state, fresh_state, is_fresh, same_state,
};
use crate::transform::place_and_route::global_pnr::route_engine::escape::{
    are_all_ways_out, isolated_output_repeater_initial_states,
};
use crate::transform::place_and_route::global_pnr::route_engine::route::{
    is_plain_route, GlobalRoutingStrategy, RouteFailure, RoutedNet,
};
use crate::transform::place_and_route::global_pnr::route_engine::search::PlaceRequest;
use crate::transform::place_and_route::global_pnr::route_engine::state::{
    PlaceBound, PoweredRouteSource, RouteSearchState, MAX_REDSTONE_STRENGTH,
};
use crate::transform::place_and_route::global_pnr::route_engine::taps::{are_all_taps, routeable_output_taps, TapKey};
use crate::world::block::Block;
use crate::world::grid::{Placed, World3D};
use crate::world::position::{distance, in_bounds, Position};
use vstd::prelude::*;

verus! {

/// Whether a route is another from a source to a sink of its own, with blocks of
/// its own, and asks for power at its sink alone.
pub open spec fn is_remade(
    route: RoutedNet,
    tried: RoutedNet,
    source: Position,
    sink: Position,
    blocks: Seq<Placed>,
) -> bool {
    &&& is_plain_route(route, source, sink, blocks, tried.path@)
    &&& route.powered_taps@ == tried.powered_taps@
}

/// Makes a route between two cells of another.
pub fn remake(tried: RoutedNet, source: Position, sink: Position, blocks: Vec<Placed>) -> (route: RoutedNet)
    ensures
        is_remade(route, tried, source, sink, blocks@),
{
    let taps = tried.powered_route_sources();
    RoutedNet::new(source, sink, blocks, tried.path).with_powered_taps(taps)
}

/// By what bounds are ordered: free cells first, then those that are taken, then
/// those outside; and of those the nearest to the sink.
pub open spec fn free_first_keys(bounds: Seq<PlaceBound>, world: World3D, sink: Position) -> Seq<RankKey> {
    bounds.map_values(
        |bound: PlaceBound|
            RankKey(
                if !in_bounds(world.size, bound.position) {
                    2
                } else if !(world.at(bound.position).kind is Air) {
                    1
                } else {
                    0
                },
                capped(distance(bound.position, sink)) as usize,
                bound.position.0,
                bound.position.1,
                bound.position.2,
            ),
    )
}

/// Bounds with free cells first, and of those the nearest to the sink.
pub open spec fn free_first(bounds: Seq<PlaceBound>, world: World3D, sink: Position) -> Seq<PlaceBound> {
    let order = the_stable_order(free_first_keys(bounds, world, sink));
    Seq::new(bounds.len(), |i: int| bounds[order[i] as int])
}

/// Orders bounds: free cells first, and of those the nearest to the sink.
pub fn sorted_route_bounds(bounds: &Vec<PlaceBound>, world: &World3D, sink: Position) -> (sorted: Vec<PlaceBound>)
    requires
        world.wf(),
    ensures
        sorted@ == free_first(bounds@, *world, sink),
{
    let mut keys: Vec<RankKey> = Vec::new();
    let mut index: usize = 0;
    while index < bounds.len()
        invariant
            index <= bounds.len(),
            world.wf(),
            keys.len() == index,
            forall|i: int| 0 <= i < index ==> #[trigger] keys@[i] == free_first_keys(bounds@, *world, sink)[i],
        decreases bounds.len() - index,
    {
        let cell = bounds[index].position;
        let room: usize = if !world.size.bound_on(cell) {
            2
        } else if !world.get(cell).kind.is_air() {
            1
        } else {
            0
        };
        keys.push(RankKey(room, cell.capped_distance(&sink), cell.0, cell.1, cell.2));
        index += 1;
    }
    assert(keys@ =~= free_first_keys(bounds@, *world, sink));
    let order = stable_order(&keys);
    proof {
        stable_order_is_unique(keys@, order@);
    }
    let mut sorted: Vec<PlaceBound> = Vec::new();
    let mut index: usize = 0;
    while index < order.len()
        invariant
            index <= order.len(),
            order.len() == bounds.len(),
            order@ == the_stable_order(free_first_keys(bounds@, *world, sink)),
            forall|i: int| 0 <= i < order.len() ==> #[trigger] order@[i] < bounds.len(),
            sorted.len() == index,
            forall|i: int| 0 <= i < index ==> #[trigger] sorted@[i] == bounds@[order@[i] as int],
        decreases order.len() - index,
    {
        let at: usize = order[index];
        assert(order@[index as int] < bounds.len());
        sorted.push(bounds[at]);
        index += 1;
    }
    assert(sorted@ =~= free_first(bounds@, *world, sink));
    sorted
}

/// How a route gets to the repeater of an input.
#[derive(Clone, Copy, Debug, PartialEq, Eq, Structural)]
pub enum Approach {
    /// From a signal of some strength.
    Signal { source: PoweredRouteSource },
    /// Out of an output.
    Output { source: Position },
}

/// Whether a route through the repeater of an input asks for what it has to: for
/// power in front of the repeater, in it and behind it.
pub open spec fn is_adapter_route(
    route: RoutedNet,
    tried: RoutedNet,
    source: Position,
    adapter: InputDiodeAdapter,
    blocks: Seq<Placed>,
) -> bool {
    &&& route.net_id is None
    &&& route.source_endpoint is None
    &&& route.sink_endpoint is None
    &&& route.source_label is None
    &&& route.sink_label is None
    &&& route.source == source
    &&& route.sink == adapter.target
    &&& route.blocks@ == blocks
    &&& route.path@ == tried.path@
    &&& route.powered_taps@ == tried.powered_taps@
    &&& route.required_powered_positions@ == seq![adapter.driver, adapter.repeater, adapter.target]
    &&& route.required_released_positions@ == seq![adapter.driver, adapter.repeater]
}

/// Whether a route leads as far as the repeater of an input.
pub open spec fn is_driver_route(
    route: RoutedNet,
    tried: RoutedNet,
    source: Position,
    adapter: InputDiodeAdapter,
    blocks: Seq<Placed>,
) -> bool {
    &&& is_plain_route(route, source, adapter.driver, blocks, tried.path@)
    &&& route.powered_taps@ == (if tried.path@.len() > 0 {
        seq![(tried.path@.last(), MAX_REDSTONE_STRENGTH)]
    } else {
        Seq::<(Position, usize)>::empty()
    })
}

impl<
    F: Fn(&World3D, Position, Position) -> bool,
    C: Fn(&World3D, Position, Position) -> bool,
    B: Fn(&World3D, Position) -> Vec<PlaceBound>,
    L: Fn(&World3D, &PlaceRequest) -> Option<(World3D, Position)>,
    P: Fn(&World3D, Position, Block, &Vec<Position>) -> Option<World3D>,
    S: Fn(&World3D, Position, Option<bool>, &Vec<Position>) -> Option<Vec<bool>>,
> RouteTools<F, C, B, L, P, S> {
    /// What becomes of a route that was tried: it is kept where it does what it
    /// is to do.
    pub open spec fn is_accepted(
        &self,
        world: World3D,
        tried: RouteResult,
        strategy: GlobalRoutingStrategy,
        attempt: RouteAttempt,
    ) -> bool {
        match tried {
            Err(_) => attempt is None,
            Ok(found) => self.is_passed(world, found.0, found.1, strategy, attempt),
        }
    }

    /// What checking a route comes to.
    pub open spec fn is_passed(
        &self,
        world: World3D,
        route: RoutedNet,
        after: World3D,
        strategy: GlobalRoutingStrategy,
        attempt: RouteAttempt,
    ) -> bool {
        exists|accepted: bool| #[trigger]
            self.checks(world, after, route, strategy, accepted) && attempt == (if accepted {
                Some((route, after))
            } else {
                None
            })
    }

    /// Keeps a route that was tried where it does what it is to do.
    pub fn accept(&self, world: &World3D, tried: RouteResult, strategy: GlobalRoutingStrategy) -> (attempt: RouteAttempt)
        requires
            self.valid(),
            world.wf(),
            tried matches Ok((_, after)) ==> after.wf(),
        ensures
            self.is_accepted(*world, tried, strategy, attempt),
            attempt matches Some((_, after)) ==> after.wf(),
    {
        match tried {
            Err(_) => None,
            Ok((route, after)) => {
                let accepted = self.check(world, &after, &route, strategy);
                assert(self.checks(*world, after, route, strategy, accepted));
                if accepted {
                    Some((route, after))
                } else {
                    None
                }
            },
        }
    }

    // -----------------------------------------------------------------------
    // Out of an output
    // -----------------------------------------------------------------------
    /// Whether a route has not left an output, and goes on where its power
    /// spreads to.
    pub open spec fn is_spreading(
        &self,
        world: World3D,
        source: Position,
        sink: Position,
        state: RouteSearchState,
    ) -> bool {
        &&& is_fresh(world, source, 2, RouteSearchState { pending_bounds: None, ..state })
        &&& exists|bounds: Vec<PlaceBound>| #[trigger]
            call_ensures(self.spread, (&world, source), bounds) && state.pending_bounds is Some
                && state.pending_bounds->0@ == free_first(bounds@, world, sink)
    }

    /// What leaving an output where its power spreads to comes to.
    pub open spec fn leaves_spreading(
        &self,
        world: World3D,
        logical: Position,
        source: Position,
        sink: Position,
        strategy: GlobalRoutingStrategy,
        allowed: Seq<Position>,
        attempt: RouteAttempt,
    ) -> bool {
        exists|state: RouteSearchState, tried: RouteResult|
            {
                &&& #[trigger] self.is_spreading(world, source, sink, state)
                &&& #[trigger] self.goes_on(world, logical, sink, state, strategy, allowed, tried)
                &&& self.is_accepted(world, tried, strategy, attempt)
            }
    }

    fn leave_spreading(
        &self,
        world: &World3D,
        logical: Position,
        source: Position,
        sink: Position,
        strategy: GlobalRoutingStrategy,
        allowed: &Vec<Position>,
    ) -> (attempt: RouteAttempt)
        requires
            self.valid(),
            world.wf(),
        ensures
            self.leaves_spreading(*world, logical, source, sink, strategy, allowed@, attempt),
            attempt matches Some((_, after)) ==> after.wf(),
    {
        let spread = &self.spread;
        let bounds = spread(world, source);
        let mut state = fresh_state(world, source, 2);
        let ghost fresh = state;
        state.pending_bounds = Some(sorted_route_bounds(&bounds, world, sink));
        proof {
            assert(RouteSearchState { pending_bounds: None, ..state } == fresh);
            assert(call_ensures(self.spread, (world, source), bounds));
            assert(self.is_spreading(*world, source, sink, state));
        }
        let ghost started = state;
        let tried = self.go_on(world, logical, sink, state, strategy, allowed);
        assert(self.goes_on(*world, logical, sink, started, strategy, allowed@, tried));
        let attempt = self.accept(world, tried, strategy);
        assert(self.is_spreading(*world, source, sink, started));
        attempt
    }

    /// What leaving an output from a tap comes to.
    pub open spec fn leaves_tap(
        &self,
        world: World3D,
        logical: Position,
        tap: TapKey,
        sink: Position,
        strategy: GlobalRoutingStrategy,
        allowed: Seq<Position>,
        attempt: RouteAttempt,
    ) -> bool {
        exists|state: RouteSearchState, tried: RouteResult|
            {
                &&& #[trigger] is_fresh(world, tap.cell, tap.strength, state)
                &&& #[trigger] self.goes_on(world, logical, sink, state, strategy, allowed, tried)
                &&& match tried {
                    Err(_) => attempt is None,
                    Ok(found) => self.is_passed_remade(world, logical, sink, found.0, found.1, strategy, attempt),
                }
            }
    }

    /// What checking a route that was made of another comes to.
    pub open spec fn is_passed_remade(
        &self,
        world: World3D,
        logical: Position,
        sink: Position,
        found: RoutedNet,
        after: World3D,
        strategy: GlobalRoutingStrategy,
        attempt: RouteAttempt,
    ) -> bool {
        exists|route: RoutedNet| #[trigger]
            is_remade(route, found, logical, sink, added_blocks(world, after, after.listed().len()))
                && self.is_passed(world, route, after, strategy, attempt)
    }

    fn leave_tap(
        &self,
        world: &World3D,
        logical: Position,
        tap: TapKey,
        sink: Position,
        strategy: GlobalRoutingStrategy,
        allowed: &Vec<Position>,
    ) -> (attempt: RouteAttempt)
        requires
            self.valid(),
            world.wf(),
        ensures
            self.leaves_tap(*world, logical, tap, sink, strategy, allowed@, attempt),
            attempt matches Some((_, after)) ==> after.wf(),
    {
        let state = fresh_state(world, tap.cell, tap.strength);
        let ghost started = state;
        let tried = self.go_on(world, logical, sink, state, strategy, allowed);
        let ghost result = tried;
        assert(is_fresh(*world, tap.cell, tap.strength, started));
        assert(self.goes_on(*world, logical, sink, started, strategy, allowed@, result));
        match tried {
            Err(_) => None,
            Ok((found, after)) => {
                let ghost was = found;
                let blocks = added_route_blocks(world, &after);
                let route = remake(found, logical, sink, blocks);
                assert(is_remade(route, was, logical, sink, added_blocks(*world, after, after.listed().len())));
                let attempt = self.accept(world, Ok((route, after)), strategy);
                assert(self.is_passed(*world, route, after, strategy, attempt));
                assert(self.is_passed_remade(*world, logical, sink, was, after, strategy, attempt));
                attempt
            },
        }
    }

    /// Whether attempts to leave an output were made in turn.
    pub open spec fn are_taps_tried(
        &self,
        world: World3D,
        logical: Position,
        sink: Position,
        strategy: GlobalRoutingStrategy,
        allowed: Seq<Position>,
        taps: Seq<TapKey>,
        tried: Seq<RouteAttempt>,
    ) -> bool {
        forall|i: int|
            0 <= i < tried.len() && i < taps.len() ==> self.leaves_tap(
                world,
                logical,
                taps[i],
                sink,
                strategy,
                allowed,
                #[trigger] tried[i],
            )
    }

    /// What leaving an output from its taps comes to.
    pub open spec fn leaves_by_taps(
        &self,
        world: World3D,
        logical: Position,
        source: Position,
        sink: Position,
        strategy: GlobalRoutingStrategy,
        allowed: Seq<Position>,
        result: RouteResult,
    ) -> bool {
        exists|taps: Seq<TapKey>, tried: Seq<RouteAttempt>|
            {
                &&& #[trigger] are_all_taps(&self.rule, world, source, sink, taps)
                &&& #[trigger] self.are_taps_tried(world, logical, sink, strategy, allowed, taps, tried)
                &&& is_first(tried, taps.len(), RouteFailure::Unreachable { source: logical, sink }, result)
            }
    }

    /// What leaving an output comes to: where its power spreads to, and where
    /// that leads nowhere, from its taps.
    pub open spec fn is_direct_route(
        &self,
        world: World3D,
        logical: Position,
        source: Position,
        sink: Position,
        strategy: GlobalRoutingStrategy,
        allowed: Seq<Position>,
        result: RouteResult,
    ) -> bool {
        exists|first: RouteAttempt| #[trigger]
            self.leaves_spreading(world, logical, source, sink, strategy, allowed, first) && match first {
                Some(found) => result == Ok::<(RoutedNet, World3D), RouteFailure>(found),
                None => self.leaves_by_taps(world, logical, source, sink, strategy, allowed, result),
            }
    }

    /// Routes out of an output.
    pub fn route_direct_output_to_point(
        &self,
        world: &World3D,
        logical_source: Position,
        route_source: Position,
        sink: Position,
        strategy: GlobalRoutingStrategy,
        allowed: &Vec<Position>,
    ) -> (result: RouteResult)
        requires
            self.valid(),
            world.wf(),
        ensures
            self.is_direct_route(*world, logical_source, route_source, sink, strategy, allowed@, result),
            result matches Ok((_, after)) ==> after.wf(),
    {
        let first = self.leave_spreading(world, logical_source, route_source, sink, strategy, allowed);
        assert(self.leaves_spreading(*world, logical_source, route_source, sink, strategy, allowed@, first));
        if let Some(found) = first {
            return Ok(found);
        }
        let taps = routeable_output_taps(&self.rule, world, route_source, sink);
        let ghost mut tried = Seq::<RouteAttempt>::empty();
        let ghost failure = RouteFailure::Unreachable { source: logical_source, sink };
        let mut result: RouteResult = Err(RouteFailure::Unreachable { source: logical_source, sink });
        let mut index: usize = 0;
        while index < taps.len() && result.is_err()
            invariant
                index <= taps.len(),
                self.valid(),
                world.wf(),
                tried.len() == index,
                failure == (RouteFailure::Unreachable { source: logical_source, sink }),
                is_first(tried, index as nat, failure, result),
                self.are_taps_tried(*world, logical_source, sink, strategy, allowed@, taps@, tried),
                result matches Ok((_, after)) ==> after.wf(),
            decreases taps.len() - index,
        {
            let attempt = self.leave_tap(world, logical_source, taps[index], sink, strategy, allowed);
            let ghost before = tried;
            proof {
                tried = tried.push(attempt);
                assert forall|i: int| 0 <= i < tried.len() && i < taps.len() implies self.leaves_tap(
                    *world,
                    logical_source,
                    taps@[i],
                    sink,
                    strategy,
                    allowed@,
                    #[trigger] tried[i],
                ) by {
                    if i < before.len() {
                        assert(tried[i] == before[i]);
                    }
                }
            }
            if let Some(found) = attempt {
                result = Ok(found);
            }
            index += 1;
        }
        proof {
            assert(is_first(tried, taps@.len(), failure, result));
            assert(are_all_taps(&self.rule, *world, route_source, sink, taps@));
            assert(self.leaves_by_taps(*world, logical_source, route_source, sink, strategy, allowed@, result));
        }
        result
    }

    /// What going on with a way out comes to.
    pub open spec fn takes_way_out(
        &self,
        world: World3D,
        logical: Position,
        sink: Position,
        strategy: GlobalRoutingStrategy,
        allowed: Seq<Position>,
        way: RouteSearchState,
        attempt: RouteAttempt,
    ) -> bool {
        exists|state: RouteSearchState, tried: RouteResult|
            {
                &&& same_state(state, way)
                &&& #[trigger] self.goes_on(world, logical, sink, state, strategy, allowed, tried)
                &&& self.is_accepted(world, tried, strategy, attempt)
            }
    }

    fn take_way_out(
        &self,
        world: &World3D,
        logical: Position,
        sink: Position,
        strategy: GlobalRoutingStrategy,
        allowed: &Vec<Position>,
        way: &RouteSearchState,
    ) -> (attempt: RouteAttempt)
        requires
            self.valid(),
            world.wf(),
            way.world.wf(),
        ensures
            self.takes_way_out(*world, logical, sink, strategy, allowed@, *way, attempt),
            attempt matches Some((_, after)) ==> after.wf(),
    {
        let state = copy_state(way);
        let ghost started = state;
        proof {
            copies_are_wf(way.world, state.world);
        }
        let tried = self.go_on(world, logical, sink, state, strategy, allowed);
        assert(self.goes_on(*world, logical, sink, started, strategy, allowed@, tried));
        self.accept(world, tried, strategy)
    }

    /// Whether attempts to go on with ways out were made in turn.
    pub open spec fn are_ways_tried(
        &self,
        world: World3D,
        logical: Position,
        sink: Position,
        strategy: GlobalRoutingStrategy,
        allowed: Seq<Position>,
        ways: Seq<RouteSearchState>,
        tried: Seq<RouteAttempt>,
    ) -> bool {
        forall|i: int|
            0 <= i < tried.len() && i < ways.len() ==> self.takes_way_out(
                world,
                logical,
                sink,
                strategy,
                allowed,
                ways[i],
                #[trigger] tried[i],
            )
    }

    /// What routing out of an output that is cut off by a repeater comes to.
    pub open spec fn is_isolated_route(
        &self,
        world: World3D,
        logical: Position,
        source: Position,
        sink: Position,
        strategy: GlobalRoutingStrategy,
        allowed: Seq<Position>,
        result: RouteResult,
    ) -> bool {
        exists|ways: Seq<RouteSearchState>, tried: Seq<RouteAttempt>|
            {
                &&& #[trigger] are_all_ways_out(
                    &self.rule,
                    &self.spread,
                    &self.place,
                    &self.put,
                    world,
                    logical,
                    source,
                    sink,
                    allowed,
                    ways,
                )
                &&& #[trigger] self.are_ways_tried(world, logical, sink, strategy, allowed, ways, tried)
                &&& is_first(tried, ways.len(), RouteFailure::Unreachable { source: logical, sink }, result)
            }
    }

    /// Routes out of an output that is cut off by a repeater.
    pub fn route_isolated_output_to_point(
        &self,
        world: &World3D,
        logical_source: Position,
        route_source: Position,
        sink: Position,
        strategy: GlobalRoutingStrategy,
        allowed: &Vec<Position>,
    ) -> (result: RouteResult)
        requires
            self.valid(),
            world.wf(),
        ensures
            self.is_isolated_route(*world, logical_source, route_source, sink, strategy, allowed@, result),
            result matches Ok((_, after)) ==> after.wf(),
    {
        let ways = isolated_output_repeater_initial_states(
            &self.rule,
            &self.spread,
            &self.place,
            &self.put,
            world,
            logical_source,
            route_source,
            sink,
            allowed,
        );
        let ghost mut tried = Seq::<RouteAttempt>::empty();
        let ghost failure = RouteFailure::Unreachable { source: logical_source, sink };
        let mut result: RouteResult = Err(RouteFailure::Unreachable { source: logical_source, sink });
        let mut index: usize = 0;
        while index < ways.len() && result.is_err()
            invariant
                index <= ways.len(),
                self.valid(),
                world.wf(),
                forall|i: int| 0 <= i < ways@.len() ==> (#[trigger] ways@[i]).world.wf(),
                tried.len() == index,
                failure == (RouteFailure::Unreachable { source: logical_source, sink }),
                is_first(tried, index as nat, failure, result),
                self.are_ways_tried(*world, logical_source, sink, strategy, allowed@, ways@, tried),
                result matches Ok((_, after)) ==> after.wf(),
            decreases ways.len() - index,
        {
            assert(ways@[index as int].world.wf());
            let attempt = self.take_way_out(world, logical_source, sink, strategy, allowed, &ways[index]);
            let ghost before = tried;
            proof {
                tried = tried.push(attempt);
                assert forall|i: int| 0 <= i < tried.len() && i < ways.len() implies self.takes_way_out(
                    *world,
                    logical_source,
                    sink,
                    strategy,
                    allowed@,
                    ways@[i],
                    #[trigger] tried[i],
                ) by {
                    if i < before.len() {
                        assert(tried[i] == before[i]);
                    }
                }
            }
            if let Some(found) = attempt {
                result = Ok(found);
            }
            index += 1;
        }
        proof {
            assert(is_first(tried, ways@.len(), failure, result));
            assert(self.are_ways_tried(*world, logical_source, sink, strategy, allowed@, ways@, tried));
        }
        result
    }

    // -----------------------------------------------------------------------
    // Through the repeater of an input
    // -----------------------------------------------------------------------
    /// What getting to the repeater of an input comes to.
    pub open spec fn approaches(
        &self,
        logical: Position,
        approach: Approach,
        adapter: InputDiodeAdapter,
        strategy: GlobalRoutingStrategy,
        allowed: Seq<Position>,
        result: RouteResult,
    ) -> bool {
        match approach {
            Approach::Signal { source } => self.routes_from(
                adapter.world,
                source.position,
                source.strength,
                adapter.driver,
                strategy,
                allowed,
                result,
            ),
            Approach::Output { source } => self.is_direct_route(
                adapter.world,
                logical,
                source,
                adapter.driver,
                strategy,
                allowed,
                result,
            ),
        }
    }

    /// What routing through the repeater of an input comes to: the route has to
    /// do what it is to do as far as the repeater, and behind it too.
    pub open spec fn leads_through(
        &self,
        world: World3D,
        logical: Position,
        approach: Approach,
        adapter: InputDiodeAdapter,
        strategy: GlobalRoutingStrategy,
        allowed: Seq<Position>,
        attempt: RouteAttempt,
    ) -> bool {
        exists|tried: RouteResult| #[trigger]
            self.approaches(logical, approach, adapter, strategy, allowed, tried) && match tried {
                Err(_) => attempt is None,
                Ok(found) => self.is_passed_twice(world, logical, adapter, found.0, found.1, strategy, attempt),
            }
    }

    /// What checking a route through the repeater of an input comes to.
    pub open spec fn is_passed_twice(
        &self,
        world: World3D,
        logical: Position,
        adapter: InputDiodeAdapter,
        found: RoutedNet,
        after: World3D,
        strategy: GlobalRoutingStrategy,
        attempt: RouteAttempt,
    ) -> bool {
        let blocks = added_blocks(world, after, after.listed().len());
        exists|driver: RoutedNet, accepted: bool|
            {
                &&& #[trigger] is_driver_route(driver, found, logical, adapter, blocks)
                &&& #[trigger] self.checks(world, after, driver, strategy, accepted)
                &&& if accepted {
                    self.is_passed_behind(world, logical, adapter, found, after, strategy, attempt)
                } else {
                    attempt is None
                }
            }
    }

    /// What checking a route behind the repeater of an input comes to.
    pub open spec fn is_passed_behind(
        &self,
        world: World3D,
        logical: Position,
        adapter: InputDiodeAdapter,
        found: RoutedNet,
        after: World3D,
        strategy: GlobalRoutingStrategy,
        attempt: RouteAttempt,
    ) -> bool {
        exists|route: RoutedNet| #[trigger]
            is_adapter_route(route, found, logical, adapter, added_blocks(world, after, after.listed().len()))
                && self.is_passed(world, route, after, strategy, attempt)
    }

    fn lead_through(
        &self,
        world: &World3D,
        logical: Position,
        approach: Approach,
        adapter: &InputDiodeAdapter,
        strategy: GlobalRoutingStrategy,
        allowed: &Vec<Position>,
    ) -> (attempt: RouteAttempt)
        requires
            self.valid(),
            world.wf(),
            adapter.world.wf(),
        ensures
            self.leads_through(*world, logical, approach, *adapter, strategy, allowed@, attempt),
            attempt matches Some((_, after)) ==> after.wf(),
    {
        let tried = match approach {
            Approach::Signal { source } => self.route_from(
                &adapter.world,
                source.position,
                source.strength,
                adapter.driver,
                strategy,
                allowed,
            ),
            Approach::Output { source } => self.route_direct_output_to_point(
                &adapter.world,
                logical,
                source,
                adapter.driver,
                strategy,
                allowed,
            ),
        };
        let ghost result = tried;
        assert(self.approaches(logical, approach, *adapter, strategy, allowed@, result));
        let (found, after) = match tried {
            Err(_) => return None,
            Ok(found) => found,
        };
        let ghost was = found;
        let ghost added = added_blocks(*world, after, after.listed().len());
        let driver = RoutedNet::new(
            logical,
            adapter.driver,
            added_route_blocks(world, &after),
            copy_cells(&found.path),
        );
        assert(is_driver_route(driver, was, logical, *adapter, added));
        let accepted = self.check(world, &after, &driver, strategy);
        assert(self.checks(*world, after, driver, strategy, accepted));
        if !accepted {
            assert(self.is_passed_twice(*world, logical, *adapter, was, after, strategy, None));
            return None;
        }
        let taps = found.powered_route_sources();
        let powered = vec![adapter.driver, adapter.repeater, adapter.target];
        let released = vec![adapter.driver, adapter.repeater];
        assert(powered@ =~= seq![adapter.driver, adapter.repeater, adapter.target]);
        assert(released@ =~= seq![adapter.driver, adapter.repeater]);
        let route = RoutedNet::new(
            logical,
            adapter.target,
            added_route_blocks(world, &after),
            found.path,
        ).with_required_powered_positions(powered).with_required_released_positions(released).with_powered_taps(taps);
        assert(is_adapter_route(route, was, logical, *adapter, added));
        let attempt = self.accept(world, Ok((route, after)), strategy);
        assert(self.is_passed(*world, route, after, strategy, attempt));
        assert(self.is_passed_behind(*world, logical, *adapter, was, after, strategy, attempt));
        assert(self.is_passed_twice(*world, logical, *adapter, was, after, strategy, attempt));
        attempt
    }

    /// Whether attempts to lead through adapters were made in turn.
    pub open spec fn are_adapters_tried(
        &self,
        world: World3D,
        logical: Position,
        approach: Approach,
        strategy: GlobalRoutingStrategy,
        allowed: Seq<Position>,
        adapters: Seq<InputDiodeAdapter>,
        tried: Seq<RouteAttempt>,
    ) -> bool {
        forall|i: int|
            0 <= i < tried.len() && i < adapters.len() ==> self.leads_through(
                world,
                logical,
                approach,
                adapters[i],
                strategy,
                allowed,
                #[trigger] tried[i],
            )
    }

    /// What routing to an input through a repeater in front of it comes to.
    pub open spec fn is_repeated_route(
        &self,
        world: World3D,
        logical: Position,
        approach: Approach,
        sink: Position,
        delay: usize,
        strategy: GlobalRoutingStrategy,
        allowed: Seq<Position>,
        result: RouteResult,
    ) -> bool {
        exists|adapters: Seq<InputDiodeAdapter>, tried: Seq<RouteAttempt>|
            {
                &&& #[trigger] self.are_input_adapters(world, sink, delay, allowed, adapters)
                &&& #[trigger] self.are_adapters_tried(world, logical, approach, strategy, allowed, adapters, tried)
                &&& is_first(tried, adapters.len(), RouteFailure::Unreachable { source: logical, sink }, result)
            }
    }

    /// Routes to an input through a repeater in front of it.
    pub fn route_to_redstone_input_through_repeater_from_route_source(
        &self,
        world: &World3D,
        logical_source: Position,
        approach: Approach,
        sink: Position,
        delay: usize,
        strategy: GlobalRoutingStrategy,
        allowed: &Vec<Position>,
    ) -> (result: RouteResult)
        requires
            self.valid(),
            world.wf(),
        ensures
            self.is_repeated_route(
                *world,
                logical_source,
                approach,
                sink,
                delay,
                strategy,
                allowed@,
                result,
            ),
            result matches Ok((_, after)) ==> after.wf(),
    {
        let adapters = self.redstone_input_repeater_adapters(world, sink, delay, allowed);
        let ghost mut tried = Seq::<RouteAttempt>::empty();
        let ghost failure = RouteFailure::Unreachable { source: logical_source, sink };
        let mut result: RouteResult = Err(RouteFailure::Unreachable { source: logical_source, sink });
        let mut index: usize = 0;
        while index < adapters.len() && result.is_err()
            invariant
                index <= adapters.len(),
                self.valid(),
                world.wf(),
                forall|i: int| 0 <= i < adapters@.len() ==> (#[trigger] adapters@[i]).world.wf(),
                tried.len() == index,
                failure == (RouteFailure::Unreachable { source: logical_source, sink }),
                is_first(tried, index as nat, failure, result),
                self.are_adapters_tried(*world, logical_source, approach, strategy, allowed@, adapters@, tried),
                result matches Ok((_, after)) ==> after.wf(),
            decreases adapters.len() - index,
        {
            assert(adapters@[index as int].world.wf());
            let attempt = self.lead_through(world, logical_source, approach, &adapters[index], strategy, allowed);
            let ghost before = tried;
            proof {
                tried = tried.push(attempt);
                assert forall|i: int| 0 <= i < tried.len() && i < adapters.len() implies self.leads_through(
                    *world,
                    logical_source,
                    approach,
                    adapters@[i],
                    strategy,
                    allowed@,
                    #[trigger] tried[i],
                ) by {
                    if i < before.len() {
                        assert(tried[i] == before[i]);
                    }
                }
            }
            if let Some(found) = attempt {
                result = Ok(found);
            }
            index += 1;
        }
        proof {
            assert(is_first(tried, adapters@.len(), failure, result));
            assert(self.are_input_adapters(*world, sink, delay, allowed@, adapters@));
            assert(self.are_adapters_tried(*world, logical_source, approach, strategy, allowed@, adapters@, tried));
        }
        result
    }
}

} // verus!

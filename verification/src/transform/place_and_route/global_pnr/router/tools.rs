//! What routing between placed modules goes by.

use crate::transform::place_and_route::global_pnr::dust::is_rule;
use crate::transform::place_and_route::global_pnr::route_engine::adapter::is_builder;
use crate::transform::place_and_route::global_pnr::route_engine::congestion::CongestionConfig;
use crate::transform::place_and_route::global_pnr::route_engine::cost::RouteCostModel;
use crate::transform::place_and_route::global_pnr::route_engine::engine::{
    is_routed_from, is_routed_twice, route_point_to_point_from_initial_state_with_cost,
    route_point_to_point_with_strategy_and_allowed_contacts_and_initial_strength,
};
use crate::transform::place_and_route::global_pnr::route_engine::route::{
    GlobalRoutingStrategy, RouteFailure, RoutedNet,
};
use crate::transform::place_and_route::global_pnr::route_engine::search::{
    is_placer, is_spreader, PlaceRequest, RouteQuestion,
};
use crate::transform::place_and_route::global_pnr::route_engine::state::{PlaceBound, RouteSearchState};
use crate::transform::place_and_route::global_pnr::route_engine::validation::{
    is_power_check, is_settler, route_candidate_powers_sink,
};
use crate::world::block::Block;
use crate::world::grid::World3D;
use crate::world::position::Position;
use vstd::prelude::*;

verus! {

/// A route with the world that it leads to, or why there is none.
pub type RouteResult = Result<(RoutedNet, World3D), RouteFailure>;

/// A route with the world that it leads to, if there is one.
pub type RouteAttempt = Option<(RoutedNet, World3D)>;

/// How blocks behave: what powers what, where power spreads, and which blocks
/// can be put where.
pub struct RouteTools<F, C, B, L, P, S> {
    /// Whether a block powers a cell.
    pub rule: F,
    /// Whether a block powers a solid block.
    pub cobble_rule: C,
    /// Where the power of a block spreads to.
    pub spread: B,
    /// Puts a step of a route into a world.
    pub place: L,
    /// Puts a block into a world.
    pub put: P,
    /// What has power once a world has settled.
    pub settle: S,
}

/// How routes are weighed where nothing else is said.
pub open spec fn plain_cost() -> RouteCostModel {
    RouteCostModel {
        step_cost: 1,
        turn_cost: 0,
        repeater_cost: 0,
        low_strength_penalty: 4,
        congestion: CongestionConfig { present_penalty: 0, history_penalty: 0 },
    }
}

/// What is asked of a route between two cells.
pub open spec fn plain_question(
    world: World3D,
    source: Position,
    sink: Position,
    strategy: GlobalRoutingStrategy,
    allowed: Seq<Position>,
) -> RouteQuestion {
    RouteQuestion { world, source, sink, nearby: false, strategy, model: plain_cost(), allowed }
}

/// Whether a result is the first success among attempts that were made one after
/// the other, or a failure where all `count` of them came to nothing.
pub open spec fn is_first(tried: Seq<RouteAttempt>, count: nat, failure: RouteFailure, result: RouteResult) -> bool {
    match result {
        Ok(found) => {
            &&& 0 < tried.len() <= count
            &&& tried.last() == Some(found)
            &&& forall|i: int| 0 <= i < tried.len() - 1 ==> #[trigger] tried[i] is None
        },
        Err(error) => {
            &&& error == failure
            &&& tried.len() == count
            &&& forall|i: int| 0 <= i < tried.len() ==> #[trigger] tried[i] is None
        },
    }
}

/// An equal list of cells.
pub fn copy_cells(cells: &Vec<Position>) -> (copy: Vec<Position>)
    ensures
        copy@ == cells@,
{
    let copy = cells.clone();
    assert(copy@ =~= cells@);
    copy
}

impl<
    F: Fn(&World3D, Position, Position) -> bool,
    C: Fn(&World3D, Position, Position) -> bool,
    B: Fn(&World3D, Position) -> Vec<PlaceBound>,
    L: Fn(&World3D, &PlaceRequest) -> Option<(World3D, Position)>,
    P: Fn(&World3D, Position, Block, &Vec<Position>) -> Option<World3D>,
    S: Fn(&World3D, Position, Option<bool>, &Vec<Position>) -> Option<Vec<bool>>,
> RouteTools<F, C, B, L, P, S> {
    /// Whether every question is answered.
    pub open spec fn valid(&self) -> bool {
        &&& is_rule(&self.rule)
        &&& is_rule(&self.cobble_rule)
        &&& is_spreader(&self.spread)
        &&& is_placer(&self.place)
        &&& is_builder(&self.put)
        &&& is_settler(&self.settle)
    }

    /// What checking a tentative route comes to.
    pub open spec fn checks(
        &self,
        before: World3D,
        after: World3D,
        route: RoutedNet,
        strategy: GlobalRoutingStrategy,
        accepted: bool,
    ) -> bool {
        if strategy is DirectGreedy || strategy is GreedyBeam {
            accepted
        } else {
            is_power_check(&self.settle, before, after, route, accepted)
        }
    }

    /// Checks a tentative route.
    pub fn check(
        &self,
        before: &World3D,
        after: &World3D,
        route: &RoutedNet,
        strategy: GlobalRoutingStrategy,
    ) -> (accepted: bool)
        requires
            self.valid(),
            before.wf(),
            after.wf(),
        ensures
            self.checks(*before, *after, *route, strategy, accepted),
    {
        route_candidate_powers_sink(&self.settle, before, after, route, strategy)
    }

    /// What routing from a source whose signal has some strength comes to.
    pub open spec fn routes_from(
        &self,
        world: World3D,
        source: Position,
        strength: usize,
        sink: Position,
        strategy: GlobalRoutingStrategy,
        allowed: Seq<Position>,
        result: RouteResult,
    ) -> bool {
        is_routed_from(
            &self.rule,
            &self.cobble_rule,
            &self.spread,
            &self.place,
            plain_question(world, source, sink, strategy, allowed),
            strength,
            result,
        )
    }

    /// Routes from a source whose signal has some strength.
    pub fn route_from(
        &self,
        world: &World3D,
        source: Position,
        strength: usize,
        sink: Position,
        strategy: GlobalRoutingStrategy,
        allowed: &Vec<Position>,
    ) -> (result: RouteResult)
        requires
            self.valid(),
            world.wf(),
        ensures
            self.routes_from(*world, source, strength, sink, strategy, allowed@, result),
            result matches Ok((_, after)) ==> after.wf(),
    {
        route_point_to_point_with_strategy_and_allowed_contacts_and_initial_strength(
            &self.rule,
            &self.cobble_rule,
            &self.spread,
            &self.place,
            world,
            source,
            sink,
            strategy,
            allowed,
            strength,
            RouteCostModel::default(),
        )
    }

    /// What going on with a route comes to.
    pub open spec fn goes_on(
        &self,
        world: World3D,
        source: Position,
        sink: Position,
        initial: RouteSearchState,
        strategy: GlobalRoutingStrategy,
        allowed: Seq<Position>,
        result: RouteResult,
    ) -> bool {
        is_routed_twice(
            &self.rule,
            &self.cobble_rule,
            &self.spread,
            &self.place,
            plain_question(world, source, sink, strategy, allowed),
            initial,
            result,
        )
    }

    /// Goes on with a route.
    pub fn go_on(
        &self,
        world: &World3D,
        source: Position,
        sink: Position,
        initial: RouteSearchState,
        strategy: GlobalRoutingStrategy,
        allowed: &Vec<Position>,
    ) -> (result: RouteResult)
        requires
            self.valid(),
            world.wf(),
            initial.world.wf(),
        ensures
            self.goes_on(*world, source, sink, initial, strategy, allowed@, result),
            result matches Ok((_, after)) ==> after.wf(),
    {
        route_point_to_point_from_initial_state_with_cost(
            &self.rule,
            &self.cobble_rule,
            &self.spread,
            &self.place,
            world,
            source,
            sink,
            initial,
            strategy,
            allowed,
            RouteCostModel::default(),
        )
    }
}

} // verus!

//! What a route costs.

use super::congestion::{cost_at, CongestionConfig, CongestionMap};
use super::state::{steps_of, RouteSearchState};
use crate::number::{capped, capped_product, capped_sum};
use crate::world::grid::World3D;
use crate::world::position::{step_towards, Position};
use vstd::prelude::*;

verus! {

/// What steps, turns and repeaters cost, and a weak signal. By default a step
/// costs one, and a weak signal four.
#[derive(Clone, Copy, Debug, PartialEq, Eq, Structural)]
pub struct RouteCostModel {
    pub step_cost: usize,
    pub turn_cost: usize,
    pub repeater_cost: usize,
    pub low_strength_penalty: usize,
    pub congestion: CongestionConfig,
}

impl Default for RouteCostModel {
    fn default() -> (model: Self)
        ensures
            model == (RouteCostModel {
                step_cost: 1,
                turn_cost: 0,
                repeater_cost: 0,
                low_strength_penalty: 4,
                congestion: CongestionConfig { present_penalty: 0, history_penalty: 0 },
            }),
    {
        RouteCostModel {
            step_cost: 1,
            turn_cost: 0,
            repeater_cost: 0,
            low_strength_penalty: 4,
            congestion: CongestionConfig::default(),
        }
    }
}

/// Whether a route changes its direction at a cell.
pub open spec fn turns_at(route: Seq<Position>, at: int) -> bool {
    step_towards(route[at - 1], route[at]) != step_towards(route[at], route[at + 1])
}

/// How often a route changes its direction before a cell.
pub open spec fn turns(route: Seq<Position>, at: nat) -> nat
    decreases at,
{
    if at <= 1 {
        0
    } else {
        turns(route, (at - 1) as nat) + if turns_at(route, at - 1) {
            1nat
        } else {
            0
        }
    }
}

/// How often a route changes its direction.
pub open spec fn turn_count(route: Seq<Position>) -> nat {
    turns(route, steps_of(route))
}

/// How many of the first `count` cells of a route hold a repeater.
pub open spec fn repeaters(world: World3D, route: Seq<Position>, count: nat) -> nat
    decreases count,
{
    if count == 0 {
        0
    } else {
        repeaters(world, route, (count - 1) as nat) + if world.at(route[count - 1]).kind is Repeater {
            1nat
        } else {
            0
        }
    }
}

/// What the course of a route costs.
pub open spec fn course_cost(model: RouteCostModel, state: RouteSearchState) -> nat {
    model.step_cost as nat * steps_of(state.route@) + model.turn_cost as nat * turn_count(state.route@)
        + model.repeater_cost as nat * repeaters(state.world, state.route@, state.route@.len())
}

/// What a weak signal costs.
pub open spec fn weakness_cost(model: RouteCostModel, state: RouteSearchState) -> usize {
    if state.signal_strength <= 2 {
        model.low_strength_penalty
    } else {
        0
    }
}

fn route_turns(route: &Vec<Position>) -> (count: usize)
    ensures
        count == turn_count(route@),
{
    let mut count: usize = 0;
    if route.len() == 0 {
        return 0;
    }
    let last: usize = route.len() - 1;
    let mut at: usize = 1;
    while at < last
        invariant
            1 <= at,
            last == route.len() - 1,
            at <= last || at == 1,
            count <= at,
            count == turns(route@, at as nat),
        decreases last - at,
    {
        if route[at - 1].diff(route[at]) != route[at].diff(route[at + 1]) {
            count += 1;
        }
        at += 1;
    }
    proof {
        if last < 1 {
            assert(turns(route@, 1) == 0);
            assert(turns(route@, last as nat) == 0);
        }
    }
    count
}

fn route_repeaters(state: &RouteSearchState) -> (count: usize)
    requires
        state.world.wf(),
    ensures
        count == repeaters(state.world, state.route@, state.route@.len()),
{
    let mut count: usize = 0;
    let mut index: usize = 0;
    while index < state.route.len()
        invariant
            index <= state.route.len(),
            state.world.wf(),
            count <= index,
            count == repeaters(state.world, state.route@, index as nat),
        decreases state.route.len() - index,
    {
        if state.world.get(state.route[index]).kind.is_repeater() {
            count += 1;
        }
        index += 1;
    }
    count
}

impl RouteCostModel {
    /// What the course of a route costs: its steps, turns and repeaters.
    pub fn weighted_route_cost(&self, state: &RouteSearchState) -> (cost: usize)
        requires
            state.world.wf(),
        ensures
            cost == capped(course_cost(*self, *state)),
    {
        let steps: usize = if state.route.len() == 0 {
            0
        } else {
            state.route.len() - 1
        };
        let turned: usize = route_turns(&state.route);
        let repeated: usize = route_repeaters(state);
        let along: usize = capped_product(self.step_cost, steps);
        let around: usize = capped_product(self.turn_cost, turned);
        let through: usize = capped_product(self.repeater_cost, repeated);
        capped_sum(capped_sum(along, around), through)
    }

    /// What it costs to use a cell that others use.
    pub fn congestion_cost(&self, position: Position, map: &CongestionMap) -> (cost: usize)
        requires
            map.wf(),
            cost_at(*map, position, self.congestion) <= usize::MAX,
        ensures
            cost == cost_at(*map, position, self.congestion),
    {
        map.cell_cost(position, &self.congestion)
    }

    /// What a weak signal costs.
    pub fn low_strength_penalty(&self, state: &RouteSearchState) -> (cost: usize)
        ensures
            cost == weakness_cost(*self, *state),
    {
        if state.signal_strength <= 2 {
            self.low_strength_penalty
        } else {
            0
        }
    }
}

/// With the default model a route costs its steps, and a weak signal four.
pub proof fn default_cost_is_steps(state: RouteSearchState)
    ensures
        ({
            let model = RouteCostModel {
                step_cost: 1,
                turn_cost: 0,
                repeater_cost: 0,
                low_strength_penalty: 4,
                congestion: CongestionConfig { present_penalty: 0, history_penalty: 0 },
            };
            &&& course_cost(model, state) == steps_of(state.route@)
            &&& weakness_cost(model, state) == (if state.signal_strength <= 2 {
                4usize
            } else {
                0
            })
        }),
{
    assert(0 * turn_count(state.route@) == 0);
    assert(0 * repeaters(state.world, state.route@, state.route@.len()) == 0);
    assert(1 * steps_of(state.route@) == steps_of(state.route@));
}

} // verus!

//! What moves of a placement change.

use super::placement_error::{PlacementError, PlacementErrorView};
use super::placement_ir::MacroInstance;
use super::placement_problem::PlacementProblem;
use super::sa_placer::initial::{collect_positions, move_to, moved_to};
use super::sa_placer::measure::{measure_fits, measured, placement_measure, PlacementMeasure};
use super::sa_placer::seed::positions_of;
use crate::world::position::{DimSize, Position};
use vstd::prelude::*;

verus! {

/// A move of one instance.
#[derive(Clone, Copy, Debug, PartialEq, Eq, Structural)]
pub struct PlacementMove {
    pub instance: usize,
    pub position: Position,
}

/// How much each part of a placement's cost changes.
#[derive(Clone, Copy, Debug, PartialEq, Eq, Structural)]
pub struct MoveDelta {
    pub wire_length: i64,
    pub bounding_box_volume: i64,
    pub blocked_pins: i64,
    pub overlapping_pairs: i64,
    pub spacing_violations: i64,
    pub pin_access_violations: i64,
}

impl Default for MoveDelta {
    fn default() -> (delta: Self)
        ensures
            delta == (MoveDelta {
                wire_length: 0,
                bounding_box_volume: 0,
                blocked_pins: 0,
                overlapping_pairs: 0,
                spacing_violations: 0,
                pin_access_violations: 0,
            }),
    {
        MoveDelta {
            wire_length: 0,
            bounding_box_volume: 0,
            blocked_pins: 0,
            overlapping_pairs: 0,
            spacing_violations: 0,
            pin_access_violations: 0,
        }
    }
}

/// Whether every part of a cost is in the range of differences.
pub open spec fn is_countable(measure: PlacementMeasure) -> bool {
    &&& measure.wire_length <= i64::MAX
    &&& measure.bounding_box_volume <= i64::MAX
    &&& measure.blocked_pins <= i64::MAX
    &&& measure.overlapping_pairs <= i64::MAX
    &&& measure.spacing_violations <= i64::MAX
    &&& measure.pin_access_violations <= i64::MAX
}

/// The difference of two costs, part by part.
pub open spec fn difference(before: PlacementMeasure, after: PlacementMeasure) -> MoveDelta {
    MoveDelta {
        wire_length: (after.wire_length - before.wire_length) as i64,
        bounding_box_volume: (after.bounding_box_volume - before.bounding_box_volume) as i64,
        blocked_pins: (after.blocked_pins - before.blocked_pins) as i64,
        overlapping_pairs: (after.overlapping_pairs - before.overlapping_pairs) as i64,
        spacing_violations: (after.spacing_violations - before.spacing_violations) as i64,
        pin_access_violations: (after.pin_access_violations - before.pin_access_violations) as i64,
    }
}

impl MoveDelta {
    /// The difference of two costs, part by part.
    pub fn between(before: &PlacementMeasure, after: &PlacementMeasure) -> (delta: Self)
        requires
            is_countable(*before),
            is_countable(*after),
        ensures
            delta == difference(*before, *after),
    {
        MoveDelta {
            wire_length: after.wire_length as i64 - before.wire_length as i64,
            bounding_box_volume: after.bounding_box_volume as i64 - before.bounding_box_volume as i64,
            blocked_pins: after.blocked_pins as i64 - before.blocked_pins as i64,
            overlapping_pairs: after.overlapping_pairs as i64 - before.overlapping_pairs as i64,
            spacing_violations: after.spacing_violations as i64 - before.spacing_violations as i64,
            pin_access_violations: after.pin_access_violations as i64 - before.pin_access_violations as i64,
        }
    }
}

/// Instances after a move.
pub open spec fn after_move(instances: Seq<MacroInstance>, change: PlacementMove) -> Seq<MacroInstance> {
    moved_to(instances, positions_of(instances).update(change.instance as int, change.position))
}

/// Whether the cost of a placement is in range, and countable where there is
/// one.
pub open spec fn cost_fits(
    problem: PlacementProblem,
    instances: Seq<MacroInstance>,
    spacing: usize,
    world: DimSize,
) -> bool {
    &&& measure_fits(problem.macros@, problem.instances@, problem.nets@, instances)
    &&& measured(problem.macros@, problem.instances@, problem.nets@, instances, spacing, world) matches Ok(measure)
        ==> is_countable(measure)
}

/// The changes of the first `count` moves, each taken alone, or the first error.
pub open spec fn move_deltas(
    problem: PlacementProblem,
    instances: Seq<MacroInstance>,
    spacing: usize,
    world: DimSize,
    moves: Seq<PlacementMove>,
    count: nat,
) -> Result<Seq<MoveDelta>, PlacementErrorView>
    decreases count,
{
    match measured(problem.macros@, problem.instances@, problem.nets@, instances, spacing, world) {
        Err(error) => Err(error),
        Ok(before) => if count == 0 {
            Ok(Seq::empty())
        } else {
            match move_deltas(problem, instances, spacing, world, moves, (count - 1) as nat) {
                Err(error) => Err(error),
                Ok(deltas) => match measured(
                    problem.macros@,
                    problem.instances@,
                    problem.nets@,
                    after_move(instances, moves[count - 1]),
                    spacing,
                    world,
                ) {
                    Err(error) => Err(error),
                    Ok(after) => Ok(deltas.push(difference(before, after))),
                },
            }
        },
    }
}

proof fn move_deltas_fail(
    problem: PlacementProblem,
    instances: Seq<MacroInstance>,
    spacing: usize,
    world: DimSize,
    moves: Seq<PlacementMove>,
    low: nat,
    high: nat,
)
    requires
        low <= high,
        move_deltas(problem, instances, spacing, world, moves, low) is Err,
    ensures
        move_deltas(problem, instances, spacing, world, moves, high) == move_deltas(
            problem,
            instances,
            spacing,
            world,
            moves,
            low,
        ),
    decreases high,
{
    if low < high {
        move_deltas_fail(problem, instances, spacing, world, moves, low, (high - 1) as nat);
    }
}

/// Whether the costs of a placement and of each moved placement are in range.
pub open spec fn moves_in_range(
    problem: PlacementProblem,
    instances: Seq<MacroInstance>,
    spacing: usize,
    world: DimSize,
    moves: Seq<PlacementMove>,
) -> bool {
    &&& cost_fits(problem, instances, spacing, world)
    &&& forall|i: int|
        0 <= i < moves.len() ==> (#[trigger] moves[i]).instance < instances.len() && cost_fits(
            problem,
            after_move(instances, moves[i]),
            spacing,
            world,
        )
}

/// A way to evaluate many moves at once.
pub trait MoveEvaluator {
    /// What each of some moves, taken alone, changes in the cost of a placement.
    fn evaluate(
        &self,
        problem: &PlacementProblem,
        instances: &Vec<MacroInstance>,
        spacing: usize,
        world: DimSize,
        moves: &Vec<PlacementMove>,
    ) -> (result: Result<Vec<MoveDelta>, PlacementError>)
        requires
            moves_in_range(*problem, instances@, spacing, world, moves@),
        ensures
            match move_deltas(*problem, instances@, spacing, world, moves@, moves@.len()) {
                Ok(deltas) => result matches Ok(list) && list@ == deltas,
                Err(expected) => result matches Err(error) && error@ == expected,
            },
    ;
}

/// Computes the whole cost of each moved placement.
pub struct CpuMoveEvaluator;

impl MoveEvaluator for CpuMoveEvaluator {
    fn evaluate(
        &self,
        problem: &PlacementProblem,
        instances: &Vec<MacroInstance>,
        spacing: usize,
        world: DimSize,
        moves: &Vec<PlacementMove>,
    ) -> (result: Result<Vec<MoveDelta>, PlacementError>) {
        let before = match placement_measure(problem, instances, spacing, world) {
            Err(error) => {
                proof {
                    move_deltas_fail(*problem, instances@, spacing, world, moves@, 0, moves@.len());
                }
                return Err(error);
            },
            Ok(before) => before,
        };
        let mut positions = collect_positions(instances);
        let mut deltas: Vec<MoveDelta> = Vec::new();
        let mut index: usize = 0;
        while index < moves.len()
            invariant
                index <= moves.len(),
                positions@ == positions_of(instances@),
                measured(problem.macros@, problem.instances@, problem.nets@, instances@, spacing, world) == Ok::<
                    PlacementMeasure,
                    PlacementErrorView,
                >(before),
                is_countable(before),
                moves_in_range(*problem, instances@, spacing, world, moves@),
                move_deltas(*problem, instances@, spacing, world, moves@, index as nat) == Ok::<
                    Seq<MoveDelta>,
                    PlacementErrorView,
                >(deltas@),
            decreases moves.len() - index,
        {
            let change = moves[index];
            assert(moves@[index as int].instance < instances.len());
            let home = positions[change.instance];
            positions[change.instance] = change.position;
            let moved = move_to(instances, &positions);
            assert(moved@ == after_move(instances@, change));
            match placement_measure(problem, &moved, spacing, world) {
                Err(error) => {
                    proof {
                        move_deltas_fail(*problem, instances@, spacing, world, moves@, (index + 1) as nat, moves@.len());
                    }
                    return Err(error);
                },
                Ok(after) => {
                    deltas.push(MoveDelta::between(&before, &after));
                },
            }
            positions[change.instance] = home;
            assert(positions@ =~= positions_of(instances@));
            index += 1;
        }
        Ok(deltas)
    }
}

} // verus!

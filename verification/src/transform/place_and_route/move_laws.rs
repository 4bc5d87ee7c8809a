//! What the changes of moves say.

use super::move_eval::{after_move, is_countable, move_deltas, moves_in_range, MoveDelta, PlacementMove};
use super::placement_error::PlacementErrorView;
use super::placement_ir::MacroInstance;
use super::placement_problem::PlacementProblem;
use super::sa_placer::measure::{measured, PlacementMeasure};
use crate::world::position::{DimSize, Position};
use vstd::prelude::*;

verus! {

/// Whether instances are others of which one stands elsewhere.
pub open spec fn has_moved(
    before: Seq<MacroInstance>,
    after: Seq<MacroInstance>,
    instance: int,
    position: Position,
) -> bool {
    &&& after.len() == before.len()
    &&& after[instance].position == position
    &&& after[instance].id == before[instance].id
    &&& after[instance].macro_name == before[instance].macro_name
    &&& after[instance].rotation == before[instance].rotation
    &&& forall|i: int| 0 <= i < before.len() && i != instance ==> #[trigger] after[i] == before[i]
}

/// Whether a cost and a change make another cost.
pub open spec fn adds_up(before: PlacementMeasure, delta: MoveDelta, after: PlacementMeasure) -> bool {
    &&& before.wire_length + delta.wire_length == after.wire_length
    &&& before.bounding_box_volume + delta.bounding_box_volume == after.bounding_box_volume
    &&& before.blocked_pins + delta.blocked_pins == after.blocked_pins
    &&& before.overlapping_pairs + delta.overlapping_pairs == after.overlapping_pairs
    &&& before.spacing_violations + delta.spacing_violations == after.spacing_violations
    &&& before.pin_access_violations + delta.pin_access_violations == after.pin_access_violations
}

/// Whether a change is that of one move alone.
pub open spec fn is_change_of(
    problem: PlacementProblem,
    instances: Seq<MacroInstance>,
    spacing: usize,
    world: DimSize,
    change: PlacementMove,
    delta: MoveDelta,
) -> bool {
    let macros = problem.macros@;
    let known = problem.instances@;
    let nets = problem.nets@;
    exists|moved: Seq<MacroInstance>|
        {
            &&& #[trigger] has_moved(instances, moved, change.instance as int, change.position)
            &&& measured(macros, known, nets, instances, spacing, world) is Ok
            &&& measured(macros, known, nets, moved, spacing, world) is Ok
            &&& adds_up(
                measured(macros, known, nets, instances, spacing, world)->Ok_0,
                delta,
                measured(macros, known, nets, moved, spacing, world)->Ok_0,
            )
        }
}

/// There is one change for each move, and it makes the cost of the placement that of
/// the placement in which that instance alone has moved. A move that leads nowhere
/// changes nothing.
pub proof fn changes_make_the_new_costs(
    problem: PlacementProblem,
    instances: Seq<MacroInstance>,
    spacing: usize,
    world: DimSize,
    moves: Seq<PlacementMove>,
    count: nat,
)
    requires
        moves_in_range(problem, instances, spacing, world, moves),
        count <= moves.len(),
        move_deltas(problem, instances, spacing, world, moves, count) is Ok,
    ensures
        ({
            let deltas = move_deltas(problem, instances, spacing, world, moves, count)->Ok_0;
            &&& deltas.len() == count
            &&& forall|i: int|
                0 <= i < count ==> is_change_of(problem, instances, spacing, world, moves[i], #[trigger] deltas[i])
            &&& forall|i: int|
                0 <= i < count && instances[moves[i].instance as int].position == moves[i].position ==> leaves_all(
                    #[trigger] deltas[i],
                )
        }),
    decreases count,
{
    if count > 0 {
        changes_make_the_new_costs(problem, instances, spacing, world, moves, (count - 1) as nat);
        let macros = problem.macros@;
        let known = problem.instances@;
        let nets = problem.nets@;
        let rest = move_deltas(problem, instances, spacing, world, moves, (count - 1) as nat)->Ok_0;
        let deltas = move_deltas(problem, instances, spacing, world, moves, count)->Ok_0;
        let last = count - 1;
        let change = moves[last];
        let moved = after_move(instances, change);
        assert(has_moved(instances, moved, change.instance as int, change.position));
        let before = measured(macros, known, nets, instances, spacing, world)->Ok_0;
        let after = measured(macros, known, nets, moved, spacing, world)->Ok_0;
        assert(is_countable(before) && is_countable(after));
        assert(adds_up(before, deltas[last], after));
        if instances[change.instance as int].position == change.position {
            assert(moved =~= instances);
        }
        assert forall|i: int| 0 <= i < count implies is_change_of(
            problem,
            instances,
            spacing,
            world,
            moves[i],
            #[trigger] deltas[i],
        ) by {
            if i < last {
                assert(deltas[i] == rest[i]);
            }
        }
        assert forall|i: int|
            0 <= i < count && instances[moves[i].instance as int].position == moves[i].position implies leaves_all(
            #[trigger] deltas[i],
        ) by {
            if i < last {
                assert(deltas[i] == rest[i]);
            }
        }
    }
}

/// Whether a change leaves every part of a cost as it was.
pub open spec fn leaves_all(delta: MoveDelta) -> bool {
    &&& delta.wire_length == 0
    &&& delta.bounding_box_volume == 0
    &&& delta.blocked_pins == 0
    &&& delta.overlapping_pairs == 0
    &&& delta.spacing_violations == 0
    &&& delta.pin_access_violations == 0
}

/// Costs cannot be told where that of the placement itself, or of one of the moved
/// placements, cannot; the first of these is the reason.
pub proof fn first_failing_cost_is_told(
    problem: PlacementProblem,
    instances: Seq<MacroInstance>,
    spacing: usize,
    world: DimSize,
    moves: Seq<PlacementMove>,
    count: nat,
    error: PlacementErrorView,
)
    requires
        moves_in_range(problem, instances, spacing, world, moves),
        count <= moves.len(),
        move_deltas(problem, instances, spacing, world, moves, count) == Err::<Seq<MoveDelta>, PlacementErrorView>(error),
    ensures
        measured(problem.macros@, problem.instances@, problem.nets@, instances, spacing, world) == Err::<
            PlacementMeasure,
            PlacementErrorView,
        >(error) || exists|i: int, moved: Seq<MacroInstance>|
            {
                &&& 0 <= i < count
                &&& #[trigger] has_moved(instances, moved, moves[i].instance as int, moves[i].position)
                &&& measured(problem.macros@, problem.instances@, problem.nets@, moved, spacing, world) == Err::<
                    PlacementMeasure,
                    PlacementErrorView,
                >(error)
            },
    decreases count,
{
    if count > 0 && measured(problem.macros@, problem.instances@, problem.nets@, instances, spacing, world) is Ok {
        if move_deltas(problem, instances, spacing, world, moves, (count - 1) as nat) is Err {
            first_failing_cost_is_told(problem, instances, spacing, world, moves, (count - 1) as nat, error);
        } else {
            let change = moves[count - 1];
            let moved = after_move(instances, change);
            assert(has_moved(instances, moved, moves[count - 1].instance as int, moves[count - 1].position));
        }
    }
}

} // verus!

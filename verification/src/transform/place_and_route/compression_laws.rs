//! What shrinking a layout comes to.

use super::compression::{
    cells_of, is_box_intent, is_first_success, shrinks, shrinks_at, CompressionError, CompressionResult, PhysicalConstraint,
    PhysicalIntent,
};
use crate::ir::routable::RoutableInstance;
use crate::world::position::{in_bounds, DimSize, Position};
use vstd::prelude::*;

verus! {

proof fn ladder_shrinks(ladder: Seq<DimSize>, high: int, low: int)
    requires
        shrinks(ladder, ladder.len() as int),
        0 <= high < low < ladder.len(),
    ensures
        cells_of(ladder[low]) < cells_of(ladder[high]),
    decreases low - high,
{
    assert(shrinks_at(ladder, low));
    if high < low - 1 {
        ladder_shrinks(ladder, high, low - 1);
    }
}

/// The box that is kept is the one that was tried last, the only one that worked,
/// and smaller than all that were tried before it.
pub proof fn kept_box_is_the_first_that_works<T>(
    found: CompressionResult<T>,
    ladder: Seq<DimSize>,
    outcomes: Seq<Result<T, String>>,
)
    requires
        shrinks(ladder, ladder.len() as int),
        outcomes.len() <= ladder.len(),
        is_first_success(Ok::<CompressionResult<T>, CompressionError>(found), ladder, outcomes),
    ensures
        found.attempts@.len() > 0,
        found.attempts@.last().box_size == found.box_size,
        found.attempts@.last().accepted,
        found.attempts@.last().error is None,
        forall|i: int|
            0 <= i < found.attempts@.len() - 1 ==> {
                let attempt = #[trigger] found.attempts@[i];
                &&& !attempt.accepted
                &&& attempt.error is Some
                &&& cells_of(attempt.box_size) > cells_of(found.box_size)
            },
        forall|i: int| 0 <= i < found.attempts@.len() ==> (#[trigger] found.attempts@[i]).box_size == ladder[i],
{
    let last = found.attempts@.len() - 1;
    assert(found.attempts@[last].box_size == ladder[last]);
    assert forall|i: int| 0 <= i < found.attempts@.len() - 1 implies {
        let attempt = #[trigger] found.attempts@[i];
        &&& !attempt.accepted
        &&& attempt.error is Some
        &&& cells_of(attempt.box_size) > cells_of(found.box_size)
    } by {
        assert(outcomes[i] is Err);
        ladder_shrinks(ladder, i, last);
    }
}

/// Whether a cell lies between two corners, both included.
pub open spec fn lies_between(min: Seq<usize>, max: Seq<usize>, cell: Position) -> bool {
    &&& min[0] <= cell.0 <= max[0]
    &&& min[1] <= cell.1 <= max[1]
    &&& min[2] <= cell.2 <= max[2]
}

/// The wishes for a box that is not flat ask of every instance to stand within just
/// the cells of the box.
pub proof fn wishes_keep_all_inside(
    intent: PhysicalIntent,
    instances: Seq<RoutableInstance>,
    box_size: DimSize,
    design: Seq<char>,
)
    requires
        is_box_intent(intent, instances, box_size, design),
        box_size.0 > 0,
        box_size.1 > 0,
        box_size.2 > 0,
    ensures
        intent.regions.len() == 1,
        forall|cell: Position| #[trigger]
            lies_between(intent.regions[0].1.min@, intent.regions[0].1.max@, cell) <==> in_bounds(box_size, cell),
        intent.constraints.len() == instances.len(),
        forall|i: int|
            0 <= i < instances.len() ==> match #[trigger] intent.constraints[i] {
                PhysicalConstraint::Inside { instance, region, .. } => instance@ == instances[i].name@ && region@
                    == intent.regions[0].0@,
            },
{
    let region = intent.regions[0].1;
    assert forall|cell: Position| #[trigger] lies_between(region.min@, region.max@, cell) <==> in_bounds(box_size, cell) by {
        assert(region.min@[0] == 0 && region.min@[1] == 0 && region.min@[2] == 0);
        assert(region.max@[0] == box_size.0 - 1 && region.max@[1] == box_size.1 - 1 && region.max@[2] == box_size.2 - 1);
    }
    assert forall|i: int| 0 <= i < instances.len() implies match #[trigger] intent.constraints[i] {
        PhysicalConstraint::Inside { instance, region, .. } => instance@ == instances[i].name@ && region@
            == intent.regions[0].0@,
    } by {}
}

} // verus!

//! How cells lie to each other.

use super::position::{distance, is_beside, neighbour, opposite, step_towards, Direction, Position};
use vstd::prelude::*;

verus! {

/// Distances are those of a metric: only a cell itself is at no distance, the way
/// back is as long, and a way round is no shorter.
pub proof fn distance_is_metric(first: Position, second: Position, third: Position)
    ensures
        distance(first, second) == 0 <==> first == second,
        distance(first, second) == distance(second, first),
        distance(first, third) <= distance(first, second) + distance(second, third),
{
}

/// A neighbour in a direction is one step away, and the way back leads in the
/// opposite direction; neighbours in different directions are different cells.
pub proof fn neighbours_are_one_away(cell: Position, direction: Direction, other: Direction)
    requires
        direction != Direction::Unset,
        other != Direction::Unset,
        neighbour(cell, direction) is Some,
    ensures
        distance(cell, neighbour(cell, direction)->0) == 1,
        neighbour(neighbour(cell, direction)->0, opposite(direction)) == Some(cell),
        direction != other ==> neighbour(cell, direction) != neighbour(cell, other),
{
}

/// A step towards another cell is one step nearer to it.
pub proof fn steps_lead_nearer(from: Position, to: Position)
    requires
        from != to,
    ensures
        neighbour(from, step_towards(from, to)) is Some,
        distance(neighbour(from, step_towards(from, to))->0, to) + 1 == distance(from, to),
{
}

/// Cells are beside each other where they are one step apart on a level.
pub proof fn beside_is_one_step_on_a_level(left: Position, right: Position)
    ensures
        is_beside(left, right) <==> left.2 == right.2 && distance(left, right) == 1,
        is_beside(left, right) == is_beside(right, left),
{
}

/// A step east leads along x and a step north along y, both to higher numbers, and a
/// step to the top leads up.
pub proof fn directions_lead_along_axes(cell: Position, direction: Direction)
    requires
        neighbour(cell, direction) is Some,
    ensures
        ({
            let next = neighbour(cell, direction)->0;
            &&& direction == Direction::East ==> next.0 == cell.0 + 1
            &&& direction == Direction::West ==> next.0 == cell.0 - 1
            &&& direction == Direction::North ==> next.1 == cell.1 + 1
            &&& direction == Direction::South ==> next.1 == cell.1 - 1
            &&& direction == Direction::Top ==> next.2 == cell.2 + 1
            &&& direction == Direction::Bottom ==> next.2 == cell.2 - 1
            &&& direction == Direction::Unset ==> next == cell
        }),
{
}

} // verus!

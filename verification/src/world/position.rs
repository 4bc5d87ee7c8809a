//! Cells of a world and the directions between them.

use crate::order::{comes_before, insert_ascending, is_ascending, SortKey, TotalKey};
use crate::number::{capped, capped_sum};
use vstd::prelude::*;

verus! {

/// A direction along one axis, or none.
#[derive(Clone, Copy, Debug, PartialEq, Eq, PartialOrd, Ord, Hash, Structural)]
pub enum Direction {
    Unset,
    Bottom,
    Top,
    East,
    West,
    South,
    North,
}

/// The opposite direction.
pub open spec fn opposite(direction: Direction) -> Direction {
    match direction {
        Direction::Unset => Direction::Unset,
        Direction::Bottom => Direction::Top,
        Direction::Top => Direction::Bottom,
        Direction::East => Direction::West,
        Direction::West => Direction::East,
        Direction::South => Direction::North,
        Direction::North => Direction::South,
    }
}

impl Direction {
    pub fn inverse(self) -> (direction: Direction)
        ensures
            direction == opposite(self),
    {
        match self {
            Direction::Unset => Direction::Unset,
            Direction::Bottom => Direction::Top,
            Direction::Top => Direction::Bottom,
            Direction::East => Direction::West,
            Direction::West => Direction::East,
            Direction::South => Direction::North,
            Direction::North => Direction::South,
        }
    }
}

/// The opposite of the opposite is the direction itself.
pub proof fn opposite_twice(direction: Direction)
    ensures
        opposite(opposite(direction)) == direction,
{
}

/// A cell: x, y and height.
#[derive(Clone, Copy, Debug, PartialEq, Eq, PartialOrd, Ord, Hash, Structural)]
pub struct Position(pub usize, pub usize, pub usize);

/// The size of a world.
#[derive(Clone, Copy, Debug, PartialEq, Eq, PartialOrd, Ord, Hash, Structural)]
pub struct DimSize(pub usize, pub usize, pub usize);

/// Whether a cell lies inside a world of a size.
pub open spec fn in_bounds(size: DimSize, position: Position) -> bool {
    position.0 < size.0 && position.1 < size.1 && position.2 < size.2
}

impl DimSize {
    pub fn bound_on(&self, position: Position) -> (inside: bool)
        ensures
            inside == in_bounds(*self, position),
    {
        position.0 < self.0 && position.1 < self.1 && position.2 < self.2
    }
}

/// How far apart two numbers are.
pub open spec fn gap(left: usize, right: usize) -> nat {
    if left < right {
        (right - left) as nat
    } else {
        (left - right) as nat
    }
}

/// The number of steps between two cells.
pub open spec fn distance(left: Position, right: Position) -> nat {
    gap(left.0, right.0) + gap(left.1, right.1) + gap(left.2, right.2)
}

/// Order of cells: by x, then y, then height.
pub open spec fn position_before(left: Position, right: Position) -> bool {
    if left.0 != right.0 {
        left.0 < right.0
    } else if left.1 != right.1 {
        left.1 < right.1
    } else {
        left.2 < right.2
    }
}

/// The step from one cell towards another: along x where they differ there,
/// else along y, else in height.
pub open spec fn step_towards(from: Position, to: Position) -> Direction {
    if to.0 > from.0 {
        Direction::East
    } else if to.0 < from.0 {
        Direction::West
    } else if to.1 > from.1 {
        Direction::North
    } else if to.1 < from.1 {
        Direction::South
    } else if to.2 > from.2 {
        Direction::Top
    } else if to.2 < from.2 {
        Direction::Bottom
    } else {
        Direction::Unset
    }
}

/// The neighbour in a direction, where there is one.
pub open spec fn neighbour(position: Position, direction: Direction) -> Option<Position> {
    match direction {
        Direction::Unset => Some(position),
        Direction::Bottom => if position.2 > 0 {
            Some(Position(position.0, position.1, (position.2 - 1) as usize))
        } else {
            None
        },
        Direction::Top => if position.2 < usize::MAX {
            Some(Position(position.0, position.1, (position.2 + 1) as usize))
        } else {
            None
        },
        Direction::West => if position.0 > 0 {
            Some(Position((position.0 - 1) as usize, position.1, position.2))
        } else {
            None
        },
        Direction::East => if position.0 < usize::MAX {
            Some(Position((position.0 + 1) as usize, position.1, position.2))
        } else {
            None
        },
        Direction::South => if position.1 > 0 {
            Some(Position(position.0, (position.1 - 1) as usize, position.2))
        } else {
            None
        },
        Direction::North => if position.1 < usize::MAX {
            Some(Position(position.0, (position.1 + 1) as usize, position.2))
        } else {
            None
        },
    }
}

/// Whether two cells are next to each other at the same height.
pub open spec fn is_beside(left: Position, right: Position) -> bool {
    &&& left.2 == right.2
    &&& gap(left.0, right.0) + gap(left.1, right.1) == 1
}

/// Stepping towards a neighbour reaches it.
pub proof fn step_reaches_neighbour(from: Position, to: Position)
    requires
        distance(from, to) == 1,
    ensures
        neighbour(from, step_towards(from, to)) == Some(to),
        step_towards(to, from) == opposite(step_towards(from, to)),
{
}

fn apart(left: usize, right: usize) -> (apart: usize)
    ensures
        apart == gap(left, right),
{
    if left < right {
        right - left
    } else {
        left - right
    }
}

impl Position {
    pub fn manhattan_distance(&self, other: &Position) -> (steps: usize)
        requires
            distance(*self, *other) <= usize::MAX,
        ensures
            steps == distance(*self, *other),
    {
        apart(self.0, other.0) + apart(self.1, other.1) + apart(self.2, other.2)
    }

    /// The number of steps to another cell, capped where it is out of range.
    pub fn capped_distance(&self, other: &Position) -> (steps: usize)
        ensures
            steps == capped(distance(*self, *other)),
    {
        capped_sum(capped_sum(apart(self.0, other.0), apart(self.1, other.1)), apart(self.2, other.2))
    }

    /// The step from this cell towards another.
    pub fn diff(&self, other: Position) -> (direction: Direction)
        ensures
            direction == step_towards(*self, other),
    {
        if other.0 > self.0 {
            Direction::East
        } else if other.0 < self.0 {
            Direction::West
        } else if other.1 > self.1 {
            Direction::North
        } else if other.1 < self.1 {
            Direction::South
        } else if other.2 > self.2 {
            Direction::Top
        } else if other.2 < self.2 {
            Direction::Bottom
        } else {
            Direction::Unset
        }
    }

    /// The neighbour in a direction, where there is one.
    pub fn walk(&self, direction: Direction) -> (next: Option<Position>)
        ensures
            next == neighbour(*self, direction),
    {
        match direction {
            Direction::Unset => Some(*self),
            Direction::Bottom => if self.2 > 0 {
                Some(Position(self.0, self.1, self.2 - 1))
            } else {
                None
            },
            Direction::Top => if self.2 < usize::MAX {
                Some(Position(self.0, self.1, self.2 + 1))
            } else {
                None
            },
            Direction::West => if self.0 > 0 {
                Some(Position(self.0 - 1, self.1, self.2))
            } else {
                None
            },
            Direction::East => if self.0 < usize::MAX {
                Some(Position(self.0 + 1, self.1, self.2))
            } else {
                None
            },
            Direction::South => if self.1 > 0 {
                Some(Position(self.0, self.1 - 1, self.2))
            } else {
                None
            },
            Direction::North => if self.1 < usize::MAX {
                Some(Position(self.0, self.1 + 1, self.2))
            } else {
                None
            },
        }
    }

    /// The cell below, where there is one.
    pub fn down(&self) -> (next: Option<Position>)
        ensures
            next == neighbour(*self, Direction::Bottom),
    {
        self.walk(Direction::Bottom)
    }

    /// The horizontal neighbours that there are.
    pub fn cardinal(&self) -> (cells: Vec<Position>)
        ensures
            forall|i: int| 0 <= i < cells.len() ==> is_beside(*self, #[trigger] cells[i]),
            forall|cell: Position| is_beside(*self, cell) ==> #[trigger] cells@.contains(cell),
            forall|i: int, j: int| 0 <= i < j < cells.len() ==> cells[i] != cells[j],
            cells.len() <= 4,
    {
        let mut cells: Vec<Position> = Vec::new();
        let ghost mut east: int = -1;
        let ghost mut west: int = -1;
        let ghost mut north: int = -1;
        let ghost mut south: int = -1;
        if let Some(cell) = self.walk(Direction::East) {
            proof {
                east = cells@.len() as int;
            }
            cells.push(cell);
        }
        if let Some(cell) = self.walk(Direction::West) {
            proof {
                west = cells@.len() as int;
            }
            cells.push(cell);
        }
        if let Some(cell) = self.walk(Direction::South) {
            proof {
                south = cells@.len() as int;
            }
            cells.push(cell);
        }
        if let Some(cell) = self.walk(Direction::North) {
            proof {
                north = cells@.len() as int;
            }
            cells.push(cell);
        }
        proof {
            assert forall|cell: Position| is_beside(*self, cell) implies #[trigger] cells@.contains(cell) by {
                if cell.0 > self.0 {
                    assert(cells@[east] == cell);
                } else if cell.0 < self.0 {
                    assert(cells@[west] == cell);
                } else if cell.1 < self.1 {
                    assert(cells@[south] == cell);
                } else {
                    assert(cells@[north] == cell);
                }
            }
        }
        cells
    }
}

/// The neighbours of a cell, along every axis.
pub open spec fn is_next_to(left: Position, right: Position) -> bool {
    distance(left, right) == 1
}

impl Position {
    /// The neighbours that there are, along every axis.
    pub fn forwards(&self) -> (cells: Vec<Position>)
        ensures
            forall|i: int| 0 <= i < cells.len() ==> is_next_to(*self, #[trigger] cells[i]),
            forall|cell: Position| is_next_to(*self, cell) ==> #[trigger] cells@.contains(cell),
            forall|i: int, j: int| 0 <= i < j < cells.len() ==> cells[i] != cells[j],
            cells.len() <= 6,
    {
        let mut cells = self.cardinal();
        let ghost beside = cells@;
        let ghost mut above: int = -1;
        let ghost mut below: int = -1;
        proof {
            assert forall|i: int| 0 <= i < cells.len() implies is_next_to(*self, #[trigger] cells@[i]) by {
                assert(is_beside(*self, cells@[i]));
            }
        }
        if let Some(cell) = self.walk(Direction::Top) {
            proof {
                above = cells@.len() as int;
            }
            cells.push(cell);
        }
        if let Some(cell) = self.walk(Direction::Bottom) {
            proof {
                below = cells@.len() as int;
            }
            cells.push(cell);
        }
        proof {
            assert forall|cell: Position| is_next_to(*self, cell) implies #[trigger] cells@.contains(cell) by {
                if cell.2 > self.2 {
                    assert(cells@[above] == cell);
                } else if cell.2 < self.2 {
                    assert(cells@[below] == cell);
                } else {
                    assert(is_beside(*self, cell));
                    assert(beside.contains(cell));
                    let i = choose|i: int| 0 <= i < beside.len() && beside[i] == cell;
                    assert(cells@[i] == cell);
                }
            }
            assert forall|i: int, j: int| 0 <= i < j < cells.len() implies cells@[i] != cells@[j] by {
                if j < beside.len() {
                    assert(beside[i] != beside[j]);
                } else if i < beside.len() {
                    assert(is_beside(*self, beside[i]));
                }
            }
        }
        cells
    }
}

impl SortKey for Position {
    open spec fn before(&self, other: &Self) -> bool {
        position_before(*self, *other)
    }

    fn is_before(&self, other: &Self) -> (before: bool) {
        assert(self.before(other) == position_before(*self, *other));
        if self.0 != other.0 {
            self.0 < other.0
        } else if self.1 != other.1 {
            self.1 < other.1
        } else {
            self.2 < other.2
        }
    }

    proof fn before_asymmetric(&self, other: &Self) {
    }

    proof fn not_before_transitive(&self, middle: &Self, other: &Self) {
    }
}

impl TotalKey for Position {
    proof fn before_total(&self, other: &Self) {
    }
}

impl SortKey for (usize, Position) {
    open spec fn before(&self, other: &Self) -> bool {
        if self.0 != other.0 {
            self.0 < other.0
        } else {
            position_before(self.1, other.1)
        }
    }

    fn is_before(&self, other: &Self) -> (before: bool) {
        if self.0 != other.0 {
            self.0 < other.0
        } else {
            self.1.is_before(&other.1)
        }
    }

    proof fn before_asymmetric(&self, other: &Self) {
    }

    proof fn not_before_transitive(&self, middle: &Self, other: &Self) {
    }
}

impl TotalKey for (usize, Position) {
    proof fn before_total(&self, other: &Self) {
    }
}

/// Whether cells are listed in order, each once.
pub open spec fn is_sorted(cells: Seq<Position>) -> bool {
    forall|i: int, j: int| 0 <= i < j < cells.len() ==> position_before(#[trigger] cells[i], #[trigger] cells[j])
}

/// Puts a cell into a sorted list of cells, unless it is there.
pub fn insert_sorted(cells: &mut Vec<Position>, cell: Position)
    requires
        is_sorted(old(cells)@),
    ensures
        is_sorted(final(cells)@),
        forall|other: Position| #[trigger]
            final(cells)@.contains(other) <==> old(cells)@.contains(other) || other == cell,
{
    proof {
        ascending_is_sorted(cells@);
    }
    insert_ascending(cells, cell);
    proof {
        ascending_is_sorted(cells@);
    }
}

proof fn ascending_is_sorted(cells: Seq<Position>)
    ensures
        is_ascending(cells) == is_sorted(cells),
{
    if is_ascending(cells) {
        assert forall|i: int, j: int| 0 <= i < j < cells.len() implies position_before(
            #[trigger] cells[i],
            #[trigger] cells[j],
        ) by {
            assert(comes_before(cells[i], cells[j]));
        }
    }
    if is_sorted(cells) {
        assert forall|i: int, j: int| 0 <= i < j < cells.len() implies comes_before(
            #[trigger] cells[i],
            #[trigger] cells[j],
        ) by {
            assert(position_before(cells[i], cells[j]));
        }
    }
}

/// The distinct cells of a list, in order.
pub fn sorted_cells(cells: &Vec<Position>) -> (sorted: Vec<Position>)
    ensures
        is_sorted(sorted@),
        forall|cell: Position| #[trigger] sorted@.contains(cell) <==> cells@.contains(cell),
{
    let mut sorted: Vec<Position> = Vec::new();
    let mut index: usize = 0;
    while index < cells.len()
        invariant
            index <= cells.len(),
            is_sorted(sorted@),
            forall|cell: Position| #[trigger]
                sorted@.contains(cell) <==> exists|i: int| 0 <= i < index && #[trigger] cells@[i] == cell,
        decreases cells.len() - index,
    {
        let ghost before = sorted@;
        insert_sorted(&mut sorted, cells[index]);
        proof {
            assert forall|cell: Position| #[trigger] sorted@.contains(cell) <==> exists|i: int|
                0 <= i < index + 1 && #[trigger] cells@[i] == cell by {
                if before.contains(cell) {
                    let i = choose|i: int| 0 <= i < index && #[trigger] cells@[i] == cell;
                    assert(cells@[i] == cell);
                }
                if cell == cells@[index as int] {
                    assert(cells@[index as int] == cell);
                }
            }
        }
        index += 1;
    }
    sorted
}

} // verus!

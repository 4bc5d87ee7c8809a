//! What a route is to reach.

use super::super::dust::{is_rule, says};
use crate::world::grid::World3D;
use crate::world::position::{
    insert_sorted, is_beside, is_sorted, neighbour, Direction, Position,
};
use vstd::prelude::*;

verus! {

/// What a route is to reach.
#[derive(Clone, Copy, Debug, PartialEq, Eq, Structural)]
pub enum RouteGoal {
    /// A block that is there already.
    ConnectPosition { target: Position },
    /// Power in a support block.
    PowerCobble { cobble: Position },
    /// Dust in a free cell.
    PlaceRedstone { target: Position },
}

/// The goal of a route to a cell.
pub open spec fn goal_of(world: World3D, sink: Position) -> RouteGoal {
    if world.at(sink).kind is Cobble {
        RouteGoal::PowerCobble { cobble: sink }
    } else if world.at(sink).kind is Air {
        RouteGoal::PlaceRedstone { target: sink }
    } else {
        RouteGoal::ConnectPosition { target: sink }
    }
}

/// The cell that a goal is about.
pub open spec fn target_of(goal: RouteGoal) -> Position {
    match goal {
        RouteGoal::ConnectPosition { target } => target,
        RouteGoal::PowerCobble { cobble } => cobble,
        RouteGoal::PlaceRedstone { target } => target,
    }
}

/// Whether a route must not be extended into a cell.
pub open spec fn rejects(goal: RouteGoal, position: Position) -> bool {
    !(goal is PlaceRedstone) && position == target_of(goal)
}

/// Whether a goal is reached from a cell. Whether dust powers a support block is
/// answered by a rule of its own.
pub open spec fn is_reached<
    F: Fn(&World3D, Position, Position) -> bool,
    C: Fn(&World3D, Position, Position) -> bool,
>(rule: &F, cobble_rule: &C, goal: RouteGoal, world: World3D, cell: Position) -> bool {
    match goal {
        RouteGoal::ConnectPosition { target } => says(rule, world, target, cell),
        RouteGoal::PowerCobble { cobble } => says(cobble_rule, world, cell, cobble),
        RouteGoal::PlaceRedstone { target } => cell == target && world.at(cell).kind is Redstone,
    }
}

/// The cells that a route may touch on its way to a support block: the cell
/// itself, those beside it, and the one above.
pub open spec fn may_short(cobble: Position, cell: Position) -> bool {
    cell == cobble || is_beside(cobble, cell) || neighbour(cobble, Direction::Top) == Some(cell)
}

impl RouteGoal {
    /// The goal of a route to a cell: to power a support block, to put dust into
    /// a free cell, or to connect to what is there.
    pub fn for_sink(world: &World3D, sink: Position) -> (goal: Self)
        requires
            world.wf(),
        ensures
            goal == goal_of(*world, sink),
    {
        let kind = world.get(sink).kind;
        if kind.is_cobble() {
            return RouteGoal::PowerCobble { cobble: sink };
        }
        if kind.is_air() {
            return RouteGoal::PlaceRedstone { target: sink };
        }
        RouteGoal::ConnectPosition { target: sink }
    }

    /// The cell that the goal is about.
    pub fn placement_target(self) -> (target: Position)
        ensures
            target == target_of(self),
    {
        match self {
            RouteGoal::ConnectPosition { target } => target,
            RouteGoal::PowerCobble { cobble } => cobble,
            RouteGoal::PlaceRedstone { target } => target,
        }
    }

    /// Whether a route must not be extended into a cell.
    pub fn rejects_bound_position(self, position: Position) -> (rejected: bool)
        ensures
            rejected == rejects(self, position),
    {
        match self {
            RouteGoal::PlaceRedstone { .. } => false,
            _ => position == self.placement_target(),
        }
    }

    /// Whether the goal is reached from a cell.
    pub fn accepts<F: Fn(&World3D, Position, Position) -> bool, C: Fn(&World3D, Position, Position) -> bool>(
        self,
        rule: &F,
        cobble_rule: &C,
        world: &World3D,
        cell: Position,
    ) -> (reached: bool)
        requires
            world.wf(),
            is_rule(rule),
            is_rule(cobble_rule),
        ensures
            reached == is_reached(rule, cobble_rule, self, *world, cell),
    {
        match self {
            RouteGoal::ConnectPosition { target } => rule(world, target, cell),
            RouteGoal::PowerCobble { cobble } => cobble_rule(world, cell, cobble),
            RouteGoal::PlaceRedstone { target } => cell == target && world.get(cell).kind.is_redstone(),
        }
    }

    /// The cells that a route may touch near the goal, where that is limited.
    pub fn allowed_short_positions(self) -> (cells: Option<Vec<Position>>)
        ensures
            match self {
                RouteGoal::PowerCobble { cobble } => cells matches Some(cells) && is_sorted(cells@) && forall|cell: Position| #[trigger]
                    cells@.contains(cell) <==> may_short(cobble, cell),
                _ => cells is None,
            },
    {
        match self {
            RouteGoal::PowerCobble { cobble } => {
                let beside = cobble.cardinal();
                let mut cells: Vec<Position> = Vec::new();
                let mut index: usize = 0;
                while index < beside.len()
                    invariant
                        index <= beside.len(),
                        is_sorted(cells@),
                        forall|cell: Position| #[trigger]
                            cells@.contains(cell) <==> exists|i: int| 0 <= i < index && #[trigger] beside@[i] == cell,
                    decreases beside.len() - index,
                {
                    let ghost before = cells@;
                    insert_sorted(&mut cells, beside[index]);
                    proof {
                        assert forall|cell: Position| #[trigger] cells@.contains(cell) <==> exists|i: int|
                            0 <= i < index + 1 && #[trigger] beside@[i] == cell by {
                            if before.contains(cell) {
                                let i = choose|i: int| 0 <= i < index && #[trigger] beside@[i] == cell;
                                assert(beside@[i] == cell);
                            }
                            if cell == beside@[index as int] {
                                assert(beside@[index as int] == cell);
                            }
                        }
                    }
                    index += 1;
                }
                proof {
                    assert forall|cell: Position| #[trigger] cells@.contains(cell) <==> is_beside(cobble, cell) by {
                        if is_beside(cobble, cell) {
                            assert(beside@.contains(cell));
                        }
                    }
                }
                insert_sorted(&mut cells, cobble);
                if let Some(above) = cobble.walk(Direction::Top) {
                    insert_sorted(&mut cells, above);
                }
                Some(cells)
            },
            _ => None,
        }
    }
}

} // verus!

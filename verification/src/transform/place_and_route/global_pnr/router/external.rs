//! Where the switches of the inputs of a design go.

use super::ports::ResolvedPortTarget;
use super::targets::{dedup_cells, deduped};
use super::tools::RouteTools;
use crate::number::{capped, capped_product, capped_sum};
use crate::order::{stable_order, stable_order_is_unique, the_stable_order, RankKey};
use crate::transform::place_and_route::global_pnr::candidate::{new_redstone, plain_dust};
use crate::transform::place_and_route::global_pnr::dust::says;
use crate::transform::place_and_route::global_pnr::route_engine::adapter::{
    is_put, is_supported, just, place_support_cobble_if_needed, put_touching,
};
use crate::transform::place_and_route::global_pnr::route_engine::search::PlaceRequest;
use crate::transform::place_and_route::global_pnr::route_engine::state::PlaceBound;
use crate::world::block::{Block, BlockKind};
use crate::world::grid::{Placed, World3D};
use crate::world::position::{distance, in_bounds, neighbour, Direction, Position};
use vstd::prelude::*;

verus! {

/// How many switches are tried for an input at most.
pub const EXTERNAL_SOURCE_LIMIT: usize = 24;

/// A switch for an input, with the dust that it powers.
#[derive(Debug)]
pub struct ExternalInputSource {
    pub world: World3D,
    pub switch: Position,
    pub route_source: Position,
    pub blocks: Vec<Placed>,
}

// ---------------------------------------------------------------------------
// Distances
// ---------------------------------------------------------------------------
/// The distances of a cell from the first `count` sinks, summed up.
pub open spec fn total_distance(cell: Position, sinks: Seq<ResolvedPortTarget>, count: nat) -> nat
    decreases count,
{
    if count == 0 {
        0
    } else {
        capped(
            total_distance(cell, sinks, (count - 1) as nat) + capped(distance(cell, sinks[count - 1].position)),
        )
    }
}

/// The largest distance of a cell from the first `count` sinks.
pub open spec fn largest_distance(cell: Position, sinks: Seq<ResolvedPortTarget>, count: nat) -> nat
    decreases count,
{
    if count == 0 {
        0
    } else {
        let rest = largest_distance(cell, sinks, (count - 1) as nat);
        let here = capped(distance(cell, sinks[count - 1].position));
        if here > rest {
            here
        } else {
            rest
        }
    }
}

fn distances(cell: Position, sinks: &Vec<ResolvedPortTarget>) -> (found: (usize, usize))
    ensures
        found.0 == total_distance(cell, sinks@, sinks@.len()),
        found.1 == largest_distance(cell, sinks@, sinks@.len()),
{
    let mut total: usize = 0;
    let mut largest: usize = 0;
    let mut index: usize = 0;
    while index < sinks.len()
        invariant
            index <= sinks.len(),
            total == total_distance(cell, sinks@, index as nat),
            largest == largest_distance(cell, sinks@, index as nat),
        decreases sinks.len() - index,
    {
        let here: usize = cell.capped_distance(&sinks[index].position);
        total = capped_sum(total, here);
        if here > largest {
            largest = here;
        }
        index += 1;
    }
    (total, largest)
}

/// What a switch in a cell costs: the nearer to all sinks the better.
pub open spec fn switch_cost(cell: Position, sinks: Seq<ResolvedPortTarget>) -> RankKey {
    RankKey(
        total_distance(cell, sinks, sinks.len()) as usize,
        largest_distance(cell, sinks, sinks.len()) as usize,
        cell.0,
        cell.1,
        0,
    )
}

/// What a switch in a cell costs.
pub fn external_input_candidate_cost(cell: Position, sinks: &Vec<ResolvedPortTarget>) -> (cost: RankKey)
    ensures
        cost == switch_cost(cell, sinks@),
{
    let (total, largest) = distances(cell, sinks);
    RankKey(total, largest, cell.0, cell.1, 0)
}

/// Cells in the order of keys.
pub open spec fn in_key_order(cells: Seq<Position>, keys: Seq<RankKey>) -> Seq<Position> {
    let order = the_stable_order(keys);
    Seq::new(cells.len(), |i: int| cells[order[i] as int])
}

fn sort_by_keys(cells: &Vec<Position>, keys: &Vec<RankKey>) -> (sorted: Vec<Position>)
    requires
        keys.len() == cells.len(),
    ensures
        sorted@ == in_key_order(cells@, keys@),
{
    let order = stable_order(keys);
    proof {
        stable_order_is_unique(keys@, order@);
    }
    let mut sorted: Vec<Position> = Vec::new();
    let mut index: usize = 0;
    while index < order.len()
        invariant
            index <= order.len(),
            order.len() == cells.len(),
            order@ == the_stable_order(keys@),
            forall|i: int| 0 <= i < order.len() ==> #[trigger] order@[i] < cells.len(),
            sorted.len() == index,
            forall|i: int| 0 <= i < index ==> #[trigger] sorted@[i] == cells@[order@[i] as int],
        decreases order.len() - index,
    {
        let at: usize = order[index];
        assert(order@[index as int] < cells.len());
        sorted.push(cells[at]);
        index += 1;
    }
    assert(sorted@ =~= in_key_order(cells@, keys@));
    sorted
}

/// Cells with the best for a switch first, each of them once.
pub open spec fn cheapest_first(cells: Seq<Position>, sinks: Seq<ResolvedPortTarget>) -> Seq<Position> {
    deduped(in_key_order(cells, cells.map_values(|cell: Position| switch_cost(cell, sinks))))
}

fn sort_by_cost(cells: &Vec<Position>, sinks: &Vec<ResolvedPortTarget>) -> (sorted: Vec<Position>)
    ensures
        sorted@ == cheapest_first(cells@, sinks@),
{
    let ghost wanted = cells@.map_values(|cell: Position| switch_cost(cell, sinks@));
    let mut keys: Vec<RankKey> = Vec::new();
    let mut index: usize = 0;
    while index < cells.len()
        invariant
            index <= cells.len(),
            wanted == cells@.map_values(|cell: Position| switch_cost(cell, sinks@)),
            keys.len() == index,
            forall|i: int| 0 <= i < index ==> #[trigger] keys@[i] == wanted[i],
        decreases cells.len() - index,
    {
        keys.push(external_input_candidate_cost(cells[index], sinks));
        index += 1;
    }
    assert(keys@ =~= wanted);
    let sorted = sort_by_keys(cells, &keys);
    dedup_cells(&sorted)
}

/// By what cells are ordered for one sink: the nearest to it first, and of those
/// the best for all.
pub open spec fn sink_keys(
    cells: Seq<Position>,
    sink: Position,
    sinks: Seq<ResolvedPortTarget>,
) -> Seq<RankKey> {
    cells.map_values(
        |cell: Position|
            RankKey(
                capped(distance(cell, sink)) as usize,
                total_distance(cell, sinks, sinks.len()) as usize,
                largest_distance(cell, sinks, sinks.len()) as usize,
                cell.0,
                cell.1,
            ),
    )
}

/// The first `count` of some cells.
pub open spec fn first_of(cells: Seq<Position>, count: nat) -> Seq<Position> {
    if cells.len() > count {
        cells.take(count as int)
    } else {
        cells
    }
}

fn push_first(list: &mut Vec<Position>, cells: &Vec<Position>, count: usize)
    ensures
        final(list)@ == old(list)@ + first_of(cells@, count as nat),
{
    let ghost before = list@;
    let mut index: usize = 0;
    assert(before + cells@.take(0) =~= before);
    while index < cells.len() && index < count
        invariant
            index <= cells.len(),
            index <= count,
            list@ == before + cells@.take(index as int),
        decreases cells.len() - index,
    {
        list.push(cells[index]);
        assert(before + cells@.take(index + 1) =~= (before + cells@.take(index as int)).push(cells@[index as int]));
        index += 1;
    }
    assert(cells@.take(index as int) =~= first_of(cells@, count as nat));
}

// ---------------------------------------------------------------------------
// Cells for a switch
// ---------------------------------------------------------------------------
/// The cells at a distance from a cell along the axes.
pub open spec fn around(cell: Position, steps: nat) -> Seq<Position> {
    let right = seq![
        Position(capped((cell.0 + steps) as nat) as usize, cell.1, cell.2),
        Position(cell.0, capped((cell.1 + steps) as nat) as usize, cell.2),
    ];
    let left = if cell.0 >= steps {
        right.push(Position((cell.0 - steps) as usize, cell.1, cell.2))
    } else {
        right
    };
    if cell.1 >= steps {
        left.push(Position(cell.0, (cell.1 - steps) as usize, cell.2))
    } else {
        left
    }
}

/// The cells around a sink, up to a distance.
pub open spec fn near_sink(sink: Position, steps: nat) -> Seq<Position>
    decreases steps,
{
    if steps < 4 {
        Seq::empty()
    } else {
        near_sink(sink, (steps - 1) as nat) + around(sink, steps)
    }
}

fn push_around(list: &mut Vec<Position>, cell: Position, steps: usize)
    ensures
        final(list)@ == old(list)@ + around(cell, steps as nat),
{
    let ghost before = list@;
    list.push(Position(capped_sum(cell.0, steps), cell.1, cell.2));
    list.push(Position(cell.0, capped_sum(cell.1, steps), cell.2));
    if cell.0 >= steps {
        list.push(Position(cell.0 - steps, cell.1, cell.2));
    }
    if cell.1 >= steps {
        list.push(Position(cell.0, cell.1 - steps, cell.2));
    }
    assert(list@ =~= before + around(cell, steps as nat));
}

/// The cells for a switch around a sink.
pub fn external_switch_candidates_near_sink(sink: Position) -> (cells: Vec<Position>)
    ensures
        cells@ == near_sink(sink, 8),
{
    let mut cells: Vec<Position> = Vec::new();
    assert(near_sink(sink, 3) =~= Seq::<Position>::empty());
    let mut steps: usize = 4;
    while steps <= 8
        invariant
            4 <= steps <= 9,
            cells@ == near_sink(sink, (steps - 1) as nat),
        decreases 9 - steps,
    {
        push_around(&mut cells, sink, steps);
        steps += 1;
    }
    cells
}

/// The smallest coordinates of the first `count` cells.
pub open spec fn lowest(cells: Seq<Position>, count: nat) -> Position
    decreases count,
{
    if count <= 1 {
        cells[0]
    } else {
        let rest = lowest(cells, (count - 1) as nat);
        let cell = cells[count - 1];
        Position(
            if cell.0 < rest.0 {
                cell.0
            } else {
                rest.0
            },
            if cell.1 < rest.1 {
                cell.1
            } else {
                rest.1
            },
            if cell.2 < rest.2 {
                cell.2
            } else {
                rest.2
            },
        )
    }
}

/// The largest coordinates of the first `count` cells.
pub open spec fn highest(cells: Seq<Position>, count: nat) -> Position
    decreases count,
{
    if count <= 1 {
        cells[0]
    } else {
        let rest = highest(cells, (count - 1) as nat);
        let cell = cells[count - 1];
        Position(
            if cell.0 > rest.0 {
                cell.0
            } else {
                rest.0
            },
            if cell.1 > rest.1 {
                cell.1
            } else {
                rest.1
            },
            if cell.2 > rest.2 {
                cell.2
            } else {
                rest.2
            },
        )
    }
}

/// The corners of some cells.
fn corners(cells: &Vec<Position>) -> (found: Option<(Position, Position)>)
    ensures
        match found {
            None => cells@.len() == 0,
            Some((min, max)) => cells@.len() > 0 && min == lowest(cells@, cells@.len()) && max == highest(
                cells@,
                cells@.len(),
            ),
        },
{
    if cells.len() == 0 {
        return None;
    }
    let mut min = cells[0];
    let mut max = cells[0];
    let mut index: usize = 1;
    while index < cells.len()
        invariant
            1 <= index <= cells.len(),
            min == lowest(cells@, index as nat),
            max == highest(cells@, index as nat),
        decreases cells.len() - index,
    {
        let cell = cells[index];
        assert(cells@[index as int] == cell);
        if cell.0 < min.0 {
            min = Position(cell.0, min.1, min.2);
        }
        if cell.1 < min.1 {
            min = Position(min.0, cell.1, min.2);
        }
        if cell.2 < min.2 {
            min = Position(min.0, min.1, cell.2);
        }
        if cell.0 > max.0 {
            max = Position(cell.0, max.1, max.2);
        }
        if cell.1 > max.1 {
            max = Position(max.0, cell.1, max.2);
        }
        if cell.2 > max.2 {
            max = Position(max.0, max.1, cell.2);
        }
        index += 1;
    }
    Some((min, max))
}

proof fn corners_are_ordered(cells: Seq<Position>, count: nat)
    requires
        0 < count <= cells.len(),
    ensures
        lowest(cells, count).0 <= highest(cells, count).0,
        lowest(cells, count).1 <= highest(cells, count).1,
        lowest(cells, count).2 <= highest(cells, count).2,
    decreases count,
{
    if count > 1 {
        corners_are_ordered(cells, (count - 1) as nat);
    }
}

/// The cells of sinks.
pub open spec fn sink_cells(sinks: Seq<ResolvedPortTarget>) -> Seq<Position> {
    sinks.map_values(|sink: ResolvedPortTarget| sink.position)
}

/// The cells of blocks.
pub open spec fn block_cells(blocks: Seq<Placed>) -> Seq<Position> {
    blocks.map_values(|block: Placed| block.0)
}

/// The middle of some cells.
pub open spec fn middle(cells: Seq<Position>) -> Position {
    let min = lowest(cells, cells.len());
    let max = highest(cells, cells.len());
    Position(
        ((min.0 + max.0) / 2) as usize,
        ((min.1 + max.1) / 2) as usize,
        ((min.2 + max.2) / 2) as usize,
    )
}

/// The middle of the sinks.
pub fn sink_center_position(sinks: &Vec<ResolvedPortTarget>) -> (center: Option<Position>)
    ensures
        center == (if sinks@.len() == 0 {
            None
        } else {
            Some(middle(sink_cells(sinks@)))
        }),
{
    let mut cells: Vec<Position> = Vec::new();
    let mut index: usize = 0;
    while index < sinks.len()
        invariant
            index <= sinks.len(),
            cells.len() == index,
            forall|i: int| 0 <= i < index ==> #[trigger] cells@[i] == sinks@[i].position,
        decreases sinks.len() - index,
    {
        cells.push(sinks[index].position);
        index += 1;
    }
    assert(cells@ =~= sink_cells(sinks@));
    match corners(&cells) {
        None => None,
        Some((min, max)) => {
            proof {
                corners_are_ordered(cells@, cells@.len());
            }
            Some(
                Position(
                    min.0 + (max.0 - min.0) / 2,
                    min.1 + (max.1 - min.1) / 2,
                    min.2 + (max.2 - min.2) / 2,
                ),
            )
        },
    }
}

/// The corners of the blocks of a world.
pub fn occupied_bounds(world: &World3D) -> (found: Option<(Position, Position)>)
    requires
        world.wf(),
    ensures
        found == (if world.listed().len() == 0 {
            None
        } else {
            let cells = block_cells(world.listed());
            Some((lowest(cells, cells.len()), highest(cells, cells.len())))
        }),
{
    let listed = world.iter_block();
    let mut cells: Vec<Position> = Vec::new();
    let mut index: usize = 0;
    while index < listed.len()
        invariant
            index <= listed.len(),
            listed@ == world.listed(),
            cells.len() == index,
            forall|i: int| 0 <= i < index ==> #[trigger] cells@[i] == world.listed()[i].0,
        decreases listed.len() - index,
    {
        cells.push(listed[index].0);
        index += 1;
    }
    assert(cells@ =~= block_cells(world.listed()));
    corners(&cells)
}

/// The cells at a distance from the blocks of a world, level with the middle of
/// the sinks.
pub open spec fn beyond(min: Position, max: Position, center: Position, steps: nat) -> Seq<Position> {
    let right = seq![
        Position(capped((max.0 + steps) as nat) as usize, center.1, center.2),
        Position(center.0, capped((max.1 + steps) as nat) as usize, center.2),
    ];
    let left = if min.0 >= steps {
        right.push(Position((min.0 - steps) as usize, center.1, center.2))
    } else {
        right
    };
    if min.1 >= steps {
        left.push(Position(center.0, (min.1 - steps) as usize, center.2))
    } else {
        left
    }
}

/// The cells outside the blocks of a world, up to a distance.
pub open spec fn outside(min: Position, max: Position, center: Position, steps: nat) -> Seq<Position>
    decreases steps,
{
    if steps < 2 {
        Seq::empty()
    } else {
        outside(min, max, center, (steps - 1) as nat) + beyond(min, max, center, steps)
    }
}

/// By what cells outside are ordered: those to the left or right first, and of
/// those the nearest to all sinks.
pub open spec fn outside_keys(
    cells: Seq<Position>,
    min: Position,
    max: Position,
    sinks: Seq<ResolvedPortTarget>,
) -> Seq<RankKey> {
    cells.map_values(
        |cell: Position|
            RankKey(
                if cell.0 > max.0 || cell.0 < min.0 {
                    0
                } else {
                    1
                },
                total_distance(cell, sinks, sinks.len()) as usize,
                cell.0,
                cell.1,
                cell.2,
            ),
    )
}

/// The cells for a switch outside the blocks of a world.
pub open spec fn outside_cells(world: World3D, sinks: Seq<ResolvedPortTarget>) -> Seq<Position> {
    if sinks.len() == 0 || world.listed().len() == 0 {
        Seq::empty()
    } else {
        let blocks = block_cells(world.listed());
        let min = lowest(blocks, blocks.len());
        let max = highest(blocks, blocks.len());
        let cells = outside(min, max, middle(sink_cells(sinks)), 12);
        in_key_order(cells, outside_keys(cells, min, max, sinks))
    }
}

/// The cells for a switch outside the blocks of a world.
pub fn external_switch_candidates_outside_layout(world: &World3D, sinks: &Vec<ResolvedPortTarget>) -> (cells: Vec<
    Position,
>)
    requires
        world.wf(),
    ensures
        cells@ == outside_cells(*world, sinks@),
{
    let center = match sink_center_position(sinks) {
        None => {
            let none: Vec<Position> = Vec::new();
            assert(none@ =~= outside_cells(*world, sinks@));
            return none;
        },
        Some(center) => center,
    };
    let (min, max) = match occupied_bounds(world) {
        None => {
            let none: Vec<Position> = Vec::new();
            assert(none@ =~= outside_cells(*world, sinks@));
            return none;
        },
        Some(found) => found,
    };
    let mut cells: Vec<Position> = Vec::new();
    assert(outside(min, max, center, 1) =~= Seq::<Position>::empty());
    let mut steps: usize = 2;
    while steps <= 12
        invariant
            2 <= steps <= 13,
            cells@ == outside(min, max, center, (steps - 1) as nat),
        decreases 13 - steps,
    {
        let ghost before = cells@;
        cells.push(Position(capped_sum(max.0, steps), center.1, center.2));
        cells.push(Position(center.0, capped_sum(max.1, steps), center.2));
        if min.0 >= steps {
            cells.push(Position(min.0 - steps, center.1, center.2));
        }
        if min.1 >= steps {
            cells.push(Position(center.0, min.1 - steps, center.2));
        }
        assert(cells@ =~= before + beyond(min, max, center, steps as nat));
        steps += 1;
    }
    let mut keys: Vec<RankKey> = Vec::new();
    let mut index: usize = 0;
    while index < cells.len()
        invariant
            index <= cells.len(),
            keys.len() == index,
            forall|i: int| 0 <= i < index ==> #[trigger] keys@[i] == outside_keys(cells@, min, max, sinks@)[i],
        decreases cells.len() - index,
    {
        let cell = cells[index];
        let (total, _) = distances(cell, sinks);
        let inside: usize = if cell.0 > max.0 || cell.0 < min.0 {
            0
        } else {
            1
        };
        keys.push(RankKey(inside, total, cell.0, cell.1, cell.2));
        index += 1;
    }
    assert(keys@ =~= outside_keys(cells@, min, max, sinks@));
    sort_by_keys(&cells, &keys)
}

/// The cells around the first `count` sinks.
pub open spec fn near_sinks(sinks: Seq<ResolvedPortTarget>, count: nat) -> Seq<Position>
    decreases count,
{
    if count == 0 {
        Seq::empty()
    } else {
        near_sinks(sinks, (count - 1) as nat) + near_sink(sinks[count - 1].position, 8)
    }
}

/// What a cell next to the border costs more.
pub open spec fn border_cost(cell: Position) -> nat {
    if cell.0 < 2 || cell.1 < 2 {
        16
    } else {
        0
    }
}

/// By what cells around sinks are ordered: the nearest to the farthest sink
/// first.
pub open spec fn around_keys(cells: Seq<Position>, sinks: Seq<ResolvedPortTarget>) -> Seq<RankKey> {
    cells.map_values(
        |cell: Position|
            RankKey(
                capped(largest_distance(cell, sinks, sinks.len()) + border_cost(cell)) as usize,
                capped(total_distance(cell, sinks, sinks.len()) + border_cost(cell)) as usize,
                (usize::MAX - cell.0) as usize,
                (usize::MAX - cell.1) as usize,
                cell.2,
            ),
    )
}

/// The cells for a switch around the sinks.
pub open spec fn around_cells(sinks: Seq<ResolvedPortTarget>) -> Seq<Position> {
    let near = near_sinks(sinks, sinks.len());
    let cells = if sinks.len() == 0 {
        near
    } else {
        near + near_sink(middle(sink_cells(sinks)), 8)
    };
    deduped(in_key_order(cells, around_keys(cells, sinks)))
}

/// The cells for a switch around the sinks.
pub fn external_switch_candidates_for_sinks(sinks: &Vec<ResolvedPortTarget>) -> (cells: Vec<Position>)
    ensures
        cells@ == around_cells(sinks@),
{
    let mut cells: Vec<Position> = Vec::new();
    assert(cells@ =~= near_sinks(sinks@, 0));
    let mut index: usize = 0;
    while index < sinks.len()
        invariant
            index <= sinks.len(),
            cells@ == near_sinks(sinks@, index as nat),
        decreases sinks.len() - index,
    {
        let mut near = external_switch_candidates_near_sink(sinks[index].position);
        cells.append(&mut near);
        index += 1;
    }
    if let Some(center) = sink_center_position(sinks) {
        let mut near = external_switch_candidates_near_sink(center);
        cells.append(&mut near);
    }
    let mut keys: Vec<RankKey> = Vec::new();
    let mut index: usize = 0;
    while index < cells.len()
        invariant
            index <= cells.len(),
            keys.len() == index,
            forall|i: int| 0 <= i < index ==> #[trigger] keys@[i] == around_keys(cells@, sinks@)[i],
        decreases cells.len() - index,
    {
        let cell = cells[index];
        let (total, largest) = distances(cell, sinks);
        let border: usize = if cell.0 < 2 || cell.1 < 2 {
            16
        } else {
            0
        };
        keys.push(
            RankKey(
                capped_sum(largest, border),
                capped_sum(total, border),
                usize::MAX - cell.0,
                usize::MAX - cell.1,
                cell.2,
            ),
        );
        index += 1;
    }
    assert(keys@ =~= around_keys(cells@, sinks@));
    let sorted = sort_by_keys(&cells, &keys);
    dedup_cells(&sorted)
}

/// The cells nearest to the first `count` sinks, a few for each.
pub open spec fn nearest_to_each(cells: Seq<Position>, sinks: Seq<ResolvedPortTarget>, count: nat) -> Seq<Position>
    decreases count,
{
    if count == 0 {
        Seq::empty()
    } else {
        nearest_to_each(cells, sinks, (count - 1) as nat) + first_of(
            in_key_order(cells, sink_keys(cells, sinks[count - 1].position, sinks)),
            4,
        )
    }
}

/// The largest x of the blocks of a world.
pub open spec fn rightmost(blocks: Seq<Placed>, count: nat) -> usize
    decreases count,
{
    if count == 0 {
        0
    } else {
        let rest = rightmost(blocks, (count - 1) as nat);
        let x = blocks[count - 1].0.0;
        if x > rest {
            x
        } else {
            rest
        }
    }
}

/// The cells that are tried for the switch of an input: the best of all, those
/// nearest to each sink, and one beside the blocks of the world.
pub open spec fn switch_cells(world: World3D, index: nat, sinks: Seq<ResolvedPortTarget>) -> Seq<Position> {
    let cells = cheapest_first(outside_cells(world, sinks) + around_cells(sinks), sinks);
    let chosen = first_of(cells, 8) + nearest_to_each(cells, sinks, sinks.len());
    let spare = Position(
        capped((rightmost(world.listed(), world.listed().len()) + 2) as nat) as usize,
        capped(capped(index * 3) + 1) as usize,
        1,
    );
    cheapest_first(chosen.push(spare), sinks)
}

/// The cells that are tried for the switch of an input.
fn choose_switch_cells(world: &World3D, index: usize, sinks: &Vec<ResolvedPortTarget>) -> (cells: Vec<Position>)
    requires
        world.wf(),
    ensures
        cells@ == switch_cells(*world, index as nat, sinks@),
{
    let mut all = external_switch_candidates_outside_layout(world, sinks);
    let mut more = external_switch_candidates_for_sinks(sinks);
    all.append(&mut more);
    let cells = sort_by_cost(&all, sinks);
    let ghost known = cheapest_first(outside_cells(*world, sinks@) + around_cells(sinks@), sinks@);
    let mut chosen: Vec<Position> = Vec::new();
    push_first(&mut chosen, &cells, 8);
    assert(chosen@ =~= first_of(known, 8) + nearest_to_each(known, sinks@, 0));
    let mut at: usize = 0;
    while at < sinks.len()
        invariant
            at <= sinks.len(),
            cells@ == known,
            chosen@ == first_of(known, 8) + nearest_to_each(known, sinks@, at as nat),
        decreases sinks.len() - at,
    {
        let sink = sinks[at].position;
        let mut keys: Vec<RankKey> = Vec::new();
        let mut part: usize = 0;
        while part < cells.len()
            invariant
                part <= cells.len(),
                keys.len() == part,
                forall|i: int| 0 <= i < part ==> #[trigger] keys@[i] == sink_keys(cells@, sink, sinks@)[i],
            decreases cells.len() - part,
        {
            let cell = cells[part];
            let (total, largest) = distances(cell, sinks);
            keys.push(RankKey(cell.capped_distance(&sink), total, largest, cell.0, cell.1));
            part += 1;
        }
        assert(keys@ =~= sink_keys(cells@, sink, sinks@));
        let near = sort_by_keys(&cells, &keys);
        push_first(&mut chosen, &near, 4);
        assert(chosen@ =~= first_of(known, 8) + nearest_to_each(known, sinks@, (at + 1) as nat));
        at += 1;
    }
    let listed = world.iter_block();
    let mut right: usize = 0;
    let mut part: usize = 0;
    while part < listed.len()
        invariant
            part <= listed.len(),
            listed@ == world.listed(),
                right == rightmost(world.listed(), part as nat),
        decreases listed.len() - part,
    {
        if listed[part].0.0 > right {
            right = listed[part].0.0;
        }
        part += 1;
    }
    chosen.push(Position(capped_sum(right, 2), capped_sum(capped_product(index, 3), 1), 1));
    sort_by_cost(&chosen, sinks)
}

// ---------------------------------------------------------------------------
// Switches
// ---------------------------------------------------------------------------
/// The switch of an input.
pub open spec fn plain_switch() -> Block {
    Block { kind: BlockKind::Switch { is_on: false }, direction: Direction::West }
}

/// The switch of an input.
pub fn input_switch_block() -> (block: Block)
    ensures
        block == plain_switch(),
{
    Block { kind: BlockKind::Switch { is_on: false }, direction: Direction::West }
}

/// Whether a world is another with a switch in a cell.
pub open spec fn is_switched(world: World3D, switch: Position, after: World3D) -> bool {
    &&& after.wf()
    &&& after.size == world.size
    &&& forall|cell: Position| #[trigger]
        after.at(cell) == (if cell == switch {
            plain_switch()
        } else {
            world.at(cell)
        })
}

/// The blocks of a switch and its dust.
pub open spec fn switch_blocks(
    world: World3D,
    built: World3D,
    switch: Position,
    dust: Position,
    support: Position,
) -> Seq<Placed> {
    let start = seq![(switch, plain_switch())];
    let supported = if world.at(support).kind is Air {
        start.push((support, built.at(support)))
    } else {
        start
    };
    supported.push((dust, built.at(dust)))
}

/// What attempts came to, without those that came to nothing.
pub open spec fn built_switches(outcomes: Seq<Option<ExternalInputSource>>) -> Seq<ExternalInputSource>
    decreases outcomes.len(),
{
    if outcomes.len() == 0 {
        Seq::empty()
    } else {
        match outcomes.last() {
            Some(source) => built_switches(outcomes.drop_last()).push(source),
            None => built_switches(outcomes.drop_last()),
        }
    }
}

impl<
    F: Fn(&World3D, Position, Position) -> bool,
    C: Fn(&World3D, Position, Position) -> bool,
    B: Fn(&World3D, Position) -> Vec<PlaceBound>,
    L: Fn(&World3D, &PlaceRequest) -> Option<(World3D, Position)>,
    P: Fn(&World3D, Position, Block, &Vec<Position>) -> Option<World3D>,
    S: Fn(&World3D, Position, Option<bool>, &Vec<Position>) -> Option<Vec<bool>>,
> RouteTools<F, C, B, L, P, S> {
    /// What becomes of a switch once the support of its dust stands.
    pub open spec fn switch_dust_part(
        &self,
        world: World3D,
        ready: World3D,
        switch: Position,
        dust: Position,
        support: Position,
        result: Option<ExternalInputSource>,
    ) -> bool {
        exists|after: Option<World3D>| #[trigger]
            is_put(&self.put, ready, dust, plain_dust(), just(switch), after) && match after {
                None => result is None,
                Some(built) => if !says(&self.rule, built, switch, dust) {
                    result is None
                } else {
                    result matches Some(source) && source.world == built && source.switch == switch
                        && source.route_source == dust && source.blocks@ == switch_blocks(
                        world,
                        built,
                        switch,
                        dust,
                        support,
                    )
                },
            }
    }

    /// What becomes of a switch: it is put into its cell, a support below its
    /// dust, and the dust beside it.
    pub open spec fn switch_part(
        &self,
        world: World3D,
        switch: Position,
        dust: Position,
        support: Position,
        result: Option<ExternalInputSource>,
    ) -> bool {
        exists|start: World3D, after: Option<World3D>| #[trigger]
            is_supported(&self.put, start, support, after) && is_switched(world, switch, start) && match after {
                None => result is None,
                Some(ready) => self.switch_dust_part(world, ready, switch, dust, support, result),
            }
    }

    /// What putting the switch of an input into a cell comes to.
    pub open spec fn is_external_source(
        &self,
        world: World3D,
        switch: Position,
        result: Option<ExternalInputSource>,
    ) -> bool {
        match neighbour(switch, Direction::West) {
            None => result is None,
            Some(dust) => match neighbour(dust, Direction::Bottom) {
                None => result is None,
                Some(support) => {
                    let free = {
                        &&& in_bounds(world.size, switch)
                        &&& in_bounds(world.size, dust)
                        &&& in_bounds(world.size, support)
                        &&& world.at(switch).kind is Air
                        &&& world.at(dust).kind is Air
                    };
                    if free {
                        self.switch_part(world, switch, dust, support, result)
                    } else {
                        result is None
                    }
                },
            },
        }
    }

    /// Puts the switch of an input into a cell, with dust that it powers.
    pub fn build_external_input_source(&self, world: &World3D, switch: Position) -> (result: Option<ExternalInputSource>)
        requires
            self.valid(),
            world.wf(),
        ensures
            self.is_external_source(*world, switch, result),
            result matches Some(source) ==> source.world.wf(),
    {
        let dust = match switch.walk(Direction::West) {
            None => return None,
            Some(dust) => dust,
        };
        let support = match dust.down() {
            None => return None,
            Some(support) => support,
        };
        if !world.size.bound_on(switch) || !world.size.bound_on(dust) || !world.size.bound_on(support)
            || !world.get(switch).kind.is_air() || !world.get(dust).kind.is_air() {
            return None;
        }
        let mut start = world.copy();
        start.set(switch, input_switch_block());
        let ghost begun = start;
        assert(is_switched(*world, switch, begun));
        let after = place_support_cobble_if_needed(&self.put, start, support);
        assert(is_supported(&self.put, begun, support, after));
        let ready = match after {
            None => {
                assert(self.switch_part(*world, switch, dust, support, None));
                return None;
            },
            Some(ready) => ready,
        };
        let result = self.build_switch_dust(world, &ready, switch, dust, support);
        assert(self.switch_dust_part(*world, ready, switch, dust, support, result));
        assert(self.switch_part(*world, switch, dust, support, result));
        result
    }

    fn build_switch_dust(
        &self,
        world: &World3D,
        ready: &World3D,
        switch: Position,
        dust: Position,
        support: Position,
    ) -> (result: Option<ExternalInputSource>)
        requires
            self.valid(),
            world.wf(),
        ensures
            self.switch_dust_part(*world, *ready, switch, dust, support, result),
            result matches Some(source) ==> source.world.wf(),
    {
        let after = put_touching(&self.put, ready, dust, new_redstone(), switch);
        assert(is_put(&self.put, *ready, dust, plain_dust(), just(switch), after));
        let built = match after {
            None => return None,
            Some(built) => built,
        };
        let rule = &self.rule;
        if !rule(&built, switch, dust) {
            return None;
        }
        let mut blocks: Vec<Placed> = Vec::new();
        blocks.push((switch, input_switch_block()));
        if world.get(support).kind.is_air() {
            blocks.push((support, built.get(support)));
        }
        blocks.push((dust, built.get(dust)));
        assert(blocks@ =~= switch_blocks(*world, built, switch, dust, support));
        Some(ExternalInputSource { world: built, switch, route_source: dust, blocks })
    }

    /// Whether outcomes are what putting a switch into the first cells comes to.
    pub open spec fn are_switches_tried(
        &self,
        world: World3D,
        cells: Seq<Position>,
        outcomes: Seq<Option<ExternalInputSource>>,
    ) -> bool {
        &&& outcomes.len() <= cells.len()
        &&& forall|i: int|
            0 <= i < outcomes.len() ==> self.is_external_source(world, cells[i], #[trigger] outcomes[i])
    }

    /// Whether switches are those that can be built for an input, up to a limit.
    pub open spec fn are_external_sources(
        &self,
        world: World3D,
        index: nat,
        sinks: Seq<ResolvedPortTarget>,
        sources: Seq<ExternalInputSource>,
    ) -> bool {
        let cells = switch_cells(world, index, sinks);
        exists|outcomes: Seq<Option<ExternalInputSource>>| #[trigger]
            self.are_switches_tried(world, cells, outcomes) && sources == built_switches(outcomes) && sources.len()
                <= EXTERNAL_SOURCE_LIMIT && (sources.len() == EXTERNAL_SOURCE_LIMIT || outcomes.len() == cells.len())
    }

    /// The switches that can be built for an input.
    pub fn external_input_sources(
        &self,
        world: &World3D,
        index: usize,
        sinks: &Vec<ResolvedPortTarget>,
    ) -> (sources: Vec<ExternalInputSource>)
        requires
            self.valid(),
            world.wf(),
                ensures
            self.are_external_sources(*world, index as nat, sinks@, sources@),
            forall|i: int| 0 <= i < sources@.len() ==> (#[trigger] sources@[i]).world.wf(),
    {
        let cells = choose_switch_cells(world, index, sinks);
        let mut sources: Vec<ExternalInputSource> = Vec::new();
        let ghost mut outcomes = Seq::<Option<ExternalInputSource>>::empty();
        let mut at: usize = 0;
        while at < cells.len() && sources.len() < EXTERNAL_SOURCE_LIMIT
            invariant
                at <= cells.len(),
                self.valid(),
                world.wf(),
                outcomes.len() == at,
                self.are_switches_tried(*world, cells@, outcomes),
                sources@ == built_switches(outcomes),
                sources.len() <= EXTERNAL_SOURCE_LIMIT,
                forall|i: int| 0 <= i < sources@.len() ==> (#[trigger] sources@[i]).world.wf(),
            decreases cells.len() - at,
        {
            let outcome = self.build_external_input_source(world, cells[at]);
            let ghost before = outcomes;
            let ghost had = sources@;
            proof {
                outcomes = outcomes.push(outcome);
                assert(outcomes.drop_last() =~= before);
                assert forall|i: int| 0 <= i < outcomes.len() implies self.is_external_source(
                    *world,
                    cells@[i],
                    #[trigger] outcomes[i],
                ) by {
                    if i < before.len() {
                        assert(outcomes[i] == before[i]);
                    }
                }
            }
            if let Some(source) = outcome {
                sources.push(source);
                assert forall|i: int| 0 <= i < sources@.len() implies (#[trigger] sources@[i]).world.wf() by {
                    if i < had.len() {
                        assert(sources@[i] == had[i]);
                    }
                }
            }
            assert(sources@ =~= built_switches(outcomes));
            at += 1;
        }
        proof {
            assert(cells@ == switch_cells(*world, index as nat, sinks@));
            assert(self.are_switches_tried(*world, cells@, outcomes));
        }
        sources
    }
}

} // verus!

//! Which signals of a world a route may touch, and which not.

use super::goal::{target_of, RouteGoal};
use super::state::{is_signal, is_signal_terminal_kind, PlaceBound};
use super::taps::{are_powered, network_strengths, strength_of};
use crate::transform::place_and_route::electrical::block_index;
use crate::transform::place_and_route::global_pnr::dust::{
    is_linked, is_powered_dust, is_rule, joined_network, powered_dust, says,
};
use crate::number::capped;
use crate::order::{stable_order, stable_order_is_unique, the_stable_order, SortKey};
use crate::world::grid::{lists_cell, Placed, World3D};
use crate::world::position::{
    distance, in_bounds, insert_sorted, is_beside, is_sorted, neighbour, position_before, step_towards, Direction,
    Position,
};
use vstd::prelude::*;

verus! {

/// How near a signal has to be to be touched.
pub const SIGNAL_CONTACT_SEARCH_RADIUS: usize = 3;

// ---------------------------------------------------------------------------
// Own signals
// ---------------------------------------------------------------------------
/// Whether a listed block carries the signal of a source: it is in the network
/// of the source's own dust, or the power of the source gets to it.
pub open spec fn carries_signal<F: Fn(&World3D, Position, Position) -> bool>(
    rule: &F,
    world: World3D,
    source: Position,
    seeds: Seq<usize>,
    index: int,
) -> bool {
    ||| world.at(source).kind is Redstone && exists|own: int|
        0 <= own < world.listed().len() && (#[trigger] world.listed()[own]).0 == source && is_linked(
            rule,
            world,
            seq![own as usize],
            index,
        )
    ||| strength_of(rule, world, seeds, index) > 0
}

/// Whether a cell carries the signal of a source.
pub open spec fn is_own_signal<F: Fn(&World3D, Position, Position) -> bool>(
    rule: &F,
    world: World3D,
    source: Position,
    seeds: Seq<usize>,
    cell: Position,
) -> bool {
    ||| cell == source
    ||| in_bounds(world.size, source) && exists|index: int|
        0 <= index < world.listed().len() && (#[trigger] world.listed()[index]).0 == cell && carries_signal(
            rule,
            world,
            source,
            seeds,
            index,
        )
}

/// Whether cells are those that carry the signal of a source.
pub open spec fn are_own_signals<F: Fn(&World3D, Position, Position) -> bool>(
    rule: &F,
    world: World3D,
    source: Position,
    cells: Seq<Position>,
) -> bool {
    exists|seeds: Seq<usize>| #[trigger]
        are_powered(rule, world, source, seeds) && is_sorted(cells) && forall|cell: Position| #[trigger]
            cells.contains(cell) <==> is_own_signal(rule, world, source, seeds, cell)
}

fn has_index(list: &Vec<usize>, index: usize) -> (found: bool)
    ensures
        found == list@.contains(index),
{
    let mut at: usize = 0;
    while at < list.len()
        invariant
            at <= list.len(),
            forall|k: int| 0 <= k < at ==> #[trigger] list@[k] != index,
        decreases list.len() - at,
    {
        if list[at] == index {
            assert(list@[at as int] == index);
            return true;
        }
        at += 1;
    }
    false
}

/// The cells that carry the signal of a source.
pub fn source_signal_positions<F: Fn(&World3D, Position, Position) -> bool>(
    rule: &F,
    world: &World3D,
    source: Position,
) -> (cells: Vec<Position>)
    requires
        is_rule(rule),
        world.wf(),
    ensures
        are_own_signals(rule, *world, source, cells@),
{
    let ghost w = *world;
    let total: usize = world.blocks.len();
    let seeds = powered_dust(rule, world, source);
    let ghost powered = seeds@;
    proof {
        assert forall|i: int| 0 <= i < w.listed().len() implies (powered.contains(i as usize)
            <==> #[trigger] is_powered_dust(rule, w, source, i)) by {
            assert(i < total);
            if powered.contains(i as usize) {
                let k = choose|k: int| 0 <= k < powered.len() && powered[k] == i as usize;
                assert(is_powered_dust(rule, w, source, powered[k] as int));
            }
        }
        assert(are_powered(rule, w, source, powered));
    }
    let mut cells: Vec<Position> = Vec::new();
    insert_sorted(&mut cells, source);
    if !world.size.bound_on(source) {
        return cells;
    }
    let own = if world.get(source).kind.is_redstone() {
        block_index(world, source)
    } else {
        None
    };
    let mut network: Vec<usize> = Vec::new();
    if let Some(index) = own {
        let start = vec![index];
        assert(start@ =~= seq![index]);
        network = joined_network(rule, world, start);
    }
    let strengths = network_strengths(rule, world, &seeds);
    let mut index: usize = 0;
    while index < total
        invariant
            index <= total,
            w == *world,
            w.wf(),
            in_bounds(w.size, source),
            total == w.listed().len(),
            strengths.len() == total,
            forall|i: int| 0 <= i < total ==> #[trigger] strengths@[i] == strength_of(rule, w, powered, i),
            w.at(source).kind is Redstone ==> own is Some,
            !(w.at(source).kind is Redstone) ==> own is None,
            match own {
                Some(at) => at < total && w.listed()[at as int].0 == source && forall|i: int|
                    0 <= i < total ==> (network@.contains(i as usize) <==> #[trigger] is_linked(rule, w, seq![at], i)),
                None => network@.len() == 0,
            },
            is_sorted(cells@),
            forall|cell: Position| #[trigger]
                cells@.contains(cell) <==> cell == source || exists|i: int|
                    0 <= i < index && (#[trigger] w.listed()[i]).0 == cell && carries_signal(rule, w, source, powered, i),
        decreases total - index,
    {
        let ghost before = cells@;
        let carried = strengths[index] > 0 || has_index(&network, index);
        proof {
            assert(strengths@[index as int] == strength_of(rule, w, powered, index as int));
            if own is Some {
                let at = own->0;
                assert(network@.contains(index) <==> is_linked(rule, w, seq![at], index as int));
                if w.at(source).kind is Redstone && exists|k: int|
                    0 <= k < w.listed().len() && (#[trigger] w.listed()[k]).0 == source && is_linked(
                        rule,
                        w,
                        seq![k as usize],
                        index as int,
                    ) {
                    let k = choose|k: int|
                        0 <= k < w.listed().len() && (#[trigger] w.listed()[k]).0 == source && is_linked(
                            rule,
                            w,
                            seq![k as usize],
                            index as int,
                        );
                    if k < at {
                        assert(position_before(w.listed()[k].0, w.listed()[at as int].0));
                    } else if k > at {
                        assert(position_before(w.listed()[at as int].0, w.listed()[k].0));
                    }
                    assert(k as usize == at);
                }
                if is_linked(rule, w, seq![at], index as int) {
                    assert(w.listed()[at as int].0 == source && at as int as usize == at);
                }
            }
            assert(carried == carries_signal(rule, w, source, powered, index as int));
        }
        if carried {
            insert_sorted(&mut cells, world.blocks[index].0);
        }
        proof {
            assert forall|cell: Position| #[trigger] cells@.contains(cell) <==> cell == source || exists|i: int|
                0 <= i < index + 1 && (#[trigger] w.listed()[i]).0 == cell && carries_signal(
                    rule,
                    w,
                    source,
                    powered,
                    i,
                ) by {
                if before.contains(cell) && cell != source {
                    let i = choose|i: int|
                        0 <= i < index && (#[trigger] w.listed()[i]).0 == cell && carries_signal(
                            rule,
                            w,
                            source,
                            powered,
                            i,
                        );
                    assert(w.listed()[i].0 == cell);
                }
                if carried && cell == w.listed()[index as int].0 {
                    assert(w.listed()[index as int].0 == cell);
                }
                if exists|i: int|
                    0 <= i < index + 1 && (#[trigger] w.listed()[i]).0 == cell && carries_signal(
                        rule,
                        w,
                        source,
                        powered,
                        i,
                    ) {
                    let i = choose|i: int|
                        0 <= i < index + 1 && (#[trigger] w.listed()[i]).0 == cell && carries_signal(
                            rule,
                            w,
                            source,
                            powered,
                            i,
                        );
                    if i < index {
                        assert(w.listed()[i].0 == cell);
                    }
                }
            }
        }
        index += 1;
    }
    proof {
        assert forall|cell: Position| #[trigger] cells@.contains(cell) <==> is_own_signal(
            rule,
            w,
            source,
            powered,
            cell,
        ) by {}
    }
    cells
}

// ---------------------------------------------------------------------------
// Foreign signals
// ---------------------------------------------------------------------------
/// Whether a cell belongs to a goal: its target, the cells beside it and the one
/// above.
pub open spec fn is_goal_contact(world: World3D, goal: RouteGoal, cell: Position) -> bool {
    let target = target_of(goal);
    ||| cell == target
    ||| in_bounds(world.size, cell) && (is_beside(target, cell) || neighbour(target, Direction::Top) == Some(cell))
}

fn touches_goal(world: &World3D, goal: RouteGoal, cell: Position) -> (contact: bool)
    ensures
        contact == is_goal_contact(*world, goal, cell),
{
    let target = goal.placement_target();
    if cell == target {
        return true;
    }
    if !world.size.bound_on(cell) {
        return false;
    }
    let level = cell.2 == target.2 && (cell.0 == target.0 && (cell.1 > target.1 && cell.1 - target.1 == 1 || target.1
        > cell.1 && target.1 - cell.1 == 1) || cell.1 == target.1 && (cell.0 > target.0 && cell.0 - target.0 == 1
        || target.0 > cell.0 && target.0 - cell.0 == 1));
    level || cell.0 == target.0 && cell.1 == target.1 && cell.2 > target.2 && cell.2 - target.2 == 1
}

/// Whether a signal of a world is foreign to a route.
pub open spec fn is_foreign(
    world: World3D,
    source: Position,
    goal: RouteGoal,
    allowed: Seq<Position>,
    own: Seq<Position>,
    cell: Position,
) -> bool {
    &&& cell != source
    &&& !allowed.contains(cell)
    &&& !own.contains(cell)
    &&& !is_goal_contact(world, goal, cell)
    &&& is_signal(world.at(cell).kind)
}

/// Whether cells are the signals of a world that are foreign to a route.
pub open spec fn are_foreign<F: Fn(&World3D, Position, Position) -> bool>(
    rule: &F,
    world: World3D,
    source: Position,
    goal: RouteGoal,
    allowed: Seq<Position>,
    cells: Seq<Position>,
) -> bool {
    exists|own: Seq<Position>| #[trigger]
        are_own_signals(rule, world, source, own) && is_sorted(cells) && forall|cell: Position| #[trigger]
            cells.contains(cell) <==> is_foreign(world, source, goal, allowed, own, cell)
}

/// Whether a list holds a cell.
pub fn has_cell(cells: &Vec<Position>, cell: Position) -> (found: bool)
    ensures
        found == cells@.contains(cell),
{
    let mut index: usize = 0;
    while index < cells.len()
        invariant
            index <= cells.len(),
            forall|k: int| 0 <= k < index ==> #[trigger] cells@[k] != cell,
        decreases cells.len() - index,
    {
        if cells[index] == cell {
            assert(cells@[index as int] == cell);
            return true;
        }
        index += 1;
    }
    false
}

/// The signals of a world that are foreign to a route.
pub fn route_forbidden_signal_contact_positions<F: Fn(&World3D, Position, Position) -> bool>(
    rule: &F,
    world: &World3D,
    source: Position,
    goal: RouteGoal,
    allowed: &Vec<Position>,
) -> (cells: Vec<Position>)
    requires
        is_rule(rule),
        world.wf(),
    ensures
        are_foreign(rule, *world, source, goal, allowed@, cells@),
{
    let ghost w = *world;
    let own = source_signal_positions(rule, world, source);
    let mut cells: Vec<Position> = Vec::new();
    let mut index: usize = 0;
    while index < world.blocks.len()
        invariant
            index <= world.blocks.len(),
            w == *world,
            w.wf(),
            is_sorted(cells@),
            forall|k: int|
                0 <= k < cells.len() ==> exists|i: int|
                    0 <= i < index && (#[trigger] w.listed()[i]).0 == #[trigger] cells@[k],
            forall|cell: Position| #[trigger]
                cells@.contains(cell) <==> is_foreign(w, source, goal, allowed@, own@, cell) && exists|i: int|
                    0 <= i < index && (#[trigger] w.listed()[i]).0 == cell,
        decreases world.blocks.len() - index,
    {
        let cell = world.blocks[index].0;
        let kind = world.blocks[index].1.kind;
        let ghost before = cells@;
        proof {
            w.listed_at(index as int);
        }
        let foreign = is_signal_terminal_kind(&kind) && cell != source && !has_cell(allowed, cell) && !has_cell(
            &own,
            cell,
        ) && !touches_goal(world, goal, cell);
        if foreign {
            cells.push(cell);
        }
        proof {
            assert(foreign == is_foreign(w, source, goal, allowed@, own@, cell));
            if foreign {
                assert(cells@[before.len() as int] == cell);
                assert forall|a: int, b: int| 0 <= a < b < cells.len() implies position_before(
                    #[trigger] cells@[a],
                    #[trigger] cells@[b],
                ) by {
                    if b < before.len() {
                        assert(position_before(before[a], before[b]));
                    } else {
                        assert(cells@[a] == before[a]);
                        let i = choose|i: int| 0 <= i < index && (#[trigger] w.listed()[i]).0 == before[a];
                        assert(position_before(w.listed()[i].0, w.listed()[index as int].0));
                    }
                }
            }
            assert forall|k: int| 0 <= k < cells.len() implies exists|i: int|
                0 <= i < index + 1 && (#[trigger] w.listed()[i]).0 == #[trigger] cells@[k] by {
                if k < before.len() {
                    assert(cells@[k] == before[k]);
                    let i = choose|i: int| 0 <= i < index && (#[trigger] w.listed()[i]).0 == before[k];
                    assert(w.listed()[i].0 == cells@[k]);
                } else {
                    assert(w.listed()[index as int].0 == cells@[k]);
                }
            }
            assert forall|other: Position| #[trigger] cells@.contains(other) <==> is_foreign(
                w,
                source,
                goal,
                allowed@,
                own@,
                other,
            ) && exists|i: int| 0 <= i < index + 1 && (#[trigger] w.listed()[i]).0 == other by {
                if before.contains(other) {
                    let k = choose|k: int| 0 <= k < before.len() && before[k] == other;
                    assert(cells@[k] == other);
                    let i = choose|i: int| 0 <= i < index && (#[trigger] w.listed()[i]).0 == other;
                    assert(w.listed()[i].0 == other);
                }
                if other == cell {
                    assert(w.listed()[index as int].0 == other);
                }
                if exists|i: int| 0 <= i < index + 1 && (#[trigger] w.listed()[i]).0 == other {
                    let i = choose|i: int| 0 <= i < index + 1 && (#[trigger] w.listed()[i]).0 == other;
                    if i < index {
                        assert(w.listed()[i].0 == other);
                    }
                }
            }
        }
        index += 1;
    }
    proof {
        assert forall|cell: Position| #[trigger] cells@.contains(cell) <==> is_foreign(
            w,
            source,
            goal,
            allowed@,
            own@,
            cell,
        ) by {
            if is_foreign(w, source, goal, allowed@, own@, cell) {
                assert(lists_cell(w.listed(), cell));
                let i = choose|i: int| 0 <= i < w.listed().len() && (#[trigger] w.listed()[i]).0 == cell;
                assert(w.listed()[i].0 == cell);
            }
        }
        assert(are_own_signals(rule, w, source, own@));
    }
    cells
}

/// Whether a new block of a route touches a foreign signal: one that is near
/// powers the block, or is powered by it.
pub open spec fn touches_foreign<F: Fn(&World3D, Position, Position) -> bool>(
    rule: &F,
    world: World3D,
    cell: Position,
    foreign: Seq<Position>,
) -> bool {
    exists|k: int|
        0 <= k < foreign.len() && distance(cell, #[trigger] foreign[k]) <= SIGNAL_CONTACT_SEARCH_RADIUS && (says(
            rule,
            world,
            cell,
            foreign[k],
        ) || says(rule, world, foreign[k], cell))
}

/// Whether a new block of a route touches a foreign signal.
pub fn route_touches_forbidden_existing_signal<F: Fn(&World3D, Position, Position) -> bool>(
    rule: &F,
    world: &World3D,
    cell: Position,
    foreign: &Vec<Position>,
) -> (touches: bool)
    requires
        is_rule(rule),
    ensures
        touches == touches_foreign(rule, *world, cell, foreign@),
{
    let mut index: usize = 0;
    while index < foreign.len()
        invariant
            index <= foreign.len(),
            is_rule(rule),
            forall|k: int|
                0 <= k < index ==> !(distance(cell, #[trigger] foreign@[k]) <= SIGNAL_CONTACT_SEARCH_RADIUS && (says(
                    rule,
                    *world,
                    cell,
                    foreign@[k],
                ) || says(rule, *world, foreign@[k], cell))),
        decreases foreign.len() - index,
    {
        let other = foreign[index];
        if cell.capped_distance(&other) <= SIGNAL_CONTACT_SEARCH_RADIUS {
            let forth = rule(world, cell, other);
            let touches = forth || rule(world, other, cell);
            if touches {
                assert(distance(cell, foreign@[index as int]) <= SIGNAL_CONTACT_SEARCH_RADIUS);
                return true;
            }
        }
        index += 1;
    }
    false
}

/// The cells of two lists, in order and each once.
pub fn adapter_allowed_contacts(additional: &Vec<Position>, local: &Vec<Position>) -> (cells: Vec<Position>)
    ensures
        is_sorted(cells@),
        forall|cell: Position| #[trigger] cells@.contains(cell) <==> additional@.contains(cell) || local@.contains(cell),
{
    let mut cells: Vec<Position> = Vec::new();
    extend_sorted(&mut cells, additional);
    extend_sorted(&mut cells, local);
    cells
}

/// Adds the cells of a list to a sorted one.
pub fn extend_sorted(cells: &mut Vec<Position>, more: &Vec<Position>)
    requires
        is_sorted(old(cells)@),
    ensures
        is_sorted(final(cells)@),
        forall|cell: Position| #[trigger]
            final(cells)@.contains(cell) <==> old(cells)@.contains(cell) || more@.contains(cell),
{
    let ghost start = cells@;
    let mut index: usize = 0;
    while index < more.len()
        invariant
            index <= more.len(),
            start == old(cells)@,
            is_sorted(cells@),
            forall|cell: Position| #[trigger]
                cells@.contains(cell) <==> start.contains(cell) || exists|k: int|
                    0 <= k < index && #[trigger] more@[k] == cell,
        decreases more.len() - index,
    {
        let ghost before = cells@;
        insert_sorted(cells, more[index]);
        proof {
            assert forall|cell: Position| #[trigger] cells@.contains(cell) <==> start.contains(cell) || exists|k: int|
                0 <= k < index + 1 && #[trigger] more@[k] == cell by {
                if before.contains(cell) && !start.contains(cell) {
                    let k = choose|k: int| 0 <= k < index && #[trigger] more@[k] == cell;
                    assert(more@[k] == cell);
                }
                if cell == more@[index as int] {
                    assert(more@[index as int] == cell);
                }
            }
        }
        index += 1;
    }
    proof {
        assert forall|cell: Position| #[trigger] cells@.contains(cell) <==> start.contains(cell) || more@.contains(
            cell,
        ) by {
            if more@.contains(cell) {
                let k = choose|k: int| 0 <= k < more@.len() && more@[k] == cell;
                assert(more@[k] == cell);
            }
        }
    }
}

/// Whether a new block touches a signal of a world that it may not touch.
pub open spec fn touches_other_signal<F: Fn(&World3D, Position, Position) -> bool>(
    rule: &F,
    before: World3D,
    after: World3D,
    cell: Position,
    allowed: Seq<Position>,
) -> bool {
    exists|i: int|
        0 <= i < before.listed().len() && is_signal((#[trigger] before.listed()[i]).1.kind) && !allowed.contains(
            before.listed()[i].0,
        ) && (says(rule, after, cell, before.listed()[i].0) || says(rule, after, before.listed()[i].0, cell))
}

/// Whether a new block touches a signal of a world that it may not touch.
pub fn adapter_touches_forbidden_existing_signal<F: Fn(&World3D, Position, Position) -> bool>(
    rule: &F,
    before: &World3D,
    after: &World3D,
    cell: Position,
    allowed: &Vec<Position>,
) -> (touches: bool)
    requires
        is_rule(rule),
    ensures
        touches == touches_other_signal(rule, *before, *after, cell, allowed@),
{
    let mut index: usize = 0;
    while index < before.blocks.len()
        invariant
            index <= before.blocks.len(),
            is_rule(rule),
            forall|i: int|
                0 <= i < index ==> !(is_signal((#[trigger] before.listed()[i]).1.kind) && !allowed@.contains(
                    before.listed()[i].0,
                ) && (says(rule, *after, cell, before.listed()[i].0) || says(
                    rule,
                    *after,
                    before.listed()[i].0,
                    cell,
                ))),
        decreases before.blocks.len() - index,
    {
        let other = before.blocks[index].0;
        if !has_cell(allowed, other) && is_signal_terminal_kind(&before.blocks[index].1.kind) {
            let forth = rule(after, cell, other);
            let touches = forth || rule(after, other, cell);
            if touches {
                assert(is_signal(before.listed()[index as int].1.kind));
                return true;
            }
        }
        index += 1;
    }
    false
}

// ---------------------------------------------------------------------------
// Blocks and bounds
// ---------------------------------------------------------------------------
/// Those of the first `count` blocks of a world that another does not have.
pub open spec fn added_blocks(before: World3D, after: World3D, count: nat) -> Seq<Placed>
    decreases count,
{
    if count == 0 {
        Seq::empty()
    } else {
        let rest = added_blocks(before, after, (count - 1) as nat);
        let placed = after.listed()[count - 1];
        if before.at(placed.0) != placed.1 {
            rest.push(placed)
        } else {
            rest
        }
    }
}

/// The blocks of a world that another does not have.
pub fn added_route_blocks(before: &World3D, after: &World3D) -> (blocks: Vec<Placed>)
    requires
        before.wf(),
    ensures
        blocks@ == added_blocks(*before, *after, after.listed().len()),
{
    let mut blocks: Vec<Placed> = Vec::new();
    assert(blocks@ =~= added_blocks(*before, *after, 0));
    let mut index: usize = 0;
    while index < after.blocks.len()
        invariant
            index <= after.blocks.len(),
            before.wf(),
            blocks@ == added_blocks(*before, *after, index as nat),
        decreases after.blocks.len() - index,
    {
        let placed = after.blocks[index];
        if before.get(placed.0) != placed.1 {
            blocks.push((placed.0, placed.1));
        }
        index += 1;
    }
    blocks
}

/// By what the cells into which a route may be extended are ordered: the nearest
/// to the sink first.
pub open spec fn bound_keys(bounds: Seq<PlaceBound>, sink: Position) -> Seq<(usize, Position)> {
    bounds.map_values(|bound: PlaceBound| (capped(distance(bound.position, sink)) as usize, bound.position))
}

/// Bounds in order of their distance from the sink.
pub open spec fn nearest_first(bounds: Seq<PlaceBound>, sink: Position) -> Seq<PlaceBound> {
    let order = the_stable_order(bound_keys(bounds, sink));
    Seq::new(bounds.len(), |i: int| bounds[order[i] as int])
}

/// Bounds in order of their distance from the sink.
pub fn sort_bounds(bounds: &Vec<PlaceBound>, sink: Position) -> (sorted: Vec<PlaceBound>)
    ensures
        sorted@ == nearest_first(bounds@, sink),
{
    let mut keys: Vec<(usize, Position)> = Vec::new();
    let mut index: usize = 0;
    while index < bounds.len()
        invariant
            index <= bounds.len(),
            keys.len() == index,
            forall|i: int| 0 <= i < index ==> #[trigger] keys@[i] == bound_keys(bounds@, sink)[i],
        decreases bounds.len() - index,
    {
        keys.push((bounds[index].position.capped_distance(&sink), bounds[index].position));
        index += 1;
    }
    assert(keys@ =~= bound_keys(bounds@, sink));
    let order = stable_order(&keys);
    proof {
        stable_order_is_unique(keys@, order@);
    }
    let mut sorted: Vec<PlaceBound> = Vec::new();
    let mut index: usize = 0;
    while index < order.len()
        invariant
            index <= order.len(),
            order.len() == bounds.len(),
            order@ == the_stable_order(bound_keys(bounds@, sink)),
            forall|i: int| 0 <= i < order.len() ==> #[trigger] order@[i] < bounds.len(),
            sorted.len() == index,
            forall|i: int| 0 <= i < index ==> #[trigger] sorted@[i] == bounds@[order@[i] as int],
        decreases order.len() - index,
    {
        let at: usize = order[index];
        assert(order@[index as int] < bounds.len());
        sorted.push(bounds[at]);
        index += 1;
    }
    assert(sorted@ =~= nearest_first(bounds@, sink));
    sorted
}

/// Whether a cell is one step away along x or y, on the same level or one above
/// or below.
pub open spec fn is_nearby(position: Position, cell: Position) -> bool {
    &&& is_beside(Position(position.0, position.1, 0), Position(cell.0, cell.1, 0))
    &&& cell.2 == position.2 || cell.2 == position.2 + 1 || cell.2 + 1 == position.2
}

/// Whether bounds are the cells near another that lie in the world.
pub open spec fn are_nearby(world: World3D, position: Position, bounds: Seq<PlaceBound>) -> bool {
    &&& forall|i: int|
        0 <= i < bounds.len() ==> {
            let bound = #[trigger] bounds[i];
            &&& bound.kind == 0
            &&& is_nearby(position, bound.position)
            &&& in_bounds(world.size, bound.position)
            &&& bound.direction == step_towards(bound.position, position)
        }
    &&& forall|cell: Position|
        is_nearby(position, cell) && in_bounds(world.size, cell) ==> #[trigger] bounds_cell(bounds, cell)
    &&& forall|i: int, j: int| 0 <= i < j < bounds.len() ==> bounds[i].position != bounds[j].position
}

/// Whether a bound is about a cell.
pub open spec fn bounds_cell(bounds: Seq<PlaceBound>, cell: Position) -> bool {
    exists|i: int| 0 <= i < bounds.len() && (#[trigger] bounds[i]).position == cell
}

/// Whether a cell stands in a column.
spec fn stands_in(column: Position, cell: Position) -> bool {
    column.0 == cell.0 && column.1 == cell.1
}

spec fn is_nearby_bound(world: World3D, position: Position, bound: PlaceBound) -> bool {
    &&& bound.kind == 0
    &&& is_nearby(position, bound.position)
    &&& in_bounds(world.size, bound.position)
    &&& bound.direction == step_towards(bound.position, position)
}

/// The cells of a column near another cell that lie in the world.
fn column_bounds(world: &World3D, position: Position, column: Position) -> (bounds: Vec<PlaceBound>)
    requires
        is_beside(Position(position.0, position.1, 0), column),
        column.2 == 0,
    ensures
        forall|i: int|
            0 <= i < bounds.len() ==> is_nearby_bound(*world, position, #[trigger] bounds@[i]) && stands_in(
                column,
                bounds@[i].position,
            ),
        forall|cell: Position|
            is_nearby(position, cell) && in_bounds(world.size, cell) && stands_in(column, cell) ==> #[trigger] bounds_cell(
                bounds@,
                cell,
            ),
        forall|i: int, j: int| 0 <= i < j < bounds.len() ==> bounds@[i].position != bounds@[j].position,
{
    let mut bounds: Vec<PlaceBound> = Vec::new();
    let ghost mut level: int = -1;
    let ghost mut above: int = -1;
    let ghost mut below: int = -1;
    let first = Position(column.0, column.1, position.2);
    if world.size.bound_on(first) {
        proof {
            level = bounds@.len() as int;
        }
        bounds.push(PlaceBound { kind: 0, position: first, direction: first.diff(position) });
    }
    if position.2 < usize::MAX {
        let second = Position(column.0, column.1, position.2 + 1);
        if world.size.bound_on(second) {
            proof {
                above = bounds@.len() as int;
            }
            bounds.push(PlaceBound { kind: 0, position: second, direction: second.diff(position) });
        }
    }
    if position.2 > 0 {
        let third = Position(column.0, column.1, position.2 - 1);
        if world.size.bound_on(third) {
            proof {
                below = bounds@.len() as int;
            }
            bounds.push(PlaceBound { kind: 0, position: third, direction: third.diff(position) });
        }
    }
    proof {
        assert forall|cell: Position|
            is_nearby(position, cell) && in_bounds(world.size, cell) && stands_in(column, cell) implies #[trigger] bounds_cell(
            bounds@,
            cell,
        ) by {
            if cell.2 == position.2 {
                assert(bounds@[level].position == cell);
            } else if cell.2 > position.2 {
                assert(bounds@[above].position == cell);
            } else {
                assert(bounds@[below].position == cell);
            }
        }
    }
    bounds
}

/// The cells near another that lie in the world.
pub fn nearby_route_bounds(world: &World3D, position: Position) -> (bounds: Vec<PlaceBound>)
    ensures
        are_nearby(*world, position, bounds@),
{
    let mut bounds: Vec<PlaceBound> = Vec::new();
    let level = Position(position.0, position.1, 0);
    let beside = level.cardinal();
    let mut index: usize = 0;
    while index < beside.len()
        invariant
            index <= beside.len(),
            level == Position(position.0, position.1, 0),
            forall|i: int| 0 <= i < beside.len() ==> is_beside(level, #[trigger] beside@[i]),
            forall|i: int, j: int| 0 <= i < j < beside.len() ==> beside@[i] != beside@[j],
            forall|i: int|
                0 <= i < bounds.len() ==> is_nearby_bound(*world, position, #[trigger] bounds@[i]) && column_before(
                    beside@,
                    index as int,
                    bounds@[i].position,
                ),
            forall|cell: Position|
                is_nearby(position, cell) && in_bounds(world.size, cell) && column_before(beside@, index as int, cell)
                    ==> #[trigger] bounds_cell(bounds@, cell),
            forall|i: int, j: int| 0 <= i < j < bounds.len() ==> bounds@[i].position != bounds@[j].position,
        decreases beside.len() - index,
    {
        let column = beside[index];
        let ghost start = bounds@;
        assert(is_beside(level, beside@[index as int]));
        let mut more = column_bounds(world, position, column);
        let ghost added = more@;
        bounds.append(&mut more);
        proof {
            assert(bounds@ == start + added);
            nearby_grows(*world, position, beside@, index as int, start, added);
        }
        index += 1;
    }
    proof {
        assert forall|cell: Position| is_nearby(position, cell) && in_bounds(world.size, cell) implies #[trigger] bounds_cell(
            bounds@,
            cell,
        ) by {
            let column = Position(cell.0, cell.1, 0);
            assert(is_beside(level, column));
            assert(beside@.contains(column));
            let k = choose|k: int| 0 <= k < beside.len() && beside@[k] == column;
            assert(beside@[k].0 == cell.0 && beside@[k].1 == cell.1);
            assert(column_before(beside@, index as int, cell));
        }
        assert forall|i: int| 0 <= i < bounds.len() implies is_nearby_bound(*world, position, #[trigger] bounds@[i]) by {}
    }
    bounds
}

proof fn nearby_grows(
    world: World3D,
    position: Position,
    columns: Seq<Position>,
    index: int,
    start: Seq<PlaceBound>,
    added: Seq<PlaceBound>,
)
    requires
        0 <= index < columns.len(),
        forall|i: int| 0 <= i < columns.len() ==> (#[trigger] columns[i]).2 == 0,
        forall|i: int, j: int| 0 <= i < j < columns.len() ==> columns[i] != columns[j],
        forall|i: int|
            0 <= i < start.len() ==> is_nearby_bound(world, position, #[trigger] start[i]) && column_before(
                columns,
                index,
                start[i].position,
            ),
        forall|cell: Position|
            is_nearby(position, cell) && in_bounds(world.size, cell) && column_before(columns, index, cell)
                ==> #[trigger] bounds_cell(start, cell),
        forall|i: int, j: int| 0 <= i < j < start.len() ==> start[i].position != start[j].position,
        forall|i: int|
            0 <= i < added.len() ==> is_nearby_bound(world, position, #[trigger] added[i]) && stands_in(
                columns[index],
                added[i].position,
            ),
        forall|cell: Position|
            is_nearby(position, cell) && in_bounds(world.size, cell) && stands_in(columns[index], cell)
                ==> #[trigger] bounds_cell(added, cell),
        forall|i: int, j: int| 0 <= i < j < added.len() ==> added[i].position != added[j].position,
    ensures
        ({
            let bounds = start + added;
            &&& forall|i: int|
                0 <= i < bounds.len() ==> is_nearby_bound(world, position, #[trigger] bounds[i]) && column_before(
                    columns,
                    index + 1,
                    bounds[i].position,
                )
            &&& forall|cell: Position|
                is_nearby(position, cell) && in_bounds(world.size, cell) && column_before(columns, index + 1, cell)
                    ==> #[trigger] bounds_cell(bounds, cell)
            &&& forall|i: int, j: int| 0 <= i < j < bounds.len() ==> bounds[i].position != bounds[j].position
        }),
{
    let bounds = start + added;
    assert forall|i: int| 0 <= i < bounds.len() implies is_nearby_bound(world, position, #[trigger] bounds[i])
        && column_before(columns, index + 1, bounds[i].position) by {
        if i < start.len() {
            assert(bounds[i] == start[i]);
            let k = choose|k: int|
                0 <= k < index && (#[trigger] columns[k]).0 == start[i].position.0 && columns[k].1 == start[i].position.1;
            assert(columns[k].0 == bounds[i].position.0);
        } else {
            assert(bounds[i] == added[i - start.len()]);
            assert(columns[index].0 == bounds[i].position.0);
        }
    }
    assert forall|cell: Position|
        is_nearby(position, cell) && in_bounds(world.size, cell) && column_before(columns, index + 1, cell) implies #[trigger] bounds_cell(
        bounds,
        cell,
    ) by {
        let k = choose|k: int| 0 <= k < index + 1 && (#[trigger] columns[k]).0 == cell.0 && columns[k].1 == cell.1;
        if k < index {
            assert(column_before(columns, index, cell));
            assert(bounds_cell(start, cell));
            let i = choose|i: int| 0 <= i < start.len() && (#[trigger] start[i]).position == cell;
            assert(bounds[i] == start[i]);
        } else {
            assert(bounds_cell(added, cell));
            let i = choose|i: int| 0 <= i < added.len() && (#[trigger] added[i]).position == cell;
            assert(bounds[start.len() + i] == added[i]);
        }
    }
    assert forall|i: int, j: int| 0 <= i < j < bounds.len() implies bounds[i].position != bounds[j].position by {
        if j < start.len() {
            assert(bounds[i] == start[i] && bounds[j] == start[j]);
        } else if i >= start.len() {
            assert(bounds[i] == added[i - start.len()] && bounds[j] == added[j - start.len()]);
        } else {
            assert(bounds[i] == start[i] && bounds[j] == added[j - start.len()]);
            let k = choose|k: int|
                0 <= k < index && (#[trigger] columns[k]).0 == start[i].position.0 && columns[k].1 == start[i].position.1;
            assert(columns[k] != columns[index]);
            assert(stands_in(columns[index], added[j - start.len()].position));
            assert(columns[k].2 == 0 && columns[index].2 == 0);
        }
    }
}

/// Whether a cell stands in one of the first columns of a list.
spec fn column_before(columns: Seq<Position>, count: int, cell: Position) -> bool {
    exists|k: int| 0 <= k < count && (#[trigger] columns[k]).0 == cell.0 && columns[k].1 == cell.1
}

} // verus!

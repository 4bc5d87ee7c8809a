//! Turning placed modules into layouts that can be routed to: the switches that
//! stood for inputs go, and ports take their place.

use super::dust::{
    consumers, distances_fit, downstream_consumer_count, is_chain, is_in_network, is_powered_dust, is_rule,
    joins_along, powered_dust, powers_any_dust, powers_dust, redstone_network,
};
use crate::order::{comes_before, insert_ascending, is_ascending, SortKey};
use crate::transform::place_and_route::placement_ir::escapes_before;
use crate::world::block::{air, Block, BlockKind};
use crate::world::grid::{lists_cell, World3D};
use crate::world::position::{distance, in_bounds, neighbour, Direction, Position};
use vstd::prelude::*;

verus! {

// ---------------------------------------------------------------------------
// Cells
// ---------------------------------------------------------------------------
/// Dust without power.
pub open spec fn plain_dust() -> Block {
    Block { kind: BlockKind::Redstone { on_count: 0, state: 0, strength: 0 }, direction: Direction::Unset }
}

/// A support block without power.
pub open spec fn plain_cobble() -> Block {
    Block { kind: BlockKind::Cobble { on_count: 0, on_base_count: 0 }, direction: Direction::Unset }
}

/// Dust without power.
pub fn new_redstone() -> (block: Block)
    ensures
        block == plain_dust(),
{
    Block { kind: BlockKind::Redstone { on_count: 0, state: 0, strength: 0 }, direction: Direction::Unset }
}

/// A support block without power.
pub fn new_cobble() -> (block: Block)
    ensures
        block == plain_cobble(),
{
    Block { kind: BlockKind::Cobble { on_count: 0, on_base_count: 0 }, direction: Direction::Unset }
}

/// Whether a world differs from another in the cells of a map alone, which hold
/// what the map says.
pub open spec fn is_changed(before: World3D, after: World3D, changes: Map<Position, Block>) -> bool {
    &&& after.wf()
    &&& after.size == before.size
    &&& forall|cell: Position| #[trigger]
        after.at(cell) == (if changes.contains_key(cell) {
            changes[cell]
        } else {
            before.at(cell)
        })
}

// ---------------------------------------------------------------------------
// Outputs
// ---------------------------------------------------------------------------
/// Whether a route cannot start at the block of a cell itself.
pub open spec fn needs_tap(world: World3D, cell: Position) -> bool {
    let kind = world.at(cell).kind;
    in_bounds(world.size, cell) && (kind is Torch || kind is Switch || kind is Repeater)
}

/// Whether cells are those at which a route may take up an output: the dust
/// that it powers, the nearest first, or else the output itself.
pub open spec fn are_taps<F: Fn(&World3D, Position, Position) -> bool>(
    rule: &F,
    world: World3D,
    output: Position,
    cells: Seq<Position>,
) -> bool {
    if needs_tap(world, output) && exists|i: int| is_powered_dust(rule, world, output, i) {
        &&& forall|cell: Position| #[trigger] cells.contains(cell) <==> powers_dust(rule, world, output, cell)
        &&& forall|i: int, j: int|
            0 <= i < j < cells.len() ==> escapes_before(output, #[trigger] cells[i], #[trigger] cells[j])
    } else {
        cells == seq![output]
    }
}

proof fn listed_distance_fits(world: World3D, cell: Position, index: int)
    requires
        world.wf(),
        distances_fit(world),
        in_bounds(world.size, cell),
        0 <= index < world.listed().len(),
    ensures
        distance(cell, world.listed()[index].0) <= usize::MAX,
        distance(world.listed()[index].0, cell) == distance(cell, world.listed()[index].0),
{
    assert(in_bounds(world.size, world.listed()[index].0));
}

/// The cells at which a route may take up an output.
pub fn expose_routeable_output_ports<F: Fn(&World3D, Position, Position) -> bool>(
    rule: &F,
    world: &World3D,
    output: Position,
) -> (cells: Vec<Position>)
    requires
        is_rule(rule),
        world.wf(),
        distances_fit(*world),
    ensures
        are_taps(rule, *world, output, cells@),
        cells.len() > 0,
{
    let total: usize = world.blocks.len();
    let single = vec![output];
    assert(single@ =~= seq![output]);
    if !world.size.bound_on(output) {
        return single;
    }
    let kind = world.get(output).kind;
    if !kind.is_torch() && !kind.is_switch() && !kind.is_repeater() {
        return single;
    }
    let found = powered_dust(rule, world, output);
    if found.len() == 0 {
        proof {
            assert forall|i: int| !is_powered_dust(rule, *world, output, i) by {
                if is_powered_dust(rule, *world, output, i) {
                    assert(found@.contains(i as usize));
                }
            }
        }
        return single;
    }
    assert(is_powered_dust(rule, *world, output, found@[0] as int));
    let mut keyed: Vec<(usize, Position)> = Vec::new();
    let mut index: usize = 0;
    while index < found.len()
        invariant
            index <= found.len(),
            world.wf(),
            distances_fit(*world),
            in_bounds(world.size, output),
            forall|k: int| 0 <= k < found.len() ==> is_powered_dust(rule, *world, output, #[trigger] found@[k] as int),
            is_ascending(keyed@),
            forall|item: (usize, Position)| #[trigger]
                keyed@.contains(item) <==> item.0 == distance(output, item.1) && exists|k: int|
                    0 <= k < index && world.listed()[(#[trigger] found@[k]) as int].0 == item.1,
        decreases found.len() - index,
    {
        let slot: usize = found[index];
        assert(is_powered_dust(rule, *world, output, found@[index as int] as int));
        let cell = world.blocks[slot].0;
        proof {
            listed_distance_fits(*world, output, slot as int);
        }
        let steps: usize = output.manhattan_distance(&cell);
        let ghost before = keyed@;
        insert_ascending(&mut keyed, (steps, cell));
        proof {
            assert forall|item: (usize, Position)| #[trigger] keyed@.contains(item) <==> item.0 == distance(
                output,
                item.1,
            ) && exists|k: int| 0 <= k < index + 1 && world.listed()[(#[trigger] found@[k]) as int].0 == item.1 by {
                if before.contains(item) {
                    let k = choose|k: int| 0 <= k < index && world.listed()[(#[trigger] found@[k]) as int].0 == item.1;
                    assert(world.listed()[found@[k] as int].0 == item.1);
                }
                if item == (steps, cell) {
                    assert(world.listed()[found@[index as int] as int].0 == cell);
                }
                if item.0 == distance(output, item.1) && exists|k: int|
                    0 <= k < index + 1 && world.listed()[(#[trigger] found@[k]) as int].0 == item.1 {
                    let k = choose|k: int|
                        0 <= k < index + 1 && world.listed()[(#[trigger] found@[k]) as int].0 == item.1;
                    if k < index {
                        assert(before.contains(item));
                    }
                }
            }
        }
        index += 1;
    }
    let mut cells: Vec<Position> = Vec::new();
    let mut index: usize = 0;
    while index < keyed.len()
        invariant
            index <= keyed.len(),
            cells.len() == index,
            forall|i: int| 0 <= i < index ==> #[trigger] cells@[i] == keyed@[i].1,
        decreases keyed.len() - index,
    {
        cells.push(keyed[index].1);
        index += 1;
    }
    proof {
        assert forall|i: int| 0 <= i < keyed.len() implies (#[trigger] keyed@[i]).0 == distance(
            output,
            keyed@[i].1,
        ) by {
            assert(keyed@.contains(keyed@[i]));
        }
        assert forall|i: int, j: int| 0 <= i < j < cells.len() implies escapes_before(
            output,
            #[trigger] cells@[i],
            #[trigger] cells@[j],
        ) by {
            assert(comes_before(keyed@[i], keyed@[j]));
            assert(keyed@[i].0 == distance(output, keyed@[i].1));
            assert(keyed@[j].0 == distance(output, keyed@[j].1));
        }
        assert forall|cell: Position| #[trigger] cells@.contains(cell) <==> powers_dust(rule, *world, output, cell) by {
            if cells@.contains(cell) {
                let i = choose|i: int| 0 <= i < cells.len() && cells@[i] == cell;
                assert(keyed@.contains(keyed@[i]));
                let k = choose|k: int|
                    0 <= k < found.len() && world.listed()[(#[trigger] found@[k]) as int].0 == keyed@[i].1;
                assert(is_powered_dust(rule, *world, output, found@[k] as int));
            }
            if powers_dust(rule, *world, output, cell) {
                let i = choose|i: int| #[trigger]
                    is_powered_dust(rule, *world, output, i) && world.listed()[i].0 == cell;
                assert(i < total);
                assert(found@.contains(i as usize));
                let k = choose|k: int| 0 <= k < found.len() && found@[k] == i as usize;
                listed_distance_fits(*world, output, i);
                let item = (distance(output, cell) as usize, cell);
                assert(world.listed()[found@[k] as int].0 == item.1);
                assert(keyed@.contains(item));
                let at = choose|at: int| 0 <= at < keyed.len() && keyed@[at] == item;
                assert(cells@[at] == cell);
            }
        }
        let first = world.listed()[found@[0] as int].0;
        assert(powers_dust(rule, *world, output, first));
        assert(cells@.contains(first));
    }
    cells
}

// ---------------------------------------------------------------------------
// Inputs
// ---------------------------------------------------------------------------
/// Whether dust may become the port of an input: the dust that its switch
/// powers, or any dust of the network of that dust.
pub open spec fn may_be_port<F: Fn(&World3D, Position, Position) -> bool>(
    rule: &F,
    world: World3D,
    input: Position,
    direct: bool,
    index: int,
) -> bool {
    if direct {
        is_powered_dust(rule, world, input, index)
    } else {
        is_in_network(rule, world, input, index)
    }
}

/// Whether a cell makes a better port than another: it powers more blocks, or as
/// many and is nearer to the switch, or as near and first in cell order.
pub open spec fn is_better_port<F: Fn(&World3D, Position, Position) -> bool>(
    rule: &F,
    world: World3D,
    input: Position,
    left: Position,
    right: Position,
) -> bool {
    let more = consumers(rule, world, left, world.listed().len());
    let fewer = consumers(rule, world, right, world.listed().len());
    more > fewer || more == fewer && escapes_before(input, left, right)
}

/// Whether dust is the best port of an input.
pub open spec fn is_best_port<F: Fn(&World3D, Position, Position) -> bool>(
    rule: &F,
    world: World3D,
    input: Position,
    direct: bool,
    index: int,
) -> bool {
    &&& may_be_port(rule, world, input, direct, index)
    &&& forall|other: int| #[trigger]
        may_be_port(rule, world, input, direct, other) ==> !is_better_port(
            rule,
            world,
            input,
            world.listed()[other].0,
            world.listed()[index].0,
        )
}

/// Whether a cell, or none, is the dust that becomes the port of an input.
pub open spec fn is_dust_port<F: Fn(&World3D, Position, Position) -> bool>(
    rule: &F,
    world: World3D,
    input: Position,
    direct: bool,
    port: Option<Position>,
) -> bool {
    match port {
        None => forall|i: int| !is_powered_dust(rule, world, input, i),
        Some(cell) => exists|index: int| #[trigger]
            is_best_port(rule, world, input, direct, index) && 0 <= index < world.listed().len()
                && world.listed()[index].0 == cell,
    }
}

fn switch_powered_redstone_port<F: Fn(&World3D, Position, Position) -> bool>(
    rule: &F,
    world: &World3D,
    input: Position,
    direct: bool,
) -> (port: Option<Position>)
    requires
        is_rule(rule),
        world.wf(),
        distances_fit(*world),
        in_bounds(world.size, input),
    ensures
        is_dust_port(rule, *world, input, direct, port),
        port matches Some(cell) ==> lists_cell(world.listed(), cell),
{
    let total: usize = world.blocks.len();
    let powered = powered_dust(rule, world, input);
    if powered.len() == 0 {
        proof {
            assert forall|i: int| !is_powered_dust(rule, *world, input, i) by {
                if is_powered_dust(rule, *world, input, i) {
                    assert(powered@.contains(i as usize));
                }
            }
        }
        return None;
    }
    let first_powered: usize = powered[0];
    assert(is_powered_dust(rule, *world, input, powered@[0] as int));
    let members = if direct {
        powered
    } else {
        let members = redstone_network(rule, world, input);
        proof {
            let path = seq![first_powered as int];
            assert(is_chain(rule, *world, path));
            assert(path.last() == first_powered as int);
            assert(is_in_network(rule, *world, input, first_powered as int));
            assert(members@.contains(first_powered));
        }
        members
    };
    proof {
        assert forall|k: int| 0 <= k < members.len() implies (#[trigger] members@[k]) < world.listed().len()
            && may_be_port(rule, *world, input, direct, members@[k] as int) by {
            if direct {
                assert(is_powered_dust(rule, *world, input, members@[k] as int));
            }
        }
        assert forall|i: int| #[trigger] may_be_port(rule, *world, input, direct, i) implies members@.contains(
            i as usize,
        ) && 0 <= i < world.listed().len() by {
            if direct {
                assert(is_powered_dust(rule, *world, input, i));
            } else {
                assert(is_in_network(rule, *world, input, i));
                network_in_range(rule, *world, input, i);
            }
        }
    }
    let mut best: usize = members[0];
    assert(may_be_port(rule, *world, input, direct, members@[0] as int));
    let mut best_count: usize = downstream_consumer_count(rule, world, world.blocks[best].0);
    let mut index: usize = 1;
    while index < members.len()
        invariant
            1 <= index <= members.len(),
            is_rule(rule),
            world.wf(),
            distances_fit(*world),
            in_bounds(world.size, input),
            forall|k: int|
                0 <= k < members.len() ==> (#[trigger] members@[k]) < world.listed().len() && may_be_port(
                    rule,
                    *world,
                    input,
                    direct,
                    members@[k] as int,
                ),
            best < world.listed().len(),
            may_be_port(rule, *world, input, direct, best as int),
            best_count == consumers(rule, *world, world.listed()[best as int].0, world.listed().len()),
            forall|k: int|
                0 <= k < index ==> !is_better_port(
                    rule,
                    *world,
                    input,
                    world.listed()[(#[trigger] members@[k]) as int].0,
                    world.listed()[best as int].0,
                ),
        decreases members.len() - index,
    {
        let other: usize = members[index];
        assert(members@[index as int] < world.listed().len());
        let cell = world.blocks[other].0;
        let held = world.blocks[best].0;
        let count: usize = downstream_consumer_count(rule, world, cell);
        proof {
            listed_distance_fits(*world, input, other as int);
            listed_distance_fits(*world, input, best as int);
        }
        let near: usize = cell.manhattan_distance(&input);
        let far: usize = held.manhattan_distance(&input);
        let nearer = if near != far {
            near < far
        } else {
            cell.is_before(&held)
        };
        let better = count > best_count || count == best_count && nearer;
        if better {
            best = other;
            best_count = count;
        }
        index += 1;
    }
    proof {
        assert forall|other: int| #[trigger] may_be_port(rule, *world, input, direct, other) implies !is_better_port(
            rule,
            *world,
            input,
            world.listed()[other].0,
            world.listed()[best as int].0,
        ) by {
            assert(0 <= other < total);
            assert(members@.contains(other as usize));
            let k = choose|k: int| 0 <= k < members.len() && members@[k] == other as usize;
            assert(world.listed()[members@[k] as int].0 == world.listed()[other].0);
        }
        assert(is_best_port(rule, *world, input, direct, best as int));
        assert(world.listed()[best as int].0 == world.blocks[best as int].0);
    }
    Some(world.blocks[best].0)
}

proof fn network_in_range<F: Fn(&World3D, Position, Position) -> bool>(
    rule: &F,
    world: World3D,
    input: Position,
    index: int,
)
    requires
        is_in_network(rule, world, input, index),
    ensures
        0 <= index < world.listed().len(),
{
    let path = choose|path: Seq<int>| #[trigger]
        is_chain(rule, world, path) && is_powered_dust(rule, world, input, path[0]) && path.last() == index;
    if path.len() > 1 {
        assert(joins_along(rule, world, path, path.len() - 1));
    }
}

/// Where the support of dust is to stand, if there is room for it.
pub open spec fn support_of(world: World3D, cell: Position) -> Option<Position> {
    match neighbour(cell, Direction::Bottom) {
        None => None,
        Some(below) => if in_bounds(world.size, below) && (world.at(below).kind is Cobble || world.at(
            below,
        ).kind is Air) {
            Some(below)
        } else {
            None
        },
    }
}

/// The changes that put dust with its support into a cell.
pub open spec fn dust_changes(world: World3D, cell: Position, below: Position) -> Map<Position, Block> {
    if world.at(below).kind is Cobble {
        map![cell => plain_dust()]
    } else {
        map![below => plain_cobble(), cell => plain_dust()]
    }
}

/// The support block that the switch of a cell is fixed to.
pub open spec fn switched_cobble(world: World3D, input: Position) -> Option<Position> {
    match neighbour(input, world.at(input).direction) {
        Some(target) => if in_bounds(world.size, target) && world.at(target).kind is Cobble {
            Some(target)
        } else {
            None
        },
        None => None,
    }
}

/// What becomes of an input when its switch goes: the world after it, and the
/// cell of the port, if the input can have one.
pub open spec fn is_exposed<F: Fn(&World3D, Position, Position) -> bool>(
    rule: &F,
    before: World3D,
    after: World3D,
    input: Position,
    preserve: bool,
    direct: bool,
    port: Option<Position>,
) -> bool {
    let cleared = is_changed(before, after, map![input => air()]);
    if !in_bounds(before.size, input) {
        after == before && port is None
    } else if !(before.at(input).kind is Switch) {
        after == before && port == Some(input)
    } else if switched_cobble(before, input) is Some {
        if direct && exists|i: int| is_powered_dust(rule, before, input, i) {
            cleared && port is Some && is_dust_port(rule, before, input, true, port)
        } else {
            cleared && port == switched_cobble(before, input)
        }
    } else if preserve && exists|i: int| is_powered_dust(rule, before, input, i) {
        match support_of(before, input) {
            None => after == before && port is None,
            Some(below) => is_changed(before, after, dust_changes(before, input, below)) && port == Some(input),
        }
    } else if exists|i: int| is_powered_dust(rule, before, input, i) {
        cleared && port is Some && is_dust_port(rule, before, input, direct, port)
    } else {
        after == before && port is None
    }
}

/// Takes the switch of an input away and returns the cell of the port that
/// takes its place.
pub fn expose_switchless_input_port<F: Fn(&World3D, Position, Position) -> bool>(
    rule: &F,
    world: &mut World3D,
    input: Position,
    preserve: bool,
    direct: bool,
) -> (port: Option<Position>)
    requires
        is_rule(rule),
        old(world).wf(),
        distances_fit(*old(world)),
    ensures
        final(world).wf(),
        final(world).size == old(world).size,
        is_exposed(rule, *old(world), *final(world), input, preserve, direct, port),
        port matches Some(cell) ==> in_bounds(final(world).size, cell),
{
    let ghost before = *world;
    if !world.size.bound_on(input) {
        return None;
    }
    let block = world.get(input);
    if !block.kind.is_switch() {
        return Some(input);
    }
    let fixed = match input.walk(block.direction) {
        Some(target) => if world.size.bound_on(target) && world.get(target).kind.is_cobble() {
            Some(target)
        } else {
            None
        },
        None => None,
    };
    if let Some(target) = fixed {
        if direct {
            if let Some(port) = switch_powered_redstone_port(rule, world, input, true) {
                proof {
                    let index = choose|index: int| #[trigger]
                        is_best_port(rule, before, input, true, index) && 0 <= index < before.listed().len()
                            && before.listed()[index].0 == port;
                    assert(is_powered_dust(rule, before, input, index));
                    assert(in_bounds(before.size, before.listed()[index].0));
                }
                world.set(input, Block::default());
                return Some(port);
            }
        }
        world.set(input, Block::default());
        return Some(target);
    }
    let powers = powers_any_dust(rule, world, input);
    if preserve && powers {
        let below = match input.down() {
            None => return None,
            Some(below) => below,
        };
        if !world.size.bound_on(below) {
            return None;
        }
        let support = world.get(below).kind;
        if !support.is_cobble() {
            if !support.is_air() {
                return None;
            }
            world.set(below, new_cobble());
        }
        world.set(input, new_redstone());
        return Some(input);
    }
    match switch_powered_redstone_port(rule, world, input, direct) {
        Some(port) => {
            proof {
                let index = choose|index: int| #[trigger]
                    is_best_port(rule, before, input, direct, index) && 0 <= index < before.listed().len()
                        && before.listed()[index].0 == port;
                assert(in_bounds(before.size, before.listed()[index].0));
                if !direct {
                    let path = choose|path: Seq<int>| #[trigger]
                        is_chain(rule, before, path) && is_powered_dust(rule, before, input, path[0]) && path.last()
                            == index;
                    assert(is_powered_dust(rule, before, input, path[0]));
                } else {
                    assert(is_powered_dust(rule, before, input, index));
                }
            }
            world.set(input, Block::default());
            Some(port)
        },
        None => None,
    }
}

/// Whether a world is another without its switches.
pub open spec fn is_switchless(before: World3D, after: World3D) -> bool {
    &&& after.wf()
    &&& after.size == before.size
    &&& forall|cell: Position| #[trigger]
        after.at(cell) == (if before.at(cell).kind is Switch {
            air()
        } else {
            before.at(cell)
        })
}

/// Takes all switches away.
pub fn remove_local_input_switches(world: &mut World3D)
    requires
        old(world).wf(),
    ensures
        is_switchless(*old(world), *final(world)),
{
    let ghost before = *world;
    let blocks = world.iter_block();
    let mut index: usize = 0;
    while index < blocks.len()
        invariant
            index <= blocks.len(),
            before == *old(world),
            before.wf(),
            blocks@ == before.listed(),
            world.wf(),
            world.size == before.size,
            forall|cell: Position| #[trigger]
                world.at(cell) == (if before.at(cell).kind is Switch && exists|i: int|
                    0 <= i < index && (#[trigger] blocks@[i]).0 == cell {
                    air()
                } else {
                    before.at(cell)
                }),
        decreases blocks.len() - index,
    {
        let position = blocks[index].0;
        let ghost now = *world;
        proof {
            before.listed_at(index as int);
            assert(in_bounds(before.size, before.listed()[index as int].0));
        }
        if blocks[index].1.kind.is_switch() {
            world.set(position, Block::default());
        }
        proof {
            assert forall|cell: Position| #[trigger] world.at(cell) == (if before.at(cell).kind is Switch && exists|i: int|
                0 <= i < index + 1 && (#[trigger] blocks@[i]).0 == cell {
                air()
            } else {
                before.at(cell)
            }) by {
                assert(now.at(cell) == now.at(cell));
                if exists|i: int| 0 <= i < index && (#[trigger] blocks@[i]).0 == cell {
                    let i = choose|i: int| 0 <= i < index && (#[trigger] blocks@[i]).0 == cell;
                    assert(blocks@[i].0 == cell);
                }
                if cell == position {
                    assert(blocks@[index as int].0 == cell);
                }
            }
        }
        index += 1;
    }
    proof {
        assert forall|cell: Position| #[trigger] world.at(cell) == (if before.at(cell).kind is Switch {
            air()
        } else {
            before.at(cell)
        }) by {
            if before.at(cell).kind is Switch {
                assert(lists_cell(before.listed(), cell));
                let i = choose|i: int| 0 <= i < before.listed().len() && (#[trigger] before.listed()[i]).0 == cell;
                assert(blocks@[i].0 == cell);
            }
        }
    }
}

} // verus!

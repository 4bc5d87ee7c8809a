//! Repeaters that cut a route off from what it starts at.

use super::contacts::{
    adapter_allowed_contacts, adapter_touches_forbidden_existing_signal, are_own_signals, extend_sorted,
    source_signal_positions, touches_other_signal,
};
use super::super::candidate::{new_cobble, new_redstone, plain_cobble, plain_dust};
use super::super::dust::{is_rule, says};
use crate::world::block::{Block, BlockKind};
use crate::world::grid::{same_world, World3D};
use crate::world::position::{in_bounds, is_sorted, neighbour, opposite, Direction, Position};
use vstd::prelude::*;

verus! {

/// A repeater.
pub open spec fn plain_repeater(direction: Direction, delay: usize) -> Block {
    Block {
        kind: BlockKind::Repeater {
            is_on: false,
            is_locked: false,
            delay,
            lock_input1: None,
            lock_input2: None,
        },
        direction,
    }
}

/// A repeater.
pub fn new_repeater(direction: Direction, delay: usize) -> (block: Block)
    ensures
        block == plain_repeater(direction, delay),
{
    Block {
        kind: BlockKind::Repeater { is_on: false, is_locked: false, delay, lock_input1: None, lock_input2: None },
        direction,
    }
}

/// Whether a builder, which puts a block into a cell unless it is in conflict
/// with its surroundings, answers everything, with a world that is well formed.
pub open spec fn is_builder<P: Fn(&World3D, Position, Block, &Vec<Position>) -> Option<World3D>>(put: &P) -> bool {
    &&& forall|world: World3D, cell: Position, block: Block, allowed: Vec<Position>| #[trigger]
        call_requires(*put, (&world, cell, block, &allowed))
    &&& forall|world: World3D, cell: Position, block: Block, allowed: Vec<Position>, after: World3D| #[trigger]
        call_ensures(*put, (&world, cell, block, &allowed), Some(after)) ==> after.wf()
}

/// Whether putting a block into a cell, where it may touch some others, comes to
/// a world, or to none.
pub open spec fn is_put<P: Fn(&World3D, Position, Block, &Vec<Position>) -> Option<World3D>>(
    put: &P,
    world: World3D,
    cell: Position,
    block: Block,
    allowed: Seq<Position>,
    after: Option<World3D>,
) -> bool {
    exists|cells: Vec<Position>| #[trigger]
        call_ensures(*put, (&world, cell, block, &cells), after) && cells@ == allowed
}

/// Whether a world is another with a support block in a cell, or none where
/// there is no room for it.
pub open spec fn is_supported<P: Fn(&World3D, Position, Block, &Vec<Position>) -> Option<World3D>>(
    put: &P,
    world: World3D,
    cell: Position,
    after: Option<World3D>,
) -> bool {
    if world.at(cell).kind is Air {
        is_put(put, world, cell, plain_cobble(), Seq::empty(), after)
    } else if world.at(cell).kind is Cobble {
        after == Some(world)
    } else {
        after is None
    }
}

/// Puts a support block into a cell, unless there is one.
pub fn place_support_cobble_if_needed<P: Fn(&World3D, Position, Block, &Vec<Position>) -> Option<World3D>>(
    put: &P,
    world: World3D,
    cell: Position,
) -> (after: Option<World3D>)
    requires
        is_builder(put),
        world.wf(),
    ensures
        is_supported(put, world, cell, after),
        after matches Some(after) ==> after.wf(),
{
    let kind = world.get(cell).kind;
    if kind.is_air() {
        let none: Vec<Position> = Vec::new();
        assert(none@ =~= Seq::<Position>::empty());
        let after = put(&world, cell, new_cobble(), &none);
        assert(call_ensures(*put, (&world, cell, plain_cobble(), &none), after));
        after
    } else if kind.is_cobble() {
        Some(world)
    } else {
        None
    }
}

/// Puts a block into a cell, where it may touch one other.
pub fn put_touching<P: Fn(&World3D, Position, Block, &Vec<Position>) -> Option<World3D>>(
    put: &P,
    world: &World3D,
    cell: Position,
    block: Block,
    touched: Position,
) -> (after: Option<World3D>)
    requires
        is_builder(put),
    ensures
        is_put(put, *world, cell, block, just(touched), after),
        after matches Some(after) ==> after.wf(),
{
    let cells = vec![touched];
    assert(cells@ =~= seq![touched]);
    let after = put(world, cell, block, &cells);
    assert(call_ensures(*put, (world, cell, block, &cells), after));
    after
}

/// Whether cells are those that an adapter may touch: cells that are given, its
/// own, and those that carry the signal of its source.
pub open spec fn are_adapter_contacts<F: Fn(&World3D, Position, Position) -> bool>(
    rule: &F,
    world: World3D,
    source: Position,
    additional: Seq<Position>,
    local: Seq<Position>,
    cells: Seq<Position>,
) -> bool {
    exists|own: Seq<Position>| #[trigger]
        are_own_signals(rule, world, source, own) && is_sorted(cells) && forall|cell: Position| #[trigger]
            cells.contains(cell) <==> additional.contains(cell) || local.contains(cell) || own.contains(cell)
}

fn output_adapter_allowed_contacts<F: Fn(&World3D, Position, Position) -> bool>(
    rule: &F,
    world: &World3D,
    source: Position,
    additional: &Vec<Position>,
    local: &Vec<Position>,
) -> (cells: Vec<Position>)
    requires
        is_rule(rule),
        world.wf(),
    ensures
        are_adapter_contacts(rule, *world, source, additional@, local@, cells@),
{
    let mut cells = adapter_allowed_contacts(additional, local);
    let own = source_signal_positions(rule, world, source);
    extend_sorted(&mut cells, &own);
    assert(are_own_signals(rule, *world, source, own@));
    cells
}

/// Whether a block of an adapter touches a signal that it may not touch.
pub open spec fn adapter_touches<F: Fn(&World3D, Position, Position) -> bool>(
    rule: &F,
    world: World3D,
    adapter: World3D,
    source: Position,
    additional: Seq<Position>,
    local: Seq<Position>,
    cell: Position,
    touches: bool,
) -> bool {
    exists|cells: Seq<Position>| #[trigger]
        are_adapter_contacts(rule, world, source, additional, local, cells) && touches == touches_other_signal(
            rule,
            world,
            adapter,
            cell,
            cells,
        )
}

fn check_contacts<F: Fn(&World3D, Position, Position) -> bool>(
    rule: &F,
    world: &World3D,
    adapter: &World3D,
    source: Position,
    additional: &Vec<Position>,
    local: &Vec<Position>,
    cell: Position,
) -> (touches: bool)
    requires
        is_rule(rule),
        world.wf(),
    ensures
        adapter_touches(rule, *world, *adapter, source, additional@, local@, cell, touches),
{
    let cells = output_adapter_allowed_contacts(rule, world, source, additional, local);
    assert(are_adapter_contacts(rule, *world, source, additional@, local@, cells@));
    adapter_touches_forbidden_existing_signal(rule, world, adapter, cell, &cells)
}

// ---------------------------------------------------------------------------
// Output adapters
// ---------------------------------------------------------------------------
/// One cell.
pub open spec fn just(cell: Position) -> Seq<Position> {
    seq![cell]
}

/// The cells that the repeater of an adapter may touch.
pub open spec fn near_repeater(site: AdapterSite) -> Seq<Position> {
    seq![site.source, site.repeater]
}

/// The cells that the dust of an adapter may touch.
pub open spec fn near_driver(site: AdapterSite) -> Seq<Position> {
    seq![site.source, site.repeater, site.driver]
}

/// Where an output adapter is built.
pub ghost struct AdapterSite {
    pub world: World3D,
    pub source: Position,
    pub repeater: Position,
    pub direction: Direction,
    pub additional: Seq<Position>,
    pub driver: Position,
}

/// What becomes of an adapter once its repeater stands: its dust is put behind
/// it, has to be powered by it, and may touch nothing foreign.
pub open spec fn driver_part<
    F: Fn(&World3D, Position, Position) -> bool,
    P: Fn(&World3D, Position, Block, &Vec<Position>) -> Option<World3D>,
>(rule: &F, put: &P, site: AdapterSite, world: World3D, result: Option<(World3D, Position)>) -> bool {
    exists|after: Option<World3D>| #[trigger]
        is_put(put, world, site.driver, plain_dust(), just(site.repeater), after) && match after {
            None => result is None,
            Some(built) => if !says(rule, built, site.repeater, site.driver) {
                result is None
            } else {
                exists|touches: bool| #[trigger]
                    adapter_touches(
                        rule,
                        site.world,
                        built,
                        site.source,
                        site.additional,
                        near_driver(site),
                        site.driver,
                        touches,
                    ) && result == (if touches {
                        None
                    } else {
                        Some((built, site.driver))
                    })
            },
        }
}

/// What becomes of an adapter once its supports stand: its repeater is put next
/// to the source, has to be powered by it, and may touch nothing foreign.
pub open spec fn repeater_part<
    F: Fn(&World3D, Position, Position) -> bool,
    P: Fn(&World3D, Position, Block, &Vec<Position>) -> Option<World3D>,
>(rule: &F, put: &P, site: AdapterSite, world: World3D, result: Option<(World3D, Position)>) -> bool {
    exists|after: Option<World3D>| #[trigger]
        is_put(put, world, site.repeater, plain_repeater(site.direction, 1), just(site.source), after) && match after {
            None => result is None,
            Some(built) => if !says(rule, built, site.source, site.repeater) {
                result is None
            } else {
                exists|touches: bool| #[trigger]
                    adapter_touches(
                        rule,
                        site.world,
                        built,
                        site.source,
                        site.additional,
                        near_repeater(site),
                        site.repeater,
                        touches,
                    ) && if touches {
                        result is None
                    } else {
                        driver_part(rule, put, site, built, result)
                    }
            },
        }
}

/// What becomes of an adapter: support blocks, a repeater and dust are put into
/// the world one after the other, as long as each of them fits.
pub open spec fn support_part<
    F: Fn(&World3D, Position, Position) -> bool,
    P: Fn(&World3D, Position, Block, &Vec<Position>) -> Option<World3D>,
>(
    rule: &F,
    put: &P,
    site: AdapterSite,
    first: Position,
    second: Position,
    result: Option<(World3D, Position)>,
) -> bool {
    exists|start: World3D, one: Option<World3D>| #[trigger]
        is_supported(put, start, first, one) && same_world(start, site.world) && match one {
            None => result is None,
            Some(world) => exists|two: Option<World3D>| #[trigger]
                is_supported(put, world, second, two) && match two {
                    None => result is None,
                    Some(world) => repeater_part(rule, put, site, world, result),
                },
        }
}

/// What building an output adapter comes to.
pub open spec fn is_output_adapter<
    F: Fn(&World3D, Position, Position) -> bool,
    P: Fn(&World3D, Position, Block, &Vec<Position>) -> Option<World3D>,
>(
    rule: &F,
    put: &P,
    world: World3D,
    source: Position,
    repeater: Position,
    direction: Direction,
    additional: Seq<Position>,
    result: Option<(World3D, Position)>,
) -> bool {
    if !in_bounds(world.size, repeater) || !(world.at(repeater).kind is Air) {
        result is None
    } else {
        match neighbour(repeater, opposite(direction)) {
            None => result is None,
            Some(driver) => if !in_bounds(world.size, driver) || !(world.at(driver).kind is Air) {
                result is None
            } else {
                match (neighbour(repeater, Direction::Bottom), neighbour(driver, Direction::Bottom)) {
                    (Some(first), Some(second)) => support_part(
                        rule,
                        put,
                        AdapterSite { world, source, repeater, direction, additional, driver },
                        first,
                        second,
                        result,
                    ),
                    _ => result is None,
                }
            },
        }
    }
}

/// Builds an adapter next to an output: a repeater that the output powers, and
/// dust behind it.
pub fn output_repeater_adapter_world<
    F: Fn(&World3D, Position, Position) -> bool,
    P: Fn(&World3D, Position, Block, &Vec<Position>) -> Option<World3D>,
>(
    rule: &F,
    put: &P,
    world: &World3D,
    source: Position,
    repeater: Position,
    direction: Direction,
    additional: &Vec<Position>,
) -> (result: Option<(World3D, Position)>)
    requires
        is_rule(rule),
        is_builder(put),
        world.wf(),
    ensures
        is_output_adapter(rule, put, *world, source, repeater, direction, additional@, result),
        result matches Some((adapter, _)) ==> adapter.wf(),
{
    if !world.size.bound_on(repeater) || !world.get(repeater).kind.is_air() {
        return None;
    }
    let driver = match repeater.walk(direction.inverse()) {
        None => return None,
        Some(driver) => driver,
    };
    if !world.size.bound_on(driver) || !world.get(driver).kind.is_air() {
        return None;
    }
    let first = match repeater.down() {
        None => return None,
        Some(first) => first,
    };
    let second = match driver.down() {
        None => return None,
        Some(second) => second,
    };
    let ghost site = AdapterSite { world: *world, source, repeater, direction, additional: additional@, driver };
    let start = world.copy();
    let ghost begun = start;
    let one = place_support_cobble_if_needed(put, start, first);
    assert(is_supported(put, begun, first, one) && same_world(begun, site.world));
    let supported = match one {
        None => return None,
        Some(supported) => supported,
    };
    let ghost once = supported;
    let two = place_support_cobble_if_needed(put, supported, second);
    assert(is_supported(put, once, second, two));
    let ready = match two {
        None => return None,
        Some(ready) => ready,
    };
    let result = build_adapter(rule, put, world, source, repeater, direction, additional, driver, &ready);
    assert(repeater_part(rule, put, site, ready, result));
    result
}

fn build_adapter<
    F: Fn(&World3D, Position, Position) -> bool,
    P: Fn(&World3D, Position, Block, &Vec<Position>) -> Option<World3D>,
>(
    rule: &F,
    put: &P,
    world: &World3D,
    source: Position,
    repeater: Position,
    direction: Direction,
    additional: &Vec<Position>,
    driver: Position,
    ready: &World3D,
) -> (result: Option<(World3D, Position)>)
    requires
        is_rule(rule),
        is_builder(put),
        world.wf(),
    ensures
        repeater_part(
            rule,
            put,
            AdapterSite { world: *world, source, repeater, direction, additional: additional@, driver },
            *ready,
            result,
        ),
        result matches Some((adapter, _)) ==> adapter.wf(),
{
    let ghost site = AdapterSite { world: *world, source, repeater, direction, additional: additional@, driver };
    let after = put_touching(put, ready, repeater, new_repeater(direction, 1), source);
    assert(is_put(put, *ready, site.repeater, plain_repeater(site.direction, 1), just(site.source), after));
    let built = match after {
        None => return None,
        Some(built) => built,
    };
    if !rule(&built, source, repeater) {
        return None;
    }
    let local = vec![source, repeater];
    assert(local@ =~= seq![source, repeater]);
    let touches = check_contacts(rule, world, &built, source, additional, &local, repeater);
    assert(adapter_touches(
        rule,
        site.world,
        built,
        site.source,
        site.additional,
        near_repeater(site),
        site.repeater,
        touches,
    ));
    if touches {
        return None;
    }
    let result = build_driver(rule, put, world, source, repeater, additional, driver, &built, Ghost(site));
    assert(driver_part(rule, put, site, built, result));
    result
}

fn build_driver<
    F: Fn(&World3D, Position, Position) -> bool,
    P: Fn(&World3D, Position, Block, &Vec<Position>) -> Option<World3D>,
>(
    rule: &F,
    put: &P,
    world: &World3D,
    source: Position,
    repeater: Position,
    additional: &Vec<Position>,
    driver: Position,
    ready: &World3D,
    Ghost(site): Ghost<AdapterSite>,
) -> (result: Option<(World3D, Position)>)
    requires
        is_rule(rule),
        is_builder(put),
        world.wf(),
        site.world == *world,
        site.source == source,
        site.repeater == repeater,
        site.additional == additional@,
        site.driver == driver,
    ensures
        driver_part(rule, put, site, *ready, result),
        result matches Some((adapter, _)) ==> adapter.wf(),
{
    let after = put_touching(put, ready, driver, new_redstone(), repeater);
    assert(is_put(put, *ready, site.driver, plain_dust(), just(site.repeater), after));
    let built = match after {
        None => return None,
        Some(built) => built,
    };
    if !rule(&built, repeater, driver) {
        return None;
    }
    let local = vec![source, repeater, driver];
    assert(local@ =~= seq![source, repeater, driver]);
    let touches = check_contacts(rule, world, &built, source, additional, &local, driver);
    assert(adapter_touches(
        rule,
        site.world,
        built,
        site.source,
        site.additional,
        near_driver(site),
        site.driver,
        touches,
    ));
    if touches {
        None
    } else {
        Some((built, driver))
    }
}

} // verus!

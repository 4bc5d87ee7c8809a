//! Checking that a route powers what it is to power, and lets go of it.

use crate::order::distinct_below;
use super::route::{GlobalRoutingStrategy, RoutedNet};
use super::state::{is_signal, is_signal_terminal_kind};
use crate::transform::place_and_route::global_pnr::dust::{is_rule, says};
use crate::world::block::BlockKind;
use crate::world::grid::World3D;
use crate::world::position::{in_bounds, insert_sorted, is_sorted, Position};
use vstd::prelude::*;

verus! {

/// When routes are checked.
#[derive(Clone, Copy, Debug, PartialEq, Eq, Structural)]
pub enum RouteValidationMode {
    /// Every branch at once.
    Incremental,
    /// All together at the end; loops are still found at once.
    Deferred,
}

impl Default for RouteValidationMode {
    fn default() -> (mode: Self)
        ensures
            mode == RouteValidationMode::Incremental,
    {
        RouteValidationMode::Incremental
    }
}

// ---------------------------------------------------------------------------
// Settling
// ---------------------------------------------------------------------------
/// Whether a simulation, which settles a world with the switch of a source left
/// alone or set, and tells which cells have power, answers for every cell that
/// it is asked about.
pub open spec fn is_settler<S: Fn(&World3D, Position, Option<bool>, &Vec<Position>) -> Option<Vec<bool>>>(
    settle: &S,
) -> bool {
    &&& forall|world: World3D, source: Position, setting: Option<bool>, cells: Vec<Position>| #[trigger]
        call_requires(*settle, (&world, source, setting, &cells))
    &&& forall|world: World3D, source: Position, setting: Option<bool>, cells: Vec<Position>, powers: Vec<bool>| #[trigger]
        call_ensures(*settle, (&world, source, setting, &cells), Some(powers)) ==> powers@.len() == cells@.len()
}

/// Whether settling a world comes to an answer about some cells, or to none.
pub open spec fn settles<S: Fn(&World3D, Position, Option<bool>, &Vec<Position>) -> Option<Vec<bool>>>(
    settle: &S,
    world: World3D,
    source: Position,
    setting: Option<bool>,
    cells: Seq<Position>,
    powers: Option<Seq<bool>>,
) -> bool {
    exists|list: Vec<Position>, answer: Option<Vec<bool>>| #[trigger]
        call_ensures(*settle, (&world, source, setting, &list), answer) && list@ == cells && powers == (match answer {
            Some(answer) => Some(answer@),
            None => None,
        })
}

fn settled<S: Fn(&World3D, Position, Option<bool>, &Vec<Position>) -> Option<Vec<bool>>>(
    settle: &S,
    world: &World3D,
    source: Position,
    setting: Option<bool>,
    cells: &Vec<Position>,
) -> (powers: Option<Vec<bool>>)
    requires
        is_settler(settle),
    ensures
        settles(
            settle,
            *world,
            source,
            setting,
            cells@,
            match powers {
                Some(powers) => Some(powers@),
                None => None,
            },
        ),
        powers matches Some(powers) ==> powers@.len() == cells@.len(),
{
    let answer = settle(world, source, setting, cells);
    assert(call_ensures(*settle, (world, source, setting, cells), answer));
    answer
}

/// Whether a source can be checked.
pub open spec fn is_checkable(kind: BlockKind) -> bool {
    kind is Redstone || kind is Torch || kind is Repeater || kind is Switch
}

/// Whether a source can be checked.
pub fn can_validate_active_route_source(world: &World3D, position: Position) -> (checkable: bool)
    requires
        world.wf(),
    ensures
        checkable == is_checkable(world.at(position).kind),
{
    let kind = world.get(position).kind;
    kind.is_redstone() || kind.is_torch() || kind.is_repeater() || kind.is_switch()
}

/// Whether all of some answers are yes.
pub open spec fn all_on(powers: Seq<bool>) -> bool {
    forall|i: int| 0 <= i < powers.len() ==> #[trigger] powers[i]
}

/// Whether all of some answers are no.
pub open spec fn none_on(powers: Seq<bool>) -> bool {
    forall|i: int| 0 <= i < powers.len() ==> !(#[trigger] powers[i])
}

/// The source of a route, and the cells that are to have power.
pub open spec fn asked_cells(route: RoutedNet) -> Seq<Position> {
    seq![route.source] + route.required_powered_positions@
}

/// What checking that an active source powers its route comes to: a source that
/// had power keeps it, and where it has power so have the cells that are to.
pub open spec fn is_power_check<S: Fn(&World3D, Position, Option<bool>, &Vec<Position>) -> Option<Vec<bool>>>(
    settle: &S,
    before: World3D,
    after: World3D,
    route: RoutedNet,
    accepted: bool,
) -> bool {
    if !is_checkable(before.at(route.source).kind) && !is_checkable(after.at(route.source).kind) {
        accepted
    } else {
        exists|old_powers: Option<Seq<bool>>| #[trigger]
            settles(settle, before, route.source, None, just_source(route), old_powers) && match old_powers {
                None => !accepted,
                Some(old_powers) => exists|powers: Option<Seq<bool>>| #[trigger]
                    settles(settle, after, route.source, Some(true), asked_cells(route), powers) && match powers {
                        None => !accepted,
                        Some(powers) => {
                            let lost = old_powers[0] && !powers[0];
                            accepted == (!lost && (!powers[0] || all_on(powers.skip(1))))
                        },
                    },
            }
    }
}

/// The source of a route.
pub open spec fn just_source(route: RoutedNet) -> Seq<Position> {
    seq![route.source]
}

/// Whether an active source powers its route.
pub fn active_route_powers_sink<S: Fn(&World3D, Position, Option<bool>, &Vec<Position>) -> Option<Vec<bool>>>(
    settle: &S,
    before: &World3D,
    after: &World3D,
    route: &RoutedNet,
) -> (accepted: bool)
    requires
        is_settler(settle),
        before.wf(),
        after.wf(),
    ensures
        is_power_check(settle, *before, *after, *route, accepted),
{
    if !can_validate_active_route_source(before, route.source) && !can_validate_active_route_source(
        after,
        route.source,
    ) {
        return true;
    }
    let only = vec![route.source];
    assert(only@ =~= just_source(*route));
    let old_powers = match settled(settle, before, route.source, None, &only) {
        None => {
            assert(settles(settle, *before, route.source, None, just_source(*route), None::<Seq<bool>>));
            return false;
        },
        Some(powers) => powers,
    };
    assert(settles(settle, *before, route.source, None, just_source(*route), Some(old_powers@)));
    let mut asked = vec![route.source];
    let mut more = route.required_powered_positions.clone();
    assert(more@ =~= route.required_powered_positions@);
    asked.append(&mut more);
    assert(asked@ =~= asked_cells(*route));
    let powers = match settled(settle, after, route.source, Some(true), &asked) {
        None => {
            assert(settles(settle, *after, route.source, Some(true), asked_cells(*route), None::<Seq<bool>>));
            return false;
        },
        Some(powers) => powers,
    };
    assert(settles(settle, *after, route.source, Some(true), asked_cells(*route), Some(powers@)));
    if old_powers[0] && !powers[0] {
        return false;
    }
    if !powers[0] {
        return true;
    }
    let mut powered = true;
    let mut index: usize = 1;
    while index < powers.len()
        invariant
            1 <= index <= powers.len(),
            powered ==> forall|i: int| 1 <= i < index ==> #[trigger] powers@[i],
            !powered ==> exists|i: int| 1 <= i < index && !(#[trigger] powers@[i]),
        decreases powers.len() - index,
    {
        if !powers[index] {
            assert(!powers@[index as int]);
            powered = false;
        }
        index += 1;
    }
    proof {
        let rest = powers@.skip(1);
        if powered {
            assert forall|i: int| 0 <= i < rest.len() implies #[trigger] rest[i] by {
                assert(powers@[i + 1]);
            }
        } else {
            let i = choose|i: int| 1 <= i < index && !(#[trigger] powers@[i]);
            assert(!rest[i - 1]);
        }
        assert(powered == all_on(rest));
    }
    powered
}

/// What checking that a switch lets go of its route comes to.
pub open spec fn is_release_check<S: Fn(&World3D, Position, Option<bool>, &Vec<Position>) -> Option<Vec<bool>>>(
    settle: &S,
    world: World3D,
    route: RoutedNet,
    accepted: bool,
) -> bool {
    if !(world.at(route.source).kind is Switch) {
        accepted
    } else {
        exists|powers: Option<Seq<bool>>| #[trigger]
            settles(
                settle,
                world,
                route.source,
                Some(false),
                route.required_released_positions@,
                powers,
            ) && match powers {
                None => !accepted,
                Some(powers) => accepted == none_on(powers),
            }
    }
}

/// Whether a switch that is off leaves its route without power.
pub fn switch_route_releases_required_positions_when_off<
    S: Fn(&World3D, Position, Option<bool>, &Vec<Position>) -> Option<Vec<bool>>,
>(settle: &S, world: &World3D, route: &RoutedNet) -> (accepted: bool)
    requires
        is_settler(settle),
        world.wf(),
    ensures
        is_release_check(settle, *world, *route, accepted),
{
    if !world.get(route.source).kind.is_switch() {
        return true;
    }
    let powers = match settled(settle, world, route.source, Some(false), &route.required_released_positions) {
        None => {
            assert(settles(
                settle,
                *world,
                route.source,
                Some(false),
                route.required_released_positions@,
                None::<Seq<bool>>,
            ));
            return false;
        },
        Some(powers) => powers,
    };
    assert(settles(
        settle,
        *world,
        route.source,
        Some(false),
        route.required_released_positions@,
        Some(powers@),
    ));
    let mut released = true;
    let mut index: usize = 0;
    while index < powers.len()
        invariant
            index <= powers.len(),
            released ==> forall|i: int| 0 <= i < index ==> !(#[trigger] powers@[i]),
            !released ==> exists|i: int| 0 <= i < index && #[trigger] powers@[i],
        decreases powers.len() - index,
    {
        if powers[index] {
            assert(powers@[index as int]);
            released = false;
        }
        index += 1;
    }
    assert(released == none_on(powers@));
    assert(is_release_check(settle, *world, *route, released));
    released
}

// ---------------------------------------------------------------------------
// Loops
// ---------------------------------------------------------------------------
/// Whether a cell is one of a route's cells that carry or make a signal.
pub open spec fn is_route_signal(world: World3D, route: RoutedNet, cell: Position) -> bool {
    &&& in_bounds(world.size, cell)
    &&& is_signal(world.at(cell).kind)
    &&& route.path@.contains(cell) || exists|i: int|
        0 <= i < route.blocks@.len() && (#[trigger] route.blocks@[i]).0 == cell
}

/// Whether one cell of a list powers another.
pub open spec fn feeds_on<F: Fn(&World3D, Position, Position) -> bool>(
    rule: &F,
    world: World3D,
    cells: Seq<Position>,
    from: int,
    to: int,
) -> bool {
    &&& 0 <= from < cells.len()
    &&& 0 <= to < cells.len()
    &&& from != to
    &&& says(rule, world, cells[from], cells[to])
}

pub open spec fn feeds_along<F: Fn(&World3D, Position, Position) -> bool>(
    rule: &F,
    world: World3D,
    cells: Seq<Position>,
    path: Seq<int>,
    k: int,
) -> bool {
    feeds_on(rule, world, cells, path[k - 1], path[k])
}

/// Whether power goes along a path of cells.
pub open spec fn is_power_path<F: Fn(&World3D, Position, Position) -> bool>(
    rule: &F,
    world: World3D,
    cells: Seq<Position>,
    path: Seq<int>,
) -> bool {
    &&& path.len() > 0
    &&& forall|k: int| 0 < k < path.len() ==> feeds_along(rule, world, cells, path, k)
}

/// Whether the power of a cell comes back to it.
pub open spec fn comes_back<F: Fn(&World3D, Position, Position) -> bool>(
    rule: &F,
    world: World3D,
    cells: Seq<Position>,
    start: int,
) -> bool {
    exists|path: Seq<int>| #[trigger]
        is_power_path(rule, world, cells, path) && path.len() > 1 && path[0] == start && path.last() == start
}

/// Whether a route feeds itself: the power of one of its repeaters comes back to
/// it.
pub open spec fn has_loop<F: Fn(&World3D, Position, Position) -> bool>(
    rule: &F,
    world: World3D,
    cells: Seq<Position>,
) -> bool {
    exists|start: int|
        0 <= start < cells.len() && world.at(cells[start]).kind is Repeater && #[trigger] comes_back(
            rule,
            world,
            cells,
            start,
        )
}

/// Whether cells are those of a route that carry or make a signal.
pub open spec fn are_route_signals(world: World3D, route: RoutedNet, cells: Seq<Position>) -> bool {
    &&& is_sorted(cells)
    &&& forall|cell: Position| #[trigger] cells.contains(cell) <==> is_route_signal(world, route, cell)
}

fn route_signals(world: &World3D, route: &RoutedNet) -> (cells: Vec<Position>)
    requires
        world.wf(),
    ensures
        are_route_signals(*world, *route, cells@),
{
    let mut cells: Vec<Position> = Vec::new();
    let mut index: usize = 0;
    while index < route.path.len()
        invariant
            index <= route.path.len(),
            world.wf(),
            is_sorted(cells@),
            forall|cell: Position| #[trigger]
                cells@.contains(cell) <==> in_bounds(world.size, cell) && is_signal(world.at(cell).kind) && exists|i: int|
                    0 <= i < index && #[trigger] route.path@[i] == cell,
        decreases route.path.len() - index,
    {
        let cell = route.path[index];
        let ghost before = cells@;
        if world.size.bound_on(cell) && is_signal_terminal_kind(&world.get(cell).kind) {
            insert_sorted(&mut cells, cell);
        }
        proof {
            assert forall|other: Position| #[trigger] cells@.contains(other) <==> in_bounds(world.size, other)
                && is_signal(world.at(other).kind) && exists|i: int|
                0 <= i < index + 1 && #[trigger] route.path@[i] == other by {
                if before.contains(other) {
                    let i = choose|i: int| 0 <= i < index && #[trigger] route.path@[i] == other;
                    assert(route.path@[i] == other);
                }
                if other == cell {
                    assert(route.path@[index as int] == other);
                }
            }
        }
        index += 1;
    }
    let ghost walked = cells@;
    let mut index: usize = 0;
    while index < route.blocks.len()
        invariant
            index <= route.blocks.len(),
            world.wf(),
            is_sorted(cells@),
            forall|cell: Position| #[trigger]
                cells@.contains(cell) <==> walked.contains(cell) || in_bounds(world.size, cell) && is_signal(
                    world.at(cell).kind,
                ) && exists|i: int| 0 <= i < index && (#[trigger] route.blocks@[i]).0 == cell,
        decreases route.blocks.len() - index,
    {
        let cell = route.blocks[index].0;
        let ghost before = cells@;
        if world.size.bound_on(cell) && is_signal_terminal_kind(&world.get(cell).kind) {
            insert_sorted(&mut cells, cell);
        }
        proof {
            assert forall|other: Position| #[trigger] cells@.contains(other) <==> walked.contains(other) || in_bounds(
                world.size,
                other,
            ) && is_signal(world.at(other).kind) && exists|i: int|
                0 <= i < index + 1 && (#[trigger] route.blocks@[i]).0 == other by {
                if before.contains(other) && !walked.contains(other) {
                    let i = choose|i: int| 0 <= i < index && (#[trigger] route.blocks@[i]).0 == other;
                    assert(route.blocks@[i].0 == other);
                }
                if other == cell {
                    assert(route.blocks@[index as int].0 == other);
                }
            }
        }
        index += 1;
    }
    proof {
        assert forall|cell: Position| #[trigger] cells@.contains(cell) <==> is_route_signal(*world, *route, cell) by {
            assert(walked.contains(cell) <==> in_bounds(world.size, cell) && is_signal(world.at(cell).kind)
                && route.path@.contains(cell)) by {
                if route.path@.contains(cell) {
                    let i = choose|i: int| 0 <= i < route.path@.len() && route.path@[i] == cell;
                    assert(route.path@[i] == cell);
                }
            }
        }
    }
    cells
}

/// Whether power gets from one cell to another.
spec fn gets_to<F: Fn(&World3D, Position, Position) -> bool>(
    rule: &F,
    world: World3D,
    cells: Seq<Position>,
    start: int,
    to: int,
) -> bool {
    exists|path: Seq<int>| #[trigger] is_power_path(rule, world, cells, path) && path[0] == start && path.last() == to
}

proof fn power_path_grows<F: Fn(&World3D, Position, Position) -> bool>(
    rule: &F,
    world: World3D,
    cells: Seq<Position>,
    path: Seq<int>,
    to: int,
)
    requires
        is_power_path(rule, world, cells, path),
        feeds_on(rule, world, cells, path.last(), to),
    ensures
        is_power_path(rule, world, cells, path.push(to)),
{
    let longer = path.push(to);
    assert forall|k: int| 0 < k < longer.len() implies feeds_along(rule, world, cells, longer, k) by {
        if k < path.len() {
            assert(feeds_along(rule, world, cells, path, k));
            assert(longer[k] == path[k]);
        }
        assert(longer[k - 1] == path[k - 1]);
    }
}

proof fn members_hold_path<F: Fn(&World3D, Position, Position) -> bool>(
    rule: &F,
    world: World3D,
    cells: Seq<Position>,
    members: Seq<usize>,
    path: Seq<int>,
    count: int,
)
    requires
        is_power_path(rule, world, cells, path),
        0 < count <= path.len(),
        0 <= path[0] < cells.len() <= usize::MAX,
        members.contains(path[0] as usize),
        forall|from: int, to: int|
            #![trigger feeds_on(rule, world, cells, from, to)]
            members.contains(from as usize) && feeds_on(rule, world, cells, from, to) ==> members.contains(to as usize),
    ensures
        0 <= path[count - 1] < cells.len(),
        members.contains(path[count - 1] as usize),
    decreases count,
{
    if count > 1 {
        members_hold_path(rule, world, cells, members, path, count - 1);
        assert(feeds_along(rule, world, cells, path, count - 1));
        assert(feeds_on(rule, world, cells, path[count - 2], path[count - 1]));
    }
}

fn lists(members: &Vec<usize>, index: usize) -> (found: bool)
    ensures
        found == members@.contains(index),
{
    let mut at: usize = 0;
    while at < members.len()
        invariant
            at <= members.len(),
            forall|k: int| 0 <= k < at ==> #[trigger] members@[k] != index,
        decreases members.len() - at,
    {
        if members[at] == index {
            assert(members@[at as int] == index);
            return true;
        }
        at += 1;
    }
    false
}

fn returns_to<F: Fn(&World3D, Position, Position) -> bool>(
    rule: &F,
    world: &World3D,
    cells: &Vec<Position>,
    start: usize,
) -> (back: bool)
    requires
        is_rule(rule),
        start < cells.len(),
    ensures
        back == comes_back(rule, *world, cells@, start as int),
{
    let ghost w = *world;
    let ghost list = cells@;
    let count: usize = cells.len();
    let mut members: Vec<usize> = vec![start];
    proof {
        let path = seq![start as int];
        assert(is_power_path(rule, w, list, path));
        assert(path.last() == start as int);
        assert(gets_to(rule, w, list, start as int, start as int));
        assert(members@[0] == start);
    }
    let mut head: usize = 0;
    while head < members.len()
        invariant
            is_rule(rule),
            w == *world,
            list == cells@,
            count == list.len(),
            start < count,
            head <= members.len(),
            members@.no_duplicates(),
            members@.contains(start),
            forall|k: int|
                0 <= k < members.len() ==> (#[trigger] members@[k]) < count && gets_to(
                    rule,
                    w,
                    list,
                    start as int,
                    members@[k] as int,
                ),
            forall|k: int, to: int|
                #![trigger feeds_on(rule, w, list, members@[k] as int, to)]
                0 <= k < head && feeds_on(rule, w, list, members@[k] as int, to) ==> members@.contains(to as usize) && to
                    != start,
        decreases count - head,
    {
        proof {
            distinct_below(members@, count as nat);
        }
        let from: usize = members[head];
        let ghost begun = members@;
        let mut to: usize = 0;
        while to < count
            invariant
                is_rule(rule),
                w == *world,
                list == cells@,
                count == list.len(),
                start < count,
                to <= count,
                from < count,
                head < begun.len() <= members.len(),
                from == begun[head as int],
                members@.take(begun.len() as int) == begun,
                members@.no_duplicates(),
                members@.contains(start),
                forall|k: int|
                    0 <= k < members.len() ==> (#[trigger] members@[k]) < count && gets_to(
                        rule,
                        w,
                        list,
                        start as int,
                        members@[k] as int,
                    ),
                forall|i: usize| #[trigger] begun.contains(i) ==> members@.contains(i),
                forall|other: int|
                    #![trigger feeds_on(rule, w, list, from as int, other)]
                    0 <= other < to && feeds_on(rule, w, list, from as int, other) ==> members@.contains(other as usize)
                        && other != start,
            decreases count - to,
        {
            let ghost before = members@;
            let fed = if from != to {
                rule(world, cells[from], cells[to])
            } else {
                false
            };
            if fed {
                proof {
                    assert(feeds_on(rule, w, list, from as int, to as int));
                    assert(members@[head as int] == members@.take(begun.len() as int)[head as int]);
                    assert(gets_to(rule, w, list, start as int, members@[head as int] as int));
                    let path = choose|path: Seq<int>| #[trigger]
                        is_power_path(rule, w, list, path) && path[0] == start as int && path.last() == from as int;
                    power_path_grows(rule, w, list, path, to as int);
                    let longer = path.push(to as int);
                    assert(longer[0] == start as int && longer.last() == to as int && longer.len() > 1);
                    assert(gets_to(rule, w, list, start as int, to as int));
                }
                if to == start {
                    assert(comes_back(rule, w, list, start as int));
                    return true;
                }
                if !lists(&members, to) {
                    members.push(to);
                    proof {
                        assert(members@.take(begun.len() as int) =~= before.take(begun.len() as int));
                        assert(members@[before.len() as int] == to);
                        assert forall|i: usize| #[trigger] before.contains(i) implies members@.contains(i) by {
                            let k = choose|k: int| 0 <= k < before.len() && before[k] == i;
                            assert(members@[k] == i);
                        }
                        assert forall|a: int, b: int|
                            0 <= a < members.len() && 0 <= b < members.len() && a != b implies members@[a] != members@[b] by {
                            if a == before.len() {
                                assert(before[b] == members@[b]);
                                assert(before.contains(before[b]));
                            } else if b == before.len() {
                                assert(before[a] == members@[a]);
                                assert(before.contains(before[a]));
                            }
                        }
                    }
                }
            }
            proof {
                assert forall|other: int|
                    #![trigger feeds_on(rule, w, list, from as int, other)]
                    0 <= other < to + 1 && feeds_on(rule, w, list, from as int, other) implies members@.contains(
                    other as usize,
                ) && other != start by {
                    if other < to {
                        assert(before.contains(other as usize));
                    }
                }
            }
            to += 1;
        }
        proof {
            assert forall|k: int, other: int|
                #![trigger feeds_on(rule, w, list, members@[k] as int, other)]
                0 <= k < head + 1 && feeds_on(rule, w, list, members@[k] as int, other) implies members@.contains(
                other as usize,
            ) && other != start by {
                assert(members@[k] == members@.take(begun.len() as int)[k]);
                if k < head {
                    assert(feeds_on(rule, w, list, begun[k] as int, other));
                    assert(begun.contains(other as usize));
                }
            }
        }
        head += 1;
    }
    proof {
        if comes_back(rule, w, list, start as int) {
            let path = choose|path: Seq<int>| #[trigger]
                is_power_path(rule, w, list, path) && path.len() > 1 && path[0] == start as int && path.last()
                    == start as int;
            assert forall|from: int, to: int|
                #![trigger feeds_on(rule, w, list, from, to)]
                members@.contains(from as usize) && feeds_on(rule, w, list, from, to) implies members@.contains(
                to as usize,
            ) by {
                let k = choose|k: int| 0 <= k < members.len() && members@[k] == from as usize;
                assert(feeds_on(rule, w, list, members@[k] as int, to));
            }
            members_hold_path(rule, w, list, members@, path, path.len() - 1);
            let near = path[path.len() - 2];
            assert(feeds_along(rule, w, list, path, path.len() - 1));
            let k = choose|k: int| 0 <= k < members.len() && members@[k] == near as usize;
            assert(feeds_on(rule, w, list, members@[k] as int, start as int));
            assert(false);
        }
    }
    false
}

/// What looking for a loop in a route comes to.
pub open spec fn is_loop_check<F: Fn(&World3D, Position, Position) -> bool>(
    rule: &F,
    world: World3D,
    route: RoutedNet,
    found: bool,
) -> bool {
    exists|cells: Seq<Position>| #[trigger] are_route_signals(world, route, cells) && found == has_loop(rule, world, cells)
}

/// Whether a route feeds itself.
pub fn route_has_signal_feedback_cycle<F: Fn(&World3D, Position, Position) -> bool>(
    rule: &F,
    world: &World3D,
    route: &RoutedNet,
) -> (found: bool)
    requires
        is_rule(rule),
        world.wf(),
    ensures
        is_loop_check(rule, *world, *route, found),
{
    let cells = route_signals(world, route);
    assert(are_route_signals(*world, *route, cells@));
    let mut index: usize = 0;
    while index < cells.len()
        invariant
            index <= cells.len(),
            is_rule(rule),
            world.wf(),
            are_route_signals(*world, *route, cells@),
            forall|start: int|
                0 <= start < index && world.at(cells@[start]).kind is Repeater ==> !(#[trigger] comes_back(
                    rule,
                    *world,
                    cells@,
                    start,
                )),
        decreases cells.len() - index,
    {
        if world.get(cells[index]).kind.is_repeater() {
            let back = returns_to(rule, world, &cells, index);
            if back {
                assert(comes_back(rule, *world, cells@, index as int));
                assert(has_loop(rule, *world, cells@));
                return true;
            }
        }
        index += 1;
    }
    false
}

// ---------------------------------------------------------------------------
// Reasons
// ---------------------------------------------------------------------------
/// Why a route does not do.
#[derive(Clone, Copy, Debug, PartialEq, Eq, Structural)]
pub enum RouteFault {
    FeedbackCycle,
    NotPowered,
    NotReleased,
}

/// The message of a fault.
pub open spec fn fault_chars(fault: RouteFault) -> Seq<char> {
    match fault {
        RouteFault::FeedbackCycle => "route contains a self-sustaining signal feedback cycle"@,
        RouteFault::NotPowered => "active source does not power all required route positions"@,
        RouteFault::NotReleased => "switch-off source still powers at least one required route position"@,
    }
}

impl RouteFault {
    /// The fault in words.
    pub fn message(&self) -> (text: &'static str)
        ensures
            text@ == fault_chars(*self),
    {
        match self {
            RouteFault::FeedbackCycle => "route contains a self-sustaining signal feedback cycle",
            RouteFault::NotPowered => "active source does not power all required route positions",
            RouteFault::NotReleased => "switch-off source still powers at least one required route position",
        }
    }
}

/// What checking a route comes to: loops are looked for first, then power, then
/// its release; the last two not where they are deferred.
pub open spec fn is_fault_check<
    F: Fn(&World3D, Position, Position) -> bool,
    S: Fn(&World3D, Position, Option<bool>, &Vec<Position>) -> Option<Vec<bool>>,
>(
    rule: &F,
    settle: &S,
    validation: RouteValidationMode,
    before: World3D,
    after: World3D,
    route: RoutedNet,
    fault: Option<RouteFault>,
) -> bool {
    exists|looped: bool| #[trigger]
        is_loop_check(rule, after, route, looped) && if looped {
            fault == Some(RouteFault::FeedbackCycle)
        } else if validation == RouteValidationMode::Deferred {
            fault is None
        } else {
            exists|powered: bool| #[trigger]
                is_power_check(settle, before, after, route, powered) && if !powered {
                    fault == Some(RouteFault::NotPowered)
                } else {
                    exists|released: bool| #[trigger]
                        is_release_check(settle, after, route, released) && fault == (if released {
                            None
                        } else {
                            Some(RouteFault::NotReleased)
                        })
                }
        }
}

/// Why a route does not do, if it does not.
pub fn eager_route_failure_reason<
    F: Fn(&World3D, Position, Position) -> bool,
    S: Fn(&World3D, Position, Option<bool>, &Vec<Position>) -> Option<Vec<bool>>,
>(
    rule: &F,
    settle: &S,
    validation: RouteValidationMode,
    before: &World3D,
    after: &World3D,
    route: &RoutedNet,
) -> (fault: Option<RouteFault>)
    requires
        is_rule(rule),
        is_settler(settle),
        before.wf(),
        after.wf(),
    ensures
        is_fault_check(rule, settle, validation, *before, *after, *route, fault),
{
    let looped = route_has_signal_feedback_cycle(rule, after, route);
    assert(is_loop_check(rule, *after, *route, looped));
    if looped {
        return Some(RouteFault::FeedbackCycle);
    }
    if validation == RouteValidationMode::Deferred {
        return None;
    }
    let powered = active_route_powers_sink(settle, before, after, route);
    assert(is_power_check(settle, *before, *after, *route, powered));
    if !powered {
        return Some(RouteFault::NotPowered);
    }
    let released = switch_route_releases_required_positions_when_off(settle, after, route);
    assert(is_release_check(settle, *after, *route, released));
    if !released {
        return Some(RouteFault::NotReleased);
    }
    None
}

/// Whether a route does what it is to do.
pub fn route_power_contract_holds<
    F: Fn(&World3D, Position, Position) -> bool,
    S: Fn(&World3D, Position, Option<bool>, &Vec<Position>) -> Option<Vec<bool>>,
>(rule: &F, settle: &S, before: &World3D, after: &World3D, route: &RoutedNet) -> (holds: bool)
    requires
        is_rule(rule),
        is_settler(settle),
        before.wf(),
        after.wf(),
    ensures
        is_contract_check(rule, settle, *before, *after, *route, holds),
{
    let fault = eager_route_failure_reason(rule, settle, RouteValidationMode::Incremental, before, after, route);
    assert(is_fault_check(rule, settle, RouteValidationMode::Incremental, *before, *after, *route, fault));
    fault.is_none()
}

/// What checking that a route does what it is to do comes to.
pub open spec fn is_contract_check<
    F: Fn(&World3D, Position, Position) -> bool,
    S: Fn(&World3D, Position, Option<bool>, &Vec<Position>) -> Option<Vec<bool>>,
>(rule: &F, settle: &S, before: World3D, after: World3D, route: RoutedNet, holds: bool) -> bool {
    exists|fault: Option<RouteFault>| #[trigger]
        is_fault_check(rule, settle, RouteValidationMode::Incremental, before, after, route, fault) && holds == (
        fault is None)
}

/// Whether a tentative route does. Cheap strategies are not simulated, since
/// the whole world is checked in the end.
pub fn route_candidate_powers_sink<S: Fn(&World3D, Position, Option<bool>, &Vec<Position>) -> Option<Vec<bool>>>(
    settle: &S,
    before: &World3D,
    after: &World3D,
    route: &RoutedNet,
    strategy: GlobalRoutingStrategy,
) -> (accepted: bool)
    requires
        is_settler(settle),
        before.wf(),
        after.wf(),
    ensures
        if strategy is DirectGreedy || strategy is GreedyBeam {
            accepted
        } else {
            is_power_check(settle, *before, *after, *route, accepted)
        },
{
    match strategy {
        GlobalRoutingStrategy::DirectGreedy { .. } | GlobalRoutingStrategy::GreedyBeam { .. } => true,
        _ => active_route_powers_sink(settle, before, after, route),
    }
}

/// The index of the first route that does not do what it is to do.
pub fn first_invalid_active_route<
    F: Fn(&World3D, Position, Position) -> bool,
    S: Fn(&World3D, Position, Option<bool>, &Vec<Position>) -> Option<Vec<bool>>,
>(rule: &F, settle: &S, world: &World3D, routes: &Vec<RoutedNet>) -> (found: Option<usize>)
    requires
        is_rule(rule),
        is_settler(settle),
        world.wf(),
    ensures
        match found {
            Some(index) => {
                &&& index < routes.len()
                &&& is_contract_check(rule, settle, *world, *world, routes[index as int], false)
                &&& forall|i: int|
                    0 <= i < index ==> is_contract_check(rule, settle, *world, *world, #[trigger] routes[i], true)
            },
            None => forall|i: int|
                0 <= i < routes.len() ==> is_contract_check(rule, settle, *world, *world, #[trigger] routes[i], true),
        },
{
    let mut index: usize = 0;
    while index < routes.len()
        invariant
            index <= routes.len(),
            is_rule(rule),
            is_settler(settle),
            world.wf(),
            forall|i: int|
                0 <= i < index ==> is_contract_check(rule, settle, *world, *world, #[trigger] routes@[i], true),
        decreases routes.len() - index,
    {
        if !route_power_contract_holds(rule, settle, world, world, &routes[index]) {
            return Some(index);
        }
        index += 1;
    }
    None
}

} // verus!

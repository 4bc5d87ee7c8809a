//! What it takes for a route to pass.

use super::route::RoutedNet;
use super::validation::{
    are_route_signals, asked_cells, comes_back, feeds_along, feeds_on, has_loop, is_contract_check, is_fault_check,
    is_loop_check, is_power_check, is_power_path, is_release_check, just_source, settles, RouteFault,
    RouteValidationMode,
};
use crate::transform::place_and_route::global_pnr::dust::says;
use crate::world::block::BlockKind;
use crate::world::grid::World3D;
use crate::world::position::{in_bounds, Position};
use vstd::prelude::*;

verus! {

/// Whether a simulation always settles, and then shows which cells have power:
/// in a world, with the switch of a source left alone or set.
pub open spec fn shows<S: Fn(&World3D, Position, Option<bool>, &Vec<Position>) -> Option<Vec<bool>>>(
    settle: &S,
    lit: spec_fn(World3D, Position, Option<bool>, Position) -> bool,
) -> bool {
    forall|world: World3D, source: Position, setting: Option<bool>, cells: Seq<Position>, powers: Option<Seq<bool>>| #[trigger]
        settles(settle, world, source, setting, cells, powers) ==> {
            &&& powers is Some
            &&& powers->0.len() == cells.len()
            &&& forall|i: int| 0 <= i < cells.len() ==> #[trigger] powers->0[i] == lit(world, source, setting, cells[i])
        }
}

/// Whether what stands at a source can be watched: dust, a torch, a repeater or a
/// switch.
pub open spec fn can_be_watched(kind: BlockKind) -> bool {
    match kind {
        BlockKind::Redstone { .. } => true,
        BlockKind::Torch { .. } => true,
        BlockKind::Repeater { .. } => true,
        BlockKind::Switch { .. } => true,
        _ => false,
    }
}

/// Whether a route powers what it is to power: its source, switched on, keeps the
/// power that it had, and does not have power while one of the cells that are to
/// have it has none.
pub open spec fn powers_its_cells(
    lit: spec_fn(World3D, Position, Option<bool>, Position) -> bool,
    before: World3D,
    after: World3D,
    route: RoutedNet,
) -> bool {
    let source = route.source;
    let watched = can_be_watched(before.at(source).kind) || can_be_watched(after.at(source).kind);
    watched ==> {
        &&& lit(before, source, None, source) ==> lit(after, source, Some(true), source)
        &&& forall|cell: Position|
            lit(after, source, Some(true), source) && route.required_powered_positions@.contains(cell) ==> #[trigger] lit(
                after,
                source,
                Some(true),
                cell,
            )
    }
}

/// Whether a route lets go of what it is to let go of: none of those cells has
/// power where its source is a switch that is off.
pub open spec fn releases_its_cells(
    lit: spec_fn(World3D, Position, Option<bool>, Position) -> bool,
    world: World3D,
    route: RoutedNet,
) -> bool {
    world.at(route.source).kind is Switch ==> forall|cell: Position|
        route.required_released_positions@.contains(cell) ==> !(#[trigger] lit(world, route.source, Some(false), cell))
}

/// The power check of a route tells whether it powers what it is to power.
pub proof fn power_check_watches_all_cells<
    S: Fn(&World3D, Position, Option<bool>, &Vec<Position>) -> Option<Vec<bool>>,
>(
    settle: &S,
    lit: spec_fn(World3D, Position, Option<bool>, Position) -> bool,
    before: World3D,
    after: World3D,
    route: RoutedNet,
    accepted: bool,
)
    requires
        shows(settle, lit),
        is_power_check(settle, before, after, route, accepted),
    ensures
        accepted == powers_its_cells(lit, before, after, route),
{
    let source = route.source;
    if can_be_watched(before.at(source).kind) || can_be_watched(after.at(source).kind) {
        let old_powers = choose|old_powers: Option<Seq<bool>>| #[trigger]
            settles(settle, before, source, None, just_source(route), old_powers) && match old_powers {
                None => !accepted,
                Some(old_powers) => exists|powers: Option<Seq<bool>>| #[trigger]
                    settles(settle, after, source, Some(true), asked_cells(route), powers) && match powers {
                        None => !accepted,
                        Some(powers) => {
                            let lost = old_powers[0] && !powers[0];
                            accepted == (!lost && (!powers[0] || super::validation::all_on(powers.skip(1))))
                        },
                    },
            };
        assert(old_powers->0[0] == lit(before, source, None, just_source(route)[0]));
        let powers = choose|powers: Option<Seq<bool>>| #[trigger]
            settles(settle, after, source, Some(true), asked_cells(route), powers) && match powers {
                None => !accepted,
                Some(powers) => {
                    let lost = old_powers->0[0] && !powers[0];
                    accepted == (!lost && (!powers[0] || super::validation::all_on(powers.skip(1))))
                },
            };
        let cells = asked_cells(route);
        let required = route.required_powered_positions@;
        let answers = powers->0;
        assert(cells[0] == source);
        assert(answers[0] == lit(after, source, Some(true), cells[0]));
        assert(answers.len() == cells.len());
        if super::validation::all_on(answers.skip(1)) {
            assert forall|cell: Position| required.contains(cell) implies #[trigger] lit(
                after,
                source,
                Some(true),
                cell,
            ) by {
                let i = choose|i: int| 0 <= i < required.len() && required[i] == cell;
                assert(answers.skip(1)[i]);
                assert(answers[i + 1] == lit(after, source, Some(true), cells[i + 1]));
            }
        } else {
            let i = choose|i: int| 0 <= i < answers.skip(1).len() && !(#[trigger] answers.skip(1)[i]);
            assert(answers[i + 1] == lit(after, source, Some(true), cells[i + 1]));
            assert(cells[i + 1] == required[i]);
            assert(required.contains(required[i]));
            assert(!lit(after, source, Some(true), required[i]));
        }
    }
}

/// The release check of a route tells whether it lets go of what it is to let go
/// of.
pub proof fn release_check_watches_all_cells<
    S: Fn(&World3D, Position, Option<bool>, &Vec<Position>) -> Option<Vec<bool>>,
>(
    settle: &S,
    lit: spec_fn(World3D, Position, Option<bool>, Position) -> bool,
    world: World3D,
    route: RoutedNet,
    accepted: bool,
)
    requires
        shows(settle, lit),
        is_release_check(settle, world, route, accepted),
    ensures
        accepted == releases_its_cells(lit, world, route),
{
    let source = route.source;
    let required = route.required_released_positions@;
    if world.at(source).kind is Switch {
        let powers = choose|powers: Option<Seq<bool>>| #[trigger]
            settles(settle, world, source, Some(false), required, powers) && match powers {
                None => !accepted,
                Some(powers) => accepted == super::validation::none_on(powers),
            };
        let answers = powers->0;
        assert(answers.len() == required.len());
        if super::validation::none_on(answers) {
            assert forall|cell: Position| required.contains(cell) implies !(#[trigger] lit(
                world,
                source,
                Some(false),
                cell,
            )) by {
                let i = choose|i: int| 0 <= i < required.len() && required[i] == cell;
                assert(!answers[i]);
                assert(answers[i] == lit(world, source, Some(false), required[i]));
            }
        } else {
            let i = choose|i: int| 0 <= i < answers.len() && #[trigger] answers[i];
            assert(answers[i] == lit(world, source, Some(false), required[i]));
            assert(required.contains(required[i]));
        }
    }
}

/// A route whose world does not settle with its source switched on, or off where
/// it is a switch, does not pass.
pub proof fn unsettled_route_does_not_pass<
    S: Fn(&World3D, Position, Option<bool>, &Vec<Position>) -> Option<Vec<bool>>,
>(settle: &S, before: World3D, after: World3D, route: RoutedNet, accepted: bool)
    requires
        forall|setting: Option<bool>, cells: Seq<Position>, powers: Option<Seq<bool>>| #[trigger]
            settles(settle, after, route.source, setting, cells, powers) ==> powers is None,
    ensures
        (can_be_watched(before.at(route.source).kind) || can_be_watched(after.at(route.source).kind))
            && is_power_check(settle, before, after, route, accepted) ==> !accepted,
        after.at(route.source).kind is Switch && is_release_check(settle, after, route, accepted) ==> !accepted,
{
}

// ---------------------------------------------------------------------------
// Loops
// ---------------------------------------------------------------------------
/// Whether a cell of a world belongs to a route and carries or makes a signal.
pub open spec fn is_of_route(world: World3D, route: RoutedNet, cell: Position) -> bool {
    &&& in_bounds(world.size, cell)
    &&& match world.at(cell).kind {
        BlockKind::Redstone { .. } => true,
        BlockKind::Switch { .. } => true,
        BlockKind::Torch { .. } => true,
        BlockKind::Repeater { .. } => true,
        BlockKind::RedstoneBlock => true,
        _ => false,
    }
    &&& route.path@.contains(cell) || exists|i: int|
        0 <= i < route.blocks@.len() && (#[trigger] route.blocks@[i]).0 == cell
}

pub open spec fn passes_on<F: Fn(&World3D, Position, Position) -> bool>(
    rule: &F,
    world: World3D,
    route: RoutedNet,
    round: Seq<Position>,
    k: int,
) -> bool {
    &&& is_of_route(world, route, round[k - 1])
    &&& is_of_route(world, route, round[k])
    &&& round[k - 1] != round[k]
    &&& says(rule, world, round[k - 1], round[k])
}

/// Whether cells of a route are a round in which power comes back to a repeater.
pub open spec fn is_round<F: Fn(&World3D, Position, Position) -> bool>(
    rule: &F,
    world: World3D,
    route: RoutedNet,
    round: Seq<Position>,
) -> bool {
    &&& round.len() > 1
    &&& world.at(round[0]).kind is Repeater
    &&& round.last() == round[0]
    &&& forall|k: int| 0 < k < round.len() ==> #[trigger] passes_on(rule, world, route, round, k)
}

/// Whether a route feeds itself.
pub open spec fn feeds_itself<F: Fn(&World3D, Position, Position) -> bool>(
    rule: &F,
    world: World3D,
    route: RoutedNet,
) -> bool {
    exists|round: Seq<Position>| #[trigger] is_round(rule, world, route, round)
}

spec fn index_in(cells: Seq<Position>, cell: Position) -> int {
    choose|i: int| 0 <= i < cells.len() && cells[i] == cell
}

/// The search for loops finds out whether a route feeds itself.
pub proof fn loops_are_found<F: Fn(&World3D, Position, Position) -> bool>(
    rule: &F,
    world: World3D,
    route: RoutedNet,
    found: bool,
)
    requires
        is_loop_check(rule, world, route, found),
    ensures
        found == feeds_itself(rule, world, route),
{
    let cells = choose|cells: Seq<Position>| #[trigger]
        are_route_signals(world, route, cells) && found == has_loop(rule, world, cells);
    assert forall|cell: Position| #[trigger] cells.contains(cell) <==> is_of_route(world, route, cell) by {}
    if has_loop(rule, world, cells) {
        let start = choose|start: int|
            0 <= start < cells.len() && world.at(cells[start]).kind is Repeater && #[trigger] comes_back(
                rule,
                world,
                cells,
                start,
            );
        let path = choose|path: Seq<int>| #[trigger]
            is_power_path(rule, world, cells, path) && path.len() > 1 && path[0] == start && path.last() == start;
        let round = Seq::new(path.len(), |k: int| cells[path[k]]);
        assert forall|k: int| 0 < k < round.len() implies #[trigger] passes_on(rule, world, route, round, k) by {
            assert(feeds_along(rule, world, cells, path, k));
            assert(cells.contains(cells[path[k - 1]]));
            assert(cells.contains(cells[path[k]]));
            assert(path[k - 1] != path[k]);
        }
        assert(is_round(rule, world, route, round));
    }
    if feeds_itself(rule, world, route) {
        let round = choose|round: Seq<Position>| #[trigger] is_round(rule, world, route, round);
        let path = Seq::new(round.len(), |k: int| index_in(cells, round[k]));
        assert forall|k: int| 0 <= k < round.len() implies 0 <= #[trigger] path[k] < cells.len() && cells[path[k]]
            == round[k] by {
            if k > 0 {
                assert(passes_on(rule, world, route, round, k));
            } else {
                assert(passes_on(rule, world, route, round, 1));
            }
            assert(cells.contains(round[k]));
        }
        assert forall|k: int| 0 < k < path.len() implies feeds_along(rule, world, cells, path, k) by {
            assert(passes_on(rule, world, route, round, k));
            assert(cells[path[k - 1]] == round[k - 1]);
            assert(cells[path[k]] == round[k]);
            assert(feeds_on(rule, world, cells, path[k - 1], path[k]));
        }
        assert(is_power_path(rule, world, cells, path));
        assert(path.last() == path[0]);
        assert(comes_back(rule, world, cells, path[0]));
        assert(cells[path[0]] == round[0]);
        assert(has_loop(rule, world, cells));
    }
}

// ---------------------------------------------------------------------------
// Reasons
// ---------------------------------------------------------------------------
/// A route that is checked at once passes where it does not feed itself, powers
/// what it is to power and lets go of it again; the first of these that fails is
/// the reason that is given. Where the check is deferred only a route that feeds
/// itself is refused.
pub proof fn reasons_are_told<
    F: Fn(&World3D, Position, Position) -> bool,
    S: Fn(&World3D, Position, Option<bool>, &Vec<Position>) -> Option<Vec<bool>>,
>(
    rule: &F,
    settle: &S,
    lit: spec_fn(World3D, Position, Option<bool>, Position) -> bool,
    validation: RouteValidationMode,
    before: World3D,
    after: World3D,
    route: RoutedNet,
    fault: Option<RouteFault>,
)
    requires
        shows(settle, lit),
        is_fault_check(rule, settle, validation, before, after, route, fault),
    ensures
        fault == Some(RouteFault::FeedbackCycle) <==> feeds_itself(rule, after, route),
        fault == Some(RouteFault::NotPowered) <==> validation == RouteValidationMode::Incremental && !feeds_itself(
            rule,
            after,
            route,
        ) && !powers_its_cells(lit, before, after, route),
        fault == Some(RouteFault::NotReleased) <==> validation == RouteValidationMode::Incremental && !feeds_itself(
            rule,
            after,
            route,
        ) && powers_its_cells(lit, before, after, route) && !releases_its_cells(lit, after, route),
        fault is None <==> !feeds_itself(rule, after, route) && (validation == RouteValidationMode::Incremental ==> powers_its_cells(
            lit,
            before,
            after,
            route,
        ) && releases_its_cells(lit, after, route)),
{
    let looped = choose|looped: bool| #[trigger]
        is_loop_check(rule, after, route, looped) && if looped {
            fault == Some(RouteFault::FeedbackCycle)
        } else if validation == RouteValidationMode::Deferred {
            fault is None
        } else {
            exists|powered: bool| #[trigger]
                is_power_check(settle, before, after, route, powered) && if !powered {
                    fault == Some(RouteFault::NotPowered)
                } else {
                    exists|released: bool| #[trigger]
                        is_release_check(settle, after, route, released) && fault == (if released {
                            None
                        } else {
                            Some(RouteFault::NotReleased)
                        })
                }
        };
    loops_are_found(rule, after, route, looped);
    if !looped && validation != RouteValidationMode::Deferred {
        let powered = choose|powered: bool| #[trigger]
            is_power_check(settle, before, after, route, powered) && if !powered {
                fault == Some(RouteFault::NotPowered)
            } else {
                exists|released: bool| #[trigger]
                    is_release_check(settle, after, route, released) && fault == (if released {
                        None
                    } else {
                        Some(RouteFault::NotReleased)
                    })
            };
        power_check_watches_all_cells(settle, lit, before, after, route, powered);
        if powered {
            let released = choose|released: bool| #[trigger]
                is_release_check(settle, after, route, released) && fault == (if released {
                    None
                } else {
                    Some(RouteFault::NotReleased)
                });
            release_check_watches_all_cells(settle, lit, after, route, released);
        }
    }
}

/// A route does what it is to do where it does not feed itself, powers what it is
/// to power and lets go of it again.
pub proof fn passing_routes_do_their_work<
    F: Fn(&World3D, Position, Position) -> bool,
    S: Fn(&World3D, Position, Option<bool>, &Vec<Position>) -> Option<Vec<bool>>,
>(
    rule: &F,
    settle: &S,
    lit: spec_fn(World3D, Position, Option<bool>, Position) -> bool,
    before: World3D,
    after: World3D,
    route: RoutedNet,
    holds: bool,
)
    requires
        shows(settle, lit),
        is_contract_check(rule, settle, before, after, route, holds),
    ensures
        holds <==> !feeds_itself(rule, after, route) && powers_its_cells(lit, before, after, route)
            && releases_its_cells(lit, after, route),
{
    let fault = choose|fault: Option<RouteFault>| #[trigger]
        is_fault_check(rule, settle, RouteValidationMode::Incremental, before, after, route, fault) && holds == (
        fault is None);
    reasons_are_told(rule, settle, lit, RouteValidationMode::Incremental, before, after, route, fault);
}

} // verus!

//! How a signal fades along dust.

use super::taps::{are_all_taps, are_powered, is_tap, strength_of, strength_within, within, TapKey};
use crate::order::{comes_before, is_ascending};
use crate::transform::place_and_route::global_pnr::dust::{is_joined, is_powered_dust, says};
use crate::world::grid::World3D;
use crate::world::position::{distance, Position};
use vstd::prelude::*;

verus! {

/// Whether two of the blocks of a world are next to each other on the way of a
/// signal: the second is dust, and one of them powers the other.
pub open spec fn flows<F: Fn(&World3D, Position, Position) -> bool>(
    rule: &F,
    world: World3D,
    from: int,
    to: int,
) -> bool {
    let blocks = world.listed();
    &&& 0 <= from < blocks.len()
    &&& 0 <= to < blocks.len()
    &&& blocks[to].1.kind is Redstone
    &&& says(rule, world, blocks[from].0, blocks[to].0) || says(rule, world, blocks[to].0, blocks[from].0)
}

pub open spec fn flows_at<F: Fn(&World3D, Position, Position) -> bool>(
    rule: &F,
    world: World3D,
    course: Seq<int>,
    k: int,
) -> bool {
    flows(rule, world, course[k - 1], course[k])
}

/// Whether blocks are the way of a signal: it begins in dust that the source
/// powers, and goes on from dust to dust.
pub open spec fn is_course<F: Fn(&World3D, Position, Position) -> bool>(
    rule: &F,
    world: World3D,
    source: Position,
    course: Seq<int>,
) -> bool {
    &&& course.len() > 0
    &&& 0 <= course[0] < world.listed().len()
    &&& world.listed()[course[0]].1.kind is Redstone
    &&& says(rule, world, source, world.listed()[course[0]].0)
    &&& forall|k: int| 0 < k < course.len() ==> #[trigger] flows_at(rule, world, course, k)
}

/// Whether a signal gets to a block on a way of some length.
pub open spec fn leads_to<F: Fn(&World3D, Position, Position) -> bool>(
    rule: &F,
    world: World3D,
    source: Position,
    course: Seq<int>,
    index: int,
) -> bool {
    is_course(rule, world, source, course) && course.last() == index
}

proof fn within_has_course<F: Fn(&World3D, Position, Position) -> bool>(
    rule: &F,
    world: World3D,
    source: Position,
    seeds: Seq<usize>,
    joins: nat,
    index: int,
) -> (course: Seq<int>)
    requires
        are_powered(rule, world, source, seeds),
        within(rule, world, seeds, joins, index),
    ensures
        leads_to(rule, world, source, course, index),
        course.len() <= joins + 1,
    decreases joins,
{
    if joins == 0 {
        assert(is_powered_dust(rule, world, source, index));
        let course = seq![index];
        assert(leads_to(rule, world, source, course, index));
        course
    } else if within(rule, world, seeds, (joins - 1) as nat, index) {
        within_has_course(rule, world, source, seeds, (joins - 1) as nat, index)
    } else {
        let from = choose|from: int| #[trigger]
            is_joined(rule, world, from, index) && within(rule, world, seeds, (joins - 1) as nat, from);
        let shorter = within_has_course(rule, world, source, seeds, (joins - 1) as nat, from);
        let course = shorter.push(index);
        assert forall|k: int| 0 < k < course.len() implies #[trigger] flows_at(rule, world, course, k) by {
            if k < shorter.len() {
                assert(flows_at(rule, world, shorter, k));
            }
        }
        assert(leads_to(rule, world, source, course, index));
        course
    }
}

proof fn within_grows<F: Fn(&World3D, Position, Position) -> bool>(
    rule: &F,
    world: World3D,
    seeds: Seq<usize>,
    low: nat,
    high: nat,
    index: int,
)
    requires
        low <= high,
        within(rule, world, seeds, low, index),
    ensures
        within(rule, world, seeds, high, index),
    decreases high,
{
    if low < high {
        within_grows(rule, world, seeds, low, (high - 1) as nat, index);
    }
}

proof fn course_is_within<F: Fn(&World3D, Position, Position) -> bool>(
    rule: &F,
    world: World3D,
    source: Position,
    seeds: Seq<usize>,
    course: Seq<int>,
    index: int,
)
    requires
        world.listed().len() <= usize::MAX,
        are_powered(rule, world, source, seeds),
        leads_to(rule, world, source, course, index),
    ensures
        within(rule, world, seeds, (course.len() - 1) as nat, index),
    decreases course.len(),
{
    if course.len() == 1 {
        assert(is_powered_dust(rule, world, source, index));
    } else {
        let shorter = course.drop_last();
        let from = shorter.last();
        assert forall|k: int| 0 < k < shorter.len() implies #[trigger] flows_at(rule, world, shorter, k) by {
            assert(flows_at(rule, world, course, k));
        }
        course_is_within(rule, world, source, seeds, shorter, from);
        assert(flows_at(rule, world, course, course.len() - 1));
        assert(is_joined(rule, world, from, index));
    }
}

proof fn strength_is_exact<F: Fn(&World3D, Position, Position) -> bool>(
    rule: &F,
    world: World3D,
    seeds: Seq<usize>,
    joins: nat,
    index: int,
)
    requires
        joins <= 15,
    ensures
        ({
            let strength = strength_within(rule, world, seeds, joins, index);
            &&& strength == 0 <==> forall|fewer: nat| fewer < joins ==> !(#[trigger] within(
                rule,
                world,
                seeds,
                fewer,
                index,
            ))
            &&& strength > 0 ==> {
                &&& 15 - joins < strength <= 15
                &&& within(rule, world, seeds, (15 - strength) as nat, index)
                &&& forall|fewer: nat| fewer < 15 - strength ==> !(#[trigger] within(rule, world, seeds, fewer, index))
            }
        }),
    decreases joins,
{
    if joins > 0 {
        strength_is_exact(rule, world, seeds, (joins - 1) as nat, index);
        let known = strength_within(rule, world, seeds, (joins - 1) as nat, index);
        if known > 0 {
            assert(within(rule, world, seeds, (15 - known) as nat, index));
        } else if within(rule, world, seeds, (joins - 1) as nat, index) {
            assert(strength_within(rule, world, seeds, joins, index) == 15 - (joins - 1));
        } else {
            assert forall|fewer: nat| fewer < joins implies !(#[trigger] within(rule, world, seeds, fewer, index)) by {
                if fewer == joins - 1 {
                } else {
                    assert(fewer < joins - 1);
                }
            }
        }
    }
}

/// Where the signal of a source gets to dust on a way, it is there at least as
/// strong as that way leaves it: fifteen in dust that the source powers, and one
/// less for each block more. Where it has a strength, there is a way that leaves it
/// just that.
pub proof fn signal_fades_along_its_course<F: Fn(&World3D, Position, Position) -> bool>(
    rule: &F,
    world: World3D,
    source: Position,
    seeds: Seq<usize>,
    index: int,
)
    requires
        world.listed().len() <= usize::MAX,
        are_powered(rule, world, source, seeds),
    ensures
        strength_of(rule, world, seeds, index) <= 15,
        forall|course: Seq<int>| #[trigger]
            leads_to(rule, world, source, course, index) ==> strength_of(rule, world, seeds, index) + course.len()
                >= 16,
        strength_of(rule, world, seeds, index) > 0 ==> exists|course: Seq<int>| #[trigger]
            leads_to(rule, world, source, course, index) && course.len() + strength_of(rule, world, seeds, index) == 16,
{
    let strength = strength_of(rule, world, seeds, index);
    strength_is_exact(rule, world, seeds, 15, index);
    assert forall|course: Seq<int>| #[trigger] leads_to(rule, world, source, course, index) implies strength
        + course.len() >= 16 by {
        course_is_within(rule, world, source, seeds, course, index);
        if strength + course.len() < 16 {
            let joins = (course.len() - 1) as nat;
            assert(within(rule, world, seeds, joins, index));
            if strength > 0 {
                assert(joins < 15 - strength);
            } else {
                assert(joins < 15);
            }
        }
    }
    if strength > 0 {
        let course = within_has_course(rule, world, source, seeds, (15 - strength) as nat, index);
        assert(leads_to(rule, world, source, course, index));
        assert(strength + course.len() >= 16);
    }
}

/// The taps of a source are in the dust that its signal gets to in fewer than
/// sixteen blocks: of each such block there is one, and of two taps the one that
/// is nearer to the sink comes first, and where both are as near the stronger one.
pub proof fn taps_are_where_the_signal_is<F: Fn(&World3D, Position, Position) -> bool>(
    rule: &F,
    world: World3D,
    source: Position,
    sink: Position,
    taps: Seq<TapKey>,
)
    requires
        world.listed().len() <= usize::MAX,
        are_all_taps(rule, world, source, sink, taps),
    ensures
        forall|k: int| 0 <= k < taps.len() ==> #[trigger] is_good_tap(rule, world, source, taps[k]),
        forall|course: Seq<int>, index: int| #[trigger]
            leads_to(rule, world, source, course, index) && course.len() <= 15 ==> has_tap_at(
                taps,
                world.listed()[index].0,
            ),
        forall|i: int, j: int|
            0 <= i < j < taps.len() && distance((#[trigger] taps[i]).cell, sink) <= usize::MAX && distance(
                (#[trigger] taps[j]).cell,
                sink,
            ) <= usize::MAX ==> distance(taps[i].cell, sink) < distance(taps[j].cell, sink) || distance(
                taps[i].cell,
                sink,
            ) == distance(taps[j].cell, sink) && taps[i].strength >= taps[j].strength,
{
    let seeds = choose|seeds: Seq<usize>| #[trigger]
        are_powered(rule, world, source, seeds) && is_ascending(taps) && forall|tap: TapKey| #[trigger]
            taps.contains(tap) <==> exists|i: int| #[trigger] is_tap(rule, world, seeds, source, sink, tap, i);
    assert forall|k: int| 0 <= k < taps.len() implies #[trigger] is_good_tap(rule, world, source, taps[k]) by {
        assert(taps.contains(taps[k]));
        let i = choose|i: int| #[trigger] is_tap(rule, world, seeds, source, sink, taps[k], i);
        signal_fades_along_its_course(rule, world, source, seeds, i);
        let course = choose|course: Seq<int>| #[trigger]
            leads_to(rule, world, source, course, i) && course.len() + strength_of(rule, world, seeds, i) == 16;
        assert(leads_to(rule, world, source, course, i));
    }
    assert forall|course: Seq<int>, index: int| #[trigger]
        leads_to(rule, world, source, course, index) && course.len() <= 15 implies has_tap_at(
        taps,
        world.listed()[index].0,
    ) by {
        signal_fades_along_its_course(rule, world, source, seeds, index);
        if course.len() > 1 {
            assert(flows_at(rule, world, course, course.len() - 1));
        }
        let cell = world.listed()[index].0;
        let tap = TapKey {
            to_sink: crate::number::capped(distance(cell, sink)) as usize,
            strength: strength_of(rule, world, seeds, index) as usize,
            to_source: crate::number::capped(distance(cell, source)) as usize,
            cell,
        };
        assert(is_tap(rule, world, seeds, source, sink, tap, index));
        assert(taps.contains(tap));
        let k = choose|k: int| 0 <= k < taps.len() && taps[k] == tap;
        assert(taps[k].cell == cell);
    }
    assert forall|i: int, j: int|
        0 <= i < j < taps.len() && distance((#[trigger] taps[i]).cell, sink) <= usize::MAX && distance(
            (#[trigger] taps[j]).cell,
            sink,
        ) <= usize::MAX implies distance(taps[i].cell, sink) < distance(taps[j].cell, sink) || distance(
        taps[i].cell,
        sink,
    ) == distance(taps[j].cell, sink) && taps[i].strength >= taps[j].strength by {
        assert(taps.contains(taps[i]));
        assert(taps.contains(taps[j]));
        let left = choose|k: int| #[trigger] is_tap(rule, world, seeds, source, sink, taps[i], k);
        let right = choose|k: int| #[trigger] is_tap(rule, world, seeds, source, sink, taps[j], k);
        assert(comes_before(taps[i], taps[j]));
    }
}

/// Whether a tap is in a block that the signal gets to, as strong as the shortest
/// way leaves it.
pub open spec fn is_good_tap<F: Fn(&World3D, Position, Position) -> bool>(
    rule: &F,
    world: World3D,
    source: Position,
    tap: TapKey,
) -> bool {
    exists|course: Seq<int>, index: int| #[trigger]
        leads_to(rule, world, source, course, index) && world.listed()[index].0 == tap.cell && tap.strength
            + course.len() == 16 && tap.strength > 0 && forall|other: Seq<int>| #[trigger]
            leads_to(rule, world, source, other, index) ==> other.len() >= course.len()
}

/// Whether there is a tap in a cell.
pub open spec fn has_tap_at(taps: Seq<TapKey>, cell: Position) -> bool {
    exists|k: int| 0 <= k < taps.len() && (#[trigger] taps[k]).cell == cell
}

} // verus!

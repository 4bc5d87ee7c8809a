//! How far the power of a block spreads through dust, and where it can be taken
//! up.

use super::state::MAX_REDSTONE_STRENGTH;
use crate::order::{insert_ascending, is_ascending, SortKey, TotalKey};
use crate::transform::place_and_route::global_pnr::dust::{is_joined, is_powered_dust, is_rule, powered_dust};
use crate::world::grid::World3D;
use crate::world::position::{distance, position_before, Position};
use crate::number::capped;
use vstd::prelude::*;

verus! {

/// Whether power gets from some blocks to another in a number of joins.
pub open spec fn within<F: Fn(&World3D, Position, Position) -> bool>(
    rule: &F,
    world: World3D,
    seeds: Seq<usize>,
    joins: nat,
    index: int,
) -> bool
    decreases joins,
{
    if joins == 0 {
        0 <= index < world.listed().len() && seeds.contains(index as usize)
    } else {
        ||| within(rule, world, seeds, (joins - 1) as nat, index)
        ||| exists|from: int| #[trigger]
            is_joined(rule, world, from, index) && within(rule, world, seeds, (joins - 1) as nat, from)
    }
}

/// How strong the power of some blocks is in another that it gets to in fewer
/// than a number of joins: it loses one for each join.
pub open spec fn strength_within<F: Fn(&World3D, Position, Position) -> bool>(
    rule: &F,
    world: World3D,
    seeds: Seq<usize>,
    joins: nat,
    index: int,
) -> nat
    decreases joins,
{
    if joins == 0 {
        0
    } else {
        let known = strength_within(rule, world, seeds, (joins - 1) as nat, index);
        if known > 0 {
            known
        } else if within(rule, world, seeds, (joins - 1) as nat, index) {
            (MAX_REDSTONE_STRENGTH - (joins - 1)) as nat
        } else {
            0
        }
    }
}

/// How strong the power of some blocks is in another.
pub open spec fn strength_of<F: Fn(&World3D, Position, Position) -> bool>(
    rule: &F,
    world: World3D,
    seeds: Seq<usize>,
    index: int,
) -> nat {
    strength_within(rule, world, seeds, MAX_REDSTONE_STRENGTH as nat, index)
}

fn joins_any<F: Fn(&World3D, Position, Position) -> bool>(
    rule: &F,
    world: &World3D,
    reached: &Vec<bool>,
    index: usize,
) -> (joined: bool)
    requires
        is_rule(rule),
        reached.len() == world.listed().len(),
        index < world.listed().len(),
    ensures
        joined == exists|from: int| #[trigger]
            is_joined(rule, *world, from, index as int) && 0 <= from < reached.len() && reached@[from],
{
    if !world.blocks[index].1.kind.is_redstone() {
        return false;
    }
    let mut from: usize = 0;
    while from < reached.len()
        invariant
            from <= reached.len(),
            is_rule(rule),
            reached.len() == world.listed().len(),
            index < world.listed().len(),
            world.listed()[index as int].1.kind is Redstone,
            forall|other: int|
                0 <= other < from && #[trigger] is_joined(rule, *world, other, index as int) ==> !reached@[other],
        decreases reached.len() - from,
    {
        if reached[from] {
            let forth = rule(world, world.blocks[from].0, world.blocks[index].0);
            let joined = forth || rule(world, world.blocks[index].0, world.blocks[from].0);
            if joined {
                assert(is_joined(rule, *world, from as int, index as int));
                return true;
            }
        }
        from += 1;
    }
    false
}

/// How strong the power of some blocks is in every listed block.
pub fn network_strengths<F: Fn(&World3D, Position, Position) -> bool>(
    rule: &F,
    world: &World3D,
    seeds: &Vec<usize>,
) -> (strengths: Vec<usize>)
    requires
        is_rule(rule),
    ensures
        strengths.len() == world.listed().len(),
        forall|i: int| 0 <= i < strengths.len() ==> #[trigger] strengths@[i] == strength_of(rule, *world, seeds@, i),
{
    let count: usize = world.blocks.len();
    let ghost w = *world;
    let mut reached: Vec<bool> = Vec::new();
    let mut strengths: Vec<usize> = Vec::new();
    let mut index: usize = 0;
    while index < count
        invariant
            index <= count,
            count == w.listed().len(),
            reached.len() == index,
            strengths.len() == index,
            forall|i: int| 0 <= i < index ==> #[trigger] reached@[i] == within(rule, w, seeds@, 0, i),
            forall|i: int| 0 <= i < index ==> #[trigger] strengths@[i] == 0,
        decreases count - index,
    {
        reached.push(is_seed(seeds, index));
        strengths.push(0);
        index += 1;
    }
    let mut joins: usize = 0;
    while joins < MAX_REDSTONE_STRENGTH
        invariant
            joins <= MAX_REDSTONE_STRENGTH,
            w == *world,
            is_rule(rule),
            count == w.listed().len(),
            reached.len() == count,
            strengths.len() == count,
            forall|i: int| 0 <= i < count ==> #[trigger] reached@[i] == within(rule, w, seeds@, joins as nat, i),
            forall|i: int|
                0 <= i < count ==> #[trigger] strengths@[i] == strength_within(rule, w, seeds@, joins as nat, i),
        decreases MAX_REDSTONE_STRENGTH - joins,
    {
        let ghost now = reached@;
        let ghost known = strengths@;
        let mut next: Vec<bool> = Vec::new();
        let mut index: usize = 0;
        while index < count
            invariant
                index <= count,
                joins < MAX_REDSTONE_STRENGTH,
                w == *world,
                is_rule(rule),
                count == w.listed().len(),
                reached@ == now,
                now.len() == count,
                known.len() == count,
                strengths.len() == count,
                next.len() == index,
                forall|i: int| 0 <= i < count ==> #[trigger] now[i] == within(rule, w, seeds@, joins as nat, i),
                forall|i: int|
                    0 <= i < count ==> #[trigger] known[i] == strength_within(rule, w, seeds@, joins as nat, i),
                forall|i: int|
                    0 <= i < index ==> #[trigger] next@[i] == within(rule, w, seeds@, (joins + 1) as nat, i),
                forall|i: int|
                    0 <= i < index ==> #[trigger] strengths@[i] == strength_within(
                        rule,
                        w,
                        seeds@,
                        (joins + 1) as nat,
                        i,
                    ),
                forall|i: int| index <= i < count ==> #[trigger] strengths@[i] == known[i],
            decreases count - index,
        {
            let there = reached[index];
            assert(now[index as int] == within(rule, w, seeds@, joins as nat, index as int));
            assert(strengths@[index as int] == known[index as int]);
            if there && strengths[index] == 0 {
                strengths[index] = MAX_REDSTONE_STRENGTH - joins;
            }
            let further = there || joins_any(rule, world, &reached, index);
            proof {
                let at = index as int;
                if exists|from: int| #[trigger]
                    is_joined(rule, w, from, at) && 0 <= from < now.len() && now[from] {
                    let from = choose|from: int| #[trigger]
                        is_joined(rule, w, from, at) && 0 <= from < now.len() && now[from];
                    assert(within(rule, w, seeds@, joins as nat, from));
                }
                if exists|from: int| #[trigger]
                    is_joined(rule, w, from, at) && within(rule, w, seeds@, joins as nat, from) {
                    let from = choose|from: int| #[trigger]
                        is_joined(rule, w, from, at) && within(rule, w, seeds@, joins as nat, from);
                    assert(now[from]);
                }
                assert(further == within(rule, w, seeds@, (joins + 1) as nat, at));
            }
            next.push(further);
            index += 1;
        }
        reached = next;
        joins += 1;
    }
    strengths
}

fn is_seed(seeds: &Vec<usize>, index: usize) -> (found: bool)
    ensures
        found == seeds@.contains(index),
{
    let mut at: usize = 0;
    while at < seeds.len()
        invariant
            at <= seeds.len(),
            forall|k: int| 0 <= k < at ==> #[trigger] seeds@[k] != index,
        decreases seeds.len() - at,
    {
        if seeds[at] == index {
            assert(seeds@[at as int] == index);
            return true;
        }
        at += 1;
    }
    false
}

// ---------------------------------------------------------------------------
// Taps
// ---------------------------------------------------------------------------
/// A cell where the power of a source can be taken up, with what it is judged
/// by.
#[derive(Clone, Copy, Debug, PartialEq, Eq, Structural)]
pub struct TapKey {
    pub to_sink: usize,
    pub strength: usize,
    pub to_source: usize,
    pub cell: Position,
}

impl SortKey for TapKey {
    open spec fn before(&self, other: &Self) -> bool {
        if self.to_sink != other.to_sink {
            self.to_sink < other.to_sink
        } else if self.strength != other.strength {
            self.strength > other.strength
        } else if self.to_source != other.to_source {
            self.to_source < other.to_source
        } else {
            position_before(self.cell, other.cell)
        }
    }

    fn is_before(&self, other: &Self) -> (before: bool) {
        if self.to_sink != other.to_sink {
            self.to_sink < other.to_sink
        } else if self.strength != other.strength {
            self.strength > other.strength
        } else if self.to_source != other.to_source {
            self.to_source < other.to_source
        } else {
            self.cell.is_before(&other.cell)
        }
    }

    proof fn before_asymmetric(&self, other: &Self) {
    }

    proof fn not_before_transitive(&self, middle: &Self, other: &Self) {
    }
}

impl TotalKey for TapKey {
    proof fn before_total(&self, other: &Self) {
    }
}

/// The indices of the dust that a source powers.
pub open spec fn are_powered<F: Fn(&World3D, Position, Position) -> bool>(
    rule: &F,
    world: World3D,
    source: Position,
    seeds: Seq<usize>,
) -> bool {
    forall|i: int|
        0 <= i < world.listed().len() ==> (seeds.contains(i as usize) <==> #[trigger] is_powered_dust(
            rule,
            world,
            source,
            i,
        ))
}

/// Whether a tap is one of a source, for a route to a sink.
pub open spec fn is_tap<F: Fn(&World3D, Position, Position) -> bool>(
    rule: &F,
    world: World3D,
    seeds: Seq<usize>,
    source: Position,
    sink: Position,
    tap: TapKey,
    index: int,
) -> bool {
    &&& 0 <= index < world.listed().len()
    &&& tap.cell == world.listed()[index].0
    &&& tap.strength == strength_of(rule, world, seeds, index)
    &&& tap.strength > 0
    &&& tap.to_sink == capped(distance(tap.cell, sink))
    &&& tap.to_source == capped(distance(tap.cell, source))
}

/// Whether taps are all those of a source, for a route to a sink: the nearest to
/// the sink first, of those the strongest, and of those the nearest to the
/// source.
pub open spec fn are_all_taps<F: Fn(&World3D, Position, Position) -> bool>(
    rule: &F,
    world: World3D,
    source: Position,
    sink: Position,
    taps: Seq<TapKey>,
) -> bool {
    exists|seeds: Seq<usize>| #[trigger]
        are_powered(rule, world, source, seeds) && is_ascending(taps) && forall|tap: TapKey| #[trigger]
            taps.contains(tap) <==> exists|i: int| #[trigger] is_tap(rule, world, seeds, source, sink, tap, i)
}

/// The cells where the power of a source can be taken up, for a route to a sink.
pub fn routeable_output_taps<F: Fn(&World3D, Position, Position) -> bool>(
    rule: &F,
    world: &World3D,
    source: Position,
    sink: Position,
) -> (taps: Vec<TapKey>)
    requires
        is_rule(rule),
    ensures
        are_all_taps(rule, *world, source, sink, taps@),
{
    let total: usize = world.blocks.len();
    let seeds = powered_dust(rule, world, source);
    let strengths = network_strengths(rule, world, &seeds);
    proof {
        assert forall|i: int| 0 <= i < world.listed().len() implies (seeds@.contains(i as usize)
            <==> #[trigger] is_powered_dust(rule, *world, source, i)) by {
            assert(i < total);
            if seeds@.contains(i as usize) {
                let k = choose|k: int| 0 <= k < seeds.len() && seeds@[k] == i as usize;
                assert(is_powered_dust(rule, *world, source, seeds@[k] as int));
            }
        }
    }
    let mut taps: Vec<TapKey> = Vec::new();
    let mut index: usize = 0;
    while index < total
        invariant
            index <= total,
            total == world.listed().len(),
            strengths.len() == total,
            forall|i: int| 0 <= i < strengths.len() ==> #[trigger] strengths@[i] == strength_of(rule, *world, seeds@, i),
            is_ascending(taps@),
            forall|tap: TapKey| #[trigger]
                taps@.contains(tap) <==> exists|i: int|
                    0 <= i < index && #[trigger] is_tap(rule, *world, seeds@, source, sink, tap, i),
        decreases total - index,
    {
        let ghost before = taps@;
        let cell = world.blocks[index].0;
        let strength: usize = strengths[index];
        let added = TapKey {
            to_sink: cell.capped_distance(&sink),
            strength,
            to_source: cell.capped_distance(&source),
            cell,
        };
        if strength > 0 {
            insert_ascending(&mut taps, added);
        }
        proof {
            assert(strengths@[index as int] == strength_of(rule, *world, seeds@, index as int));
            assert forall|tap: TapKey| #[trigger] taps@.contains(tap) <==> exists|i: int|
                0 <= i < index + 1 && #[trigger] is_tap(rule, *world, seeds@, source, sink, tap, i) by {
                if before.contains(tap) {
                    let i = choose|i: int|
                        0 <= i < index && #[trigger] is_tap(rule, *world, seeds@, source, sink, tap, i);
                    assert(is_tap(rule, *world, seeds@, source, sink, tap, i));
                }
                if strength > 0 && tap == added {
                    assert(is_tap(rule, *world, seeds@, source, sink, tap, index as int));
                }
                if exists|i: int|
                    0 <= i < index + 1 && #[trigger] is_tap(rule, *world, seeds@, source, sink, tap, i) {
                    let i = choose|i: int|
                        0 <= i < index + 1 && #[trigger] is_tap(rule, *world, seeds@, source, sink, tap, i);
                    if i < index {
                        assert(before.contains(tap));
                    } else {
                        assert(tap == added);
                    }
                }
            }
        }
        index += 1;
    }
    proof {
        assert forall|tap: TapKey| #[trigger] taps@.contains(tap) <==> exists|i: int| #[trigger]
            is_tap(rule, *world, seeds@, source, sink, tap, i) by {
            if exists|i: int| #[trigger] is_tap(rule, *world, seeds@, source, sink, tap, i) {
                let i = choose|i: int| #[trigger] is_tap(rule, *world, seeds@, source, sink, tap, i);
                assert(0 <= i < index && is_tap(rule, *world, seeds@, source, sink, tap, i));
            }
        }
        assert(are_powered(rule, *world, source, seeds@));
    }
    taps
}

} // verus!

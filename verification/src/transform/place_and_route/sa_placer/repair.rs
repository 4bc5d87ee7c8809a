//! Moving overlapping macros apart.

use crate::world::position::{DimSize, Position};
use vstd::prelude::*;

verus! {

/// The number of cells that two spans of cells have in common.
pub open spec fn overlap_along(min_a: usize, max_a: usize, min_b: usize, max_b: usize) -> int {
    let low = if min_a >= min_b { min_a } else { min_b };
    let high = if max_a <= max_b { max_a } else { max_b };
    if high < low {
        0
    } else {
        high - low + 1
    }
}

fn axis_overlap(min_a: usize, max_a: usize, min_b: usize, max_b: usize) -> (count: usize)
    requires
        max_a < usize::MAX,
    ensures
        count == overlap_along(min_a, max_a, min_b, max_b),
{
    let low: usize = if min_a >= min_b {
        min_a
    } else {
        min_b
    };
    let high: usize = if max_a <= max_b {
        max_a
    } else {
        max_b
    };
    if high < low {
        0
    } else {
        high - low + 1
    }
}

/// Whether a box has a cell along every axis and leaves room to move by its own
/// size.
pub open spec fn has_room(position: Position, size: DimSize) -> bool {
    &&& size.0 > 0 && 2 * position.0 + 2 * size.0 <= usize::MAX
    &&& size.1 > 0 && 2 * position.1 + 2 * size.1 <= usize::MAX
    &&& size.2 > 0 && 2 * position.2 + 2 * size.2 <= usize::MAX
}

/// Whether all boxes have room, where they are and at the far end of the world.
pub open spec fn have_room(sizes: Seq<DimSize>, positions: Seq<Position>, world: DimSize) -> bool {
    &&& sizes.len() == positions.len()
    &&& forall|i: int|
        0 <= i < sizes.len() ==> has_room(#[trigger] positions[i], sizes[i]) && has_room(
            Position(world.0, world.1, world.2),
            sizes[i],
        )
}

/// The last cell of a box.
pub open spec fn last_cell(position: Position, size: DimSize) -> Position {
    Position(
        (position.0 + size.0 - 1) as usize,
        (position.1 + size.1 - 1) as usize,
        (position.2 + size.2 - 1) as usize,
    )
}

fn last_cell_of(position: Position, size: DimSize) -> (last: Position)
    requires
        has_room(position, size),
    ensures
        last == last_cell(position, size),
{
    Position(position.0 + size.0 - 1, position.1 + size.1 - 1, position.2 + size.2 - 1)
}

/// How many cells two boxes have in common along x, y and height.
pub open spec fn box_overlap(sizes: Seq<DimSize>, positions: Seq<Position>, low: int, high: int) -> (int, int, int) {
    let low_max = last_cell(positions[low], sizes[low]);
    let high_max = last_cell(positions[high], sizes[high]);
    (
        overlap_along(positions[low].0, low_max.0, positions[high].0, high_max.0),
        overlap_along(positions[low].1, low_max.1, positions[high].1, high_max.1),
        overlap_along(positions[low].2, low_max.2, positions[high].2, high_max.2),
    )
}

/// Two boxes that overlap.
#[derive(Clone, Copy, Debug)]
pub struct OverlappingPair {
    pub low: usize,
    pub high: usize,
    /// The cells in common along x, y and height.
    pub overlap: (usize, usize, usize),
}

/// Two boxes and what they have in common.
pub open spec fn pair_of(sizes: Seq<DimSize>, positions: Seq<Position>, low: int, high: int) -> OverlappingPair {
    let overlap = box_overlap(sizes, positions, low, high);
    OverlappingPair {
        low: low as usize,
        high: high as usize,
        overlap: (overlap.0 as usize, overlap.1 as usize, overlap.2 as usize),
    }
}

/// Whether two boxes overlap.
pub open spec fn boxes_overlap(sizes: Seq<DimSize>, positions: Seq<Position>, low: int, high: int) -> bool {
    let overlap = box_overlap(sizes, positions, low, high);
    overlap.0 > 0 && overlap.1 > 0 && overlap.2 > 0
}

/// The pairs of overlapping boxes that come before `(low, high)`.
pub open spec fn pairs_before(sizes: Seq<DimSize>, positions: Seq<Position>, low: nat, high: nat) -> Seq<
    OverlappingPair,
>
    decreases low, high,
{
    if high > low + 1 {
        let rest = pairs_before(sizes, positions, low, (high - 1) as nat);
        if boxes_overlap(sizes, positions, low as int, high - 1) {
            rest.push(pair_of(sizes, positions, low as int, high - 1))
        } else {
            rest
        }
    } else if low > 0 {
        pairs_before(sizes, positions, (low - 1) as nat, sizes.len())
    } else {
        Seq::empty()
    }
}

/// The pairs of overlapping boxes.
pub open spec fn all_pairs(sizes: Seq<DimSize>, positions: Seq<Position>) -> Seq<OverlappingPair> {
    pairs_before(sizes, positions, sizes.len(), sizes.len() + 1)
}

fn overlapping_pairs(sizes: &Vec<DimSize>, positions: &Vec<Position>, world: DimSize) -> (pairs: Vec<OverlappingPair>)
    requires
        have_room(sizes@, positions@, world),
    ensures
        pairs@ == all_pairs(sizes@, positions@),
{
    let ghost s = sizes@;
    let ghost p = positions@;
    let mut pairs: Vec<OverlappingPair> = Vec::new();
    let mut low: usize = 0;
    while low < sizes.len()
        invariant
            s == sizes@,
            p == positions@,
            have_room(s, p, world),
            low <= sizes.len(),
            pairs@ == pairs_before(s, p, low as nat, (low + 1) as nat),
        decreases sizes.len() - low,
    {
        let low_min = positions[low];
        assert(has_room(p[low as int], s[low as int]));
        let low_max = last_cell_of(low_min, sizes[low]);
        let mut high: usize = low + 1;
        while high < sizes.len()
            invariant
                s == sizes@,
                p == positions@,
                have_room(s, p, world),
                low < high <= sizes.len(),
                low_min == p[low as int],
                has_room(p[low as int], s[low as int]),
                low_max == last_cell(low_min, s[low as int]),
                pairs@ == pairs_before(s, p, low as nat, high as nat),
            decreases sizes.len() - high,
        {
            let high_min = positions[high];
            assert(has_room(p[high as int], s[high as int]));
            let high_max = last_cell_of(high_min, sizes[high]);
            let overlap = (
                axis_overlap(low_min.0, low_max.0, high_min.0, high_max.0),
                axis_overlap(low_min.1, low_max.1, high_min.1, high_max.1),
                axis_overlap(low_min.2, low_max.2, high_min.2, high_max.2),
            );
            if overlap.0 > 0 && overlap.1 > 0 && overlap.2 > 0 {
                pairs.push(OverlappingPair { low, high, overlap });
            }
            high += 1;
        }
        low += 1;
    }
    pairs
}

/// Where a box of a size may stand in a world: at its own place, or else as far
/// out as it fits.
pub open spec fn clamped(origin: Position, size: DimSize, world: DimSize) -> Position {
    Position(
        clamped_along(origin.0, size.0, world.0),
        clamped_along(origin.1, size.1, world.1),
        clamped_along(origin.2, size.2, world.2),
    )
}

pub open spec fn clamped_along(origin: usize, size: usize, world: usize) -> usize {
    let limit = if world >= size { (world - size) as usize } else { 0 };
    if origin <= limit {
        origin
    } else {
        limit
    }
}

fn clamp_along(origin: usize, size: usize, world: usize) -> (place: usize)
    ensures
        place == clamped_along(origin, size, world),
{
    let limit: usize = if world >= size {
        world - size
    } else {
        0
    };
    if origin <= limit {
        origin
    } else {
        limit
    }
}

/// Where a box of a size may stand in a world.
pub fn clamp_origin(origin: Position, size: DimSize, world: DimSize) -> (place: Position)
    ensures
        place == clamped(origin, size, world),
{
    Position(
        clamp_along(origin.0, size.0, world.0),
        clamp_along(origin.1, size.1, world.1),
        clamp_along(origin.2, size.2, world.2),
    )
}

/// The axes, the one with the smallest overlap first.
pub open spec fn axes_by_overlap(overlap: (usize, usize, usize)) -> (int, int, int) {
    let (x, y, z) = overlap;
    if x <= y {
        if y <= z {
            (0, 1, 2)
        } else if x <= z {
            (0, 2, 1)
        } else {
            (2, 0, 1)
        }
    } else {
        if x <= z {
            (1, 0, 2)
        } else if y <= z {
            (1, 2, 0)
        } else {
            (2, 1, 0)
        }
    }
}

/// The middle of a span, rounded down.
pub open spec fn middle(min: usize, max: usize) -> int {
    (min + max) / 2
}

/// A coordinate moved by a distance, forward where the box is not in front of
/// the other one.
pub open spec fn pushed(place: usize, distance: usize, forward: bool) -> usize {
    if forward {
        (place + distance) as usize
    } else if place >= distance {
        (place - distance) as usize
    } else {
        0
    }
}

/// The place of the second box of a pair after a push along an axis.
pub open spec fn pushed_along(
    sizes: Seq<DimSize>,
    positions: Seq<Position>,
    pair: OverlappingPair,
    world: DimSize,
    axis: int,
) -> Position {
    let low_min = positions[pair.low as int];
    let low_max = last_cell(low_min, sizes[pair.low as int]);
    let high_min = positions[pair.high as int];
    let high_max = last_cell(high_min, sizes[pair.high as int]);
    let next = if axis == 0 {
        Position(
            pushed(high_min.0, pair.overlap.0, middle(high_min.0, high_max.0) >= middle(low_min.0, low_max.0)),
            high_min.1,
            high_min.2,
        )
    } else if axis == 1 {
        Position(
            high_min.0,
            pushed(high_min.1, pair.overlap.1, middle(high_min.1, high_max.1) >= middle(low_min.1, low_max.1)),
            high_min.2,
        )
    } else {
        Position(
            high_min.0,
            high_min.1,
            pushed(high_min.2, pair.overlap.2, middle(high_min.2, high_max.2) >= middle(low_min.2, low_max.2)),
        )
    };
    clamped(next, sizes[pair.high as int], world)
}

/// The place of the second box of a pair after the first push that moves it:
/// along the axis of the smallest overlap, the next, or the last.
pub open spec fn separated(
    sizes: Seq<DimSize>,
    positions: Seq<Position>,
    pair: OverlappingPair,
    world: DimSize,
) -> Position {
    let here = positions[pair.high as int];
    let axes = axes_by_overlap(pair.overlap);
    let first = pushed_along(sizes, positions, pair, world, axes.0);
    let second = pushed_along(sizes, positions, pair, world, axes.1);
    if first != here {
        first
    } else if second != here {
        second
    } else {
        pushed_along(sizes, positions, pair, world, axes.2)
    }
}

fn push_along(place: usize, distance: usize, forward: bool) -> (next: usize)
    requires
        place + distance <= usize::MAX,
    ensures
        next == pushed(place, distance, forward),
{
    if forward {
        place + distance
    } else if place >= distance {
        place - distance
    } else {
        0
    }
}

/// Whether a pair names two boxes, with an overlap no larger than the second.
pub open spec fn pair_fits(sizes: Seq<DimSize>, pair: OverlappingPair) -> bool {
    &&& pair.low < sizes.len()
    &&& pair.high < sizes.len()
    &&& 0 < pair.overlap.0 <= sizes[pair.high as int].0
    &&& 0 < pair.overlap.1 <= sizes[pair.high as int].1
    &&& 0 < pair.overlap.2 <= sizes[pair.high as int].2
}

fn try_axis(
    sizes: &Vec<DimSize>,
    positions: &Vec<Position>,
    pair: OverlappingPair,
    world: DimSize,
    axis: usize,
) -> (next: Position)
    requires
        have_room(sizes@, positions@, world),
        pair_fits(sizes@, pair),
    ensures
        next == pushed_along(sizes@, positions@, pair, world, axis as int),
{
    assert(has_room(positions@[pair.low as int], sizes@[pair.low as int]));
    assert(has_room(positions@[pair.high as int], sizes@[pair.high as int]));
    let low_min = positions[pair.low];
    let low_max = last_cell_of(low_min, sizes[pair.low]);
    let high_min = positions[pair.high];
    let size = sizes[pair.high];
    let high_max = last_cell_of(high_min, size);
    let next = if axis == 0 {
        let forward = (high_min.0 + high_max.0) / 2 >= (low_min.0 + low_max.0) / 2;
        Position(push_along(high_min.0, pair.overlap.0, forward), high_min.1, high_min.2)
    } else if axis == 1 {
        let forward = (high_min.1 + high_max.1) / 2 >= (low_min.1 + low_max.1) / 2;
        Position(high_min.0, push_along(high_min.1, pair.overlap.1, forward), high_min.2)
    } else {
        let forward = (high_min.2 + high_max.2) / 2 >= (low_min.2 + low_max.2) / 2;
        Position(high_min.0, high_min.1, push_along(high_min.2, pair.overlap.2, forward))
    };
    clamp_origin(next, size, world)
}

fn order_axes(overlap: (usize, usize, usize)) -> (axes: (usize, usize, usize))
    ensures
        (axes.0 as int, axes.1 as int, axes.2 as int) == axes_by_overlap(overlap),
{
    let (x, y, z) = overlap;
    if x <= y {
        if y <= z {
            (0, 1, 2)
        } else if x <= z {
            (0, 2, 1)
        } else {
            (2, 0, 1)
        }
    } else {
        if x <= z {
            (1, 0, 2)
        } else if y <= z {
            (1, 2, 0)
        } else {
            (2, 1, 0)
        }
    }
}

/// Pushes the second box of a pair away from the first, and tells whether it
/// moved.
fn separate_pair(
    sizes: &Vec<DimSize>,
    positions: &mut Vec<Position>,
    pair: OverlappingPair,
    world: DimSize,
) -> (moved: bool)
    requires
        have_room(sizes@, old(positions)@, world),
        pair_fits(sizes@, pair),
    ensures
        have_room(sizes@, final(positions)@, world),
        final(positions)@ == old(positions)@.update(
            pair.high as int,
            separated(sizes@, old(positions)@, pair, world),
        ),
        moved == (final(positions)@ != old(positions)@),
{
    let ghost before = positions@;
    let (first, second, third) = order_axes(pair.overlap);
    let here = positions[pair.high];
    let mut next = try_axis(sizes, positions, pair, world, first);
    if next == here {
        next = try_axis(sizes, positions, pair, world, second);
    }
    if next == here {
        next = try_axis(sizes, positions, pair, world, third);
    }
    positions[pair.high] = next;
    proof {
        let size = sizes@[pair.high as int];
        assert(has_room(before[pair.high as int], size));
        assert(positions@ =~= before.update(pair.high as int, next));
        assert forall|i: int| 0 <= i < sizes@.len() implies has_room(#[trigger] positions@[i], sizes@[i]) && has_room(
            Position(world.0, world.1, world.2),
            sizes@[i],
        ) by {
            assert(has_room(before[i], sizes@[i]));
        }
        if next == here {
            assert(positions@ =~= before);
        } else {
            assert(positions@[pair.high as int] != before[pair.high as int]);
        }
    }
    next != here
}

/// The places after the first `count` pairs were pushed apart.
pub open spec fn separated_pairs(
    sizes: Seq<DimSize>,
    positions: Seq<Position>,
    pairs: Seq<OverlappingPair>,
    world: DimSize,
    count: nat,
) -> Seq<Position>
    decreases count,
{
    if count == 0 {
        positions
    } else {
        let before = separated_pairs(sizes, positions, pairs, world, (count - 1) as nat);
        let pair = pairs[count - 1];
        before.update(pair.high as int, separated(sizes, before, pair, world))
    }
}

/// The places after a number of rounds, each of which pushes the pairs apart
/// that overlap when it begins.
pub open spec fn repaired(sizes: Seq<DimSize>, positions: Seq<Position>, world: DimSize, rounds: nat) -> Seq<Position>
    decreases rounds,
{
    let pairs = all_pairs(sizes, positions);
    if rounds == 0 || pairs.len() == 0 {
        positions
    } else {
        repaired(sizes, separated_pairs(sizes, positions, pairs, world, pairs.len()), world, (rounds - 1) as nat)
    }
}

proof fn pairs_fit(sizes: Seq<DimSize>, positions: Seq<Position>, world: DimSize, low: nat, high: nat)
    requires
        have_room(sizes, positions, world),
        low < sizes.len() && high <= sizes.len() || low == sizes.len() && high <= sizes.len() + 1,
        sizes.len() <= usize::MAX,
    ensures
        forall|i: int|
            0 <= i < pairs_before(sizes, positions, low, high).len() ==> pair_fits(
                sizes,
                #[trigger] pairs_before(sizes, positions, low, high)[i],
            ),
    decreases low, high,
{
    if high > low + 1 {
        pairs_fit(sizes, positions, world, low, (high - 1) as nat);
        assert(has_room(positions[low as int], sizes[low as int]));
        assert(has_room(positions[high - 1], sizes[high - 1]));
        let rest = pairs_before(sizes, positions, low, (high - 1) as nat);
        let all = pairs_before(sizes, positions, low, high);
        assert forall|i: int| 0 <= i < all.len() implies pair_fits(sizes, #[trigger] all[i]) by {
            if i < rest.len() {
                assert(pair_fits(sizes, rest[i]));
            } else {
                assert(all[i] == pair_of(sizes, positions, low as int, high - 1));
            }
        }
    } else if low > 0 {
        pairs_fit(sizes, positions, world, (low - 1) as nat, sizes.len());
        assert(pairs_before(sizes, positions, low, high) == pairs_before(
            sizes,
            positions,
            (low - 1) as nat,
            sizes.len(),
        ));
    } else {
        assert(pairs_before(sizes, positions, low, high).len() == 0);
    }
}

/// Pushes overlapping boxes apart until none overlap or the rounds are used up,
/// and returns how many pairs still overlap.
pub fn repair_positions(
    sizes: &Vec<DimSize>,
    positions: &mut Vec<Position>,
    world: DimSize,
    rounds: usize,
) -> (remaining: usize)
    requires
        have_room(sizes@, old(positions)@, world),
    ensures
        have_room(sizes@, final(positions)@, world),
        final(positions)@ == repaired(sizes@, old(positions)@, world, rounds as nat),
        remaining == all_pairs(sizes@, final(positions)@).len(),
{
    let ghost s = sizes@;
    let ghost start = positions@;
    let count: usize = sizes.len();
    let mut round: usize = 0;
    while round < rounds
        invariant
            s == sizes@,
            start == old(positions)@,
            round <= rounds,
            count == s.len(),
            have_room(s, positions@, world),
            repaired(s, start, world, rounds as nat) == repaired(s, positions@, world, (rounds - round) as nat),
        decreases rounds - round,
    {
        let pairs = overlapping_pairs(sizes, positions, world);
        if pairs.len() == 0 {
            return 0;
        }
        let ghost here = positions@;
        proof {
            pairs_fit(s, here, world, s.len(), s.len() + 1);
        }
        let mut index: usize = 0;
        while index < pairs.len()
            invariant
                s == sizes@,
                index <= pairs.len(),
                pairs@ == all_pairs(s, here),
                forall|i: int| 0 <= i < pairs.len() ==> pair_fits(s, #[trigger] pairs@[i]),
                have_room(s, positions@, world),
                positions@ == separated_pairs(s, here, pairs@, world, index as nat),
            decreases pairs.len() - index,
        {
            assert(pair_fits(s, pairs@[index as int]));
            let _moved = separate_pair(sizes, positions, pairs[index], world);
            index += 1;
        }
        round += 1;
    }
    overlapping_pairs(sizes, positions, world).len()
}

/// Pairs are of boxes that there are.
pub proof fn pairs_in_range(sizes: Seq<DimSize>, positions: Seq<Position>, low: nat, high: nat)
    requires
        low < sizes.len() && high <= sizes.len() || low == sizes.len() && high <= sizes.len() + 1,
        sizes.len() <= usize::MAX,
    ensures
        forall|i: int|
            0 <= i < pairs_before(sizes, positions, low, high).len() ==> (#[trigger] pairs_before(
                sizes,
                positions,
                low,
                high,
            )[i]).high < sizes.len(),
    decreases low, high,
{
    let all = pairs_before(sizes, positions, low, high);
    if high > low + 1 {
        let rest = pairs_before(sizes, positions, low, (high - 1) as nat);
        pairs_in_range(sizes, positions, low, (high - 1) as nat);
        assert forall|i: int| 0 <= i < all.len() implies (#[trigger] all[i]).high < sizes.len() by {
            if i < rest.len() {
                assert(rest[i].high < sizes.len());
            }
        }
    } else if low > 0 {
        let rest = pairs_before(sizes, positions, (low - 1) as nat, sizes.len());
        pairs_in_range(sizes, positions, (low - 1) as nat, sizes.len());
        assert forall|i: int| 0 <= i < all.len() implies (#[trigger] all[i]).high < sizes.len() by {
            assert(rest[i].high < sizes.len());
        }
    }
}

/// Two boxes that overlap are among the pairs.
pub proof fn pairs_complete(sizes: Seq<DimSize>, positions: Seq<Position>, low: nat, high: nat, left: int, right: int)
    requires
        0 <= left < right < sizes.len(),
        low <= sizes.len(),
        high <= sizes.len() || low == sizes.len(),
        left < low || left == low && right < high,
        boxes_overlap(sizes, positions, left, right),
    ensures
        pairs_before(sizes, positions, low, high).len() > 0,
    decreases low, high,
{
    if high > low + 1 {
        if left < low || right < high - 1 {
            pairs_complete(sizes, positions, low, (high - 1) as nat, left, right);
        }
    } else {
        pairs_complete(sizes, positions, (low - 1) as nat, sizes.len(), left, right);
    }
}

} // verus!

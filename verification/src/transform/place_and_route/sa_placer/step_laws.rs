//! What the steps of placing macros are for: the seed, the pull towards connected pins,
//! the push apart, and the moves that annealing proposes.

use super::measure_laws::covers;
use super::moves::{
    away_from, draw, exchange, is_near, less, more, other_index, random_step, random_steps, reach_of, stepped, translation, Crowd,
};
use super::relax::{coordinate_sum, pins_at, pull, tally, touching_pins};
use super::repair::{clamped, clamped_along, last_cell, middle, overlap_along, pushed};
use super::seed::{
    degree, is_numbered, next_row, pins_on, seed_holds, seed_keys, seed_order, seed_positions, seeded,
    seeding_keeps_apart, shelf_behind, shelf_for, shelves_fit, size_of_instance, stands_inside,
    InitialPlacementConfig, Shelf,
};
use crate::order::{distinct_covers, in_order, stable_order_distinct, stable_order_exists};
use crate::transform::place_and_route::placement_error::PlacementErrorView;
use crate::transform::place_and_route::placement_ir::{MacroInstance, MacroTemplate, PhysicalNet, PinRef};
use crate::transform::place_and_route::placement_problem::{coordinate, net_pins, template_of};
use crate::world::position::{DimSize, Position};
use vstd::prelude::*;
use vstd::set_lib::{lemma_int_range, set_int_range};

verus! {

/// How far two numbers are apart.
pub open spec fn apart(left: int, right: int) -> int {
    if left < right {
        right - left
    } else {
        left - right
    }
}

// ---------------------------------------------------------------------------
// Worlds and boxes
// ---------------------------------------------------------------------------
/// A box that is put into the world stands as near to where it was as it can: at a place
/// where it fits, and at no place where it fits is it nearer.
pub proof fn clamping_is_nearest(origin: usize, size: usize, world: usize, other: int)
    requires
        size <= world,
        0 <= other,
        other + size <= world,
    ensures
        clamped_along(origin, size, world) + size <= world,
        apart(origin as int, clamped_along(origin, size, world) as int) <= apart(origin as int, other),
{
}

/// What two spans have in common along an axis is the number of coordinates that are in
/// both.
pub proof fn overlap_counts_cells(min_a: usize, max_a: usize, min_b: usize, max_b: usize)
    ensures
        overlap_along(min_a, max_a, min_b, max_b) == Set::new(
            |at: int| min_a <= at <= max_a && min_b <= at <= max_b,
        ).len(),
{
    let both = Set::new(|at: int| min_a <= at <= max_a && min_b <= at <= max_b);
    let low = if min_a >= min_b { min_a as int } else { min_b as int };
    let high = if max_a <= max_b { max_a as int } else { max_b as int };
    if high < low {
        assert(both =~= Set::empty());
    } else {
        lemma_int_range(low, high + 1);
        assert(both =~= set_int_range(low, high + 1));
    }
}

/// Whether two spans come within a distance of each other: some coordinate of one is no
/// further from one of the other.
pub open spec fn spans_near(min: usize, max: usize, other_min: usize, other_max: usize, distance: usize) -> bool {
    exists|own: int, other: int|
        min <= own <= max && other_min <= other <= other_max && #[trigger] apart(own, other) <= distance
}

proof fn near_along(min: usize, max: usize, other_min: usize, other_max: usize, distance: usize)
    requires
        min <= max,
        other_min <= other_max,
    ensures
        spans_near(min, max, other_min, other_max, distance) <==> less(min, distance) <= other_max && other_min <= more(
            max,
            distance,
        ),
{
    if less(min, distance) <= other_max && other_min <= more(max, distance) {
        let (own, other) = if max < other_min {
            (max as int, other_min as int)
        } else if other_max < min {
            (min as int, other_max as int)
        } else if min < other_min {
            (other_min as int, other_min as int)
        } else {
            (min as int, min as int)
        };
        assert(apart(own, other) <= distance);
        assert(min <= own <= max && other_min <= other <= other_max);
    }
}

/// A box is near another exactly where it comes within the spacing of it along every
/// axis, whichever of the two is asked about.
pub proof fn nearness_is_within_spacing(min: Position, max: Position, spacing: usize, other_min: Position, other_max: Position)
    requires
        min.0 <= max.0 && min.1 <= max.1 && min.2 <= max.2,
        other_min.0 <= other_max.0 && other_min.1 <= other_max.1 && other_min.2 <= other_max.2,
    ensures
        is_near(min, max, spacing, other_min, other_max) <==> {
            &&& spans_near(min.0, max.0, other_min.0, other_max.0, spacing)
            &&& spans_near(min.1, max.1, other_min.1, other_max.1, spacing)
            &&& spans_near(min.2, max.2, other_min.2, other_max.2, spacing)
        },
        is_near(min, max, spacing, other_min, other_max) == is_near(other_min, other_max, spacing, min, max),
{
    near_along(min.0, max.0, other_min.0, other_max.0, spacing);
    near_along(min.1, max.1, other_min.1, other_max.1, spacing);
    near_along(min.2, max.2, other_min.2, other_max.2, spacing);
    near_along(other_min.0, other_max.0, min.0, max.0, spacing);
    near_along(other_min.1, other_max.1, min.1, max.1, spacing);
    near_along(other_min.2, other_max.2, min.2, max.2, spacing);
}

// ---------------------------------------------------------------------------
// Pushing apart
// ---------------------------------------------------------------------------
/// A push along an axis takes two boxes apart: where the box that is pushed has room in
/// the world, it has no coordinate in common with the other afterwards, unless one of
/// the two spans lies within the other.
pub proof fn push_takes_apart(low: usize, low_size: usize, high: usize, high_size: usize, world: usize)
    requires
        0 < low_size,
        0 < high_size,
        2 * low + 2 * low_size <= usize::MAX,
        2 * high + 2 * high_size <= usize::MAX,
        overlap_along(low, (low + low_size - 1) as usize, high, (high + high_size - 1) as usize) > 0,
        ({
            let overlap = overlap_along(low, (low + low_size - 1) as usize, high, (high + high_size - 1) as usize);
            let forward = middle(high, (high + high_size - 1) as usize) >= middle(low, (low + low_size - 1) as usize);
            &&& overlap < low_size && overlap < high_size
            &&& forward ==> high + overlap + high_size <= world
            &&& !forward ==> high >= overlap && high + high_size <= world
        }),
    ensures
        ({
            let overlap = overlap_along(low, (low + low_size - 1) as usize, high, (high + high_size - 1) as usize);
            let forward = middle(high, (high + high_size - 1) as usize) >= middle(low, (low + low_size - 1) as usize);
            let next = clamped_along(pushed(high, overlap as usize, forward), high_size, world);
            &&& overlap_along(low, (low + low_size - 1) as usize, next, (next + high_size - 1) as usize) == 0
            &&& forall|at: int| !(#[trigger] covers(low, low_size, at) && covers(next, high_size, at))
        }),
{
}

// ---------------------------------------------------------------------------
// Pulling together
// ---------------------------------------------------------------------------
/// The coordinates, along an axis, of those of the first `count` pins that belong to an
/// instance, or to others.
pub open spec fn coordinates_of(
    pins: Seq<PinRef>,
    places: Seq<Position>,
    instance: usize,
    own: bool,
    axis: int,
    count: nat,
) -> Seq<int>
    decreases count,
{
    if count == 0 {
        Seq::empty()
    } else {
        let rest = coordinates_of(pins, places, instance, own, axis, (count - 1) as nat);
        if (pins[count - 1].instance == instance) == own {
            rest.push(coordinate(places[count - 1], axis) as int)
        } else {
            rest
        }
    }
}

/// The sum of numbers.
pub open spec fn sum_of(numbers: Seq<int>) -> int
    decreases numbers.len(),
{
    if numbers.len() == 0 {
        0
    } else {
        sum_of(numbers.drop_last()) + numbers.last()
    }
}

/// The mean of numbers, rounded down.
pub open spec fn mean_of(numbers: Seq<int>) -> int {
    sum_of(numbers) / (numbers.len() as int)
}

proof fn sums_are_sums(
    pins: Seq<PinRef>,
    places: Seq<Position>,
    instance: usize,
    own: bool,
    axis: int,
    count: nat,
)
    ensures
        coordinates_of(pins, places, instance, own, axis, count).len() == tally(pins, instance, own, count),
        sum_of(coordinates_of(pins, places, instance, own, axis, count)) == coordinate_sum(
            pins,
            places,
            instance,
            own,
            axis,
            count,
        ),
    decreases count,
{
    if count > 0 {
        sums_are_sums(pins, places, instance, own, axis, (count - 1) as nat);
        let rest = coordinates_of(pins, places, instance, own, axis, (count - 1) as nat);
        let all = coordinates_of(pins, places, instance, own, axis, count);
        if all.len() > rest.len() {
            assert(all.drop_last() =~= rest);
        }
    }
}

/// Whether a step along an axis leads from one coordinate towards another, no further
/// than that and no further than a limit, and stops short for the limit alone.
pub open spec fn leads_towards(from: int, to: int, step: int, limit: int) -> bool {
    &&& apart(from + step, to) + apart(from, from + step) == apart(from, to)
    &&& apart(from, from + step) <= limit
    &&& from + step != to ==> apart(from, from + step) == limit
}

/// An instance is pulled towards the pins that it is connected to: along each axis it
/// steps from the mean of its own pins towards the mean of the others.
pub proof fn pull_leads_to_connected_pins(
    macros: Seq<MacroTemplate>,
    instances: Seq<MacroInstance>,
    nets: Seq<PhysicalNet>,
    positions: Seq<Position>,
    index: usize,
    limit: int,
)
    requires
        limit >= 0,
        pull(macros, instances, nets, positions, index, limit) is Ok,
    ensures
        ({
            let pins = touching_pins(nets, index, nets.len());
            let places = pins_at(macros, instances, positions, pins, pins.len())->Ok_0;
            let count = pins.len();
            let own = |axis: int| coordinates_of(pins, places, index, true, axis, count);
            let other = |axis: int| coordinates_of(pins, places, index, false, axis, count);
            match pull(macros, instances, nets, positions, index, limit)->Ok_0 {
                Some(step) => {
                    &&& own(0).len() > 0 && other(0).len() > 0
                    &&& leads_towards(mean_of(own(0)), mean_of(other(0)), step.0, limit)
                    &&& leads_towards(mean_of(own(1)), mean_of(other(1)), step.1, limit)
                    &&& leads_towards(mean_of(own(2)), mean_of(other(2)), step.2, limit)
                },
                None => {
                    ||| own(0).len() == 0 || other(0).len() == 0
                    ||| limit == 0
                    ||| mean_of(own(0)) == mean_of(other(0)) && mean_of(own(1)) == mean_of(other(1)) && mean_of(own(2))
                        == mean_of(other(2))
                },
            }
        }),
{
    let pins = touching_pins(nets, index, nets.len());
    let places = pins_at(macros, instances, positions, pins, pins.len())->Ok_0;
    let count = pins.len();
    sums_are_sums(pins, places, index, true, 0, count);
    sums_are_sums(pins, places, index, false, 0, count);
    sums_are_sums(pins, places, index, true, 1, count);
    sums_are_sums(pins, places, index, false, 1, count);
    sums_are_sums(pins, places, index, true, 2, count);
    sums_are_sums(pins, places, index, false, 2, count);
}

// ---------------------------------------------------------------------------
// Moves
// ---------------------------------------------------------------------------
/// Whether only one instance moved, and along each axis no further than a limit.
pub open spec fn moves_one(before: Seq<Position>, after: Seq<Position>, index: int, limit: int) -> bool {
    &&& after.len() == before.len()
    &&& forall|other: int| 0 <= other < before.len() && other != index ==> #[trigger] after[other] == before[other]
    &&& apart(before[index].0 as int, after[index].0 as int) <= limit
    &&& apart(before[index].1 as int, after[index].1 as int) <= limit
    &&& apart(before[index].2 as int, after[index].2 as int) <= limit
}

/// Whether one instance moved, no further than the step that is allowed.
pub open spec fn is_moved(before: Seq<Position>, after: Seq<Position>, index: int, max_step: usize) -> bool {
    0 <= index < before.len() && moves_one(before, after, index, reach_of(max_step))
}

/// Whether two instances changed places, and nothing else moved.
pub open spec fn swaps(before: Seq<Position>, after: Seq<Position>, first: int, second: int) -> bool {
    &&& after.len() == before.len()
    &&& first != second
    &&& after[first] == before[second]
    &&& after[second] == before[first]
    &&& forall|other: int|
        0 <= other < before.len() && other != first && other != second ==> #[trigger] after[other] == before[other]
}

/// Whether every instance has a macro and stands inside the world.
pub open spec fn all_inside(
    macros: Seq<MacroTemplate>,
    library: Seq<MacroInstance>,
    positions: Seq<Position>,
    world: DimSize,
) -> bool {
    forall|i: int|
        0 <= i < positions.len() ==> template_of(macros, library, i as usize) is Ok && stands_inside(
            #[trigger] positions[i],
            template_of(macros, library, i as usize)->Ok_0.size,
            world,
        )
}

proof fn drawn_below(state: u64, count: nat, bound: int)
    requires
        bound > 0,
    ensures
        0 <= draw(state, count, bound) < bound,
{
}

proof fn step_within(state: u64, count: nat, step: usize)
    ensures
        -reach_of(step) <= random_step(state, count, step) <= reach_of(step),
{
    drawn_below(state, count, 2 * reach_of(step) + 1);
}

proof fn stepping_moves_one(
    positions: Seq<Position>,
    index: int,
    step: (int, int, int),
    size: DimSize,
    world: DimSize,
    limit: int,
)
    requires
        0 <= index < positions.len(),
        stands_inside(positions[index], size, world),
        -limit <= step.0 <= limit,
        -limit <= step.1 <= limit,
        -limit <= step.2 <= limit,
        positions[index].0 + limit <= usize::MAX,
        positions[index].1 + limit <= usize::MAX,
        positions[index].2 + limit <= usize::MAX,
    ensures
        moves_one(positions, stepped(positions, index, step, size, world), index, limit),
{
}

/// A random step moves one instance, no further than the step that is allowed; a step is
/// always allowed to be of one cell.
pub proof fn translation_moves_one(
    macros: Seq<MacroTemplate>,
    library: Seq<MacroInstance>,
    positions: Seq<Position>,
    world: DimSize,
    max_step: usize,
    state: u64,
)
    requires
        0 < positions.len() <= usize::MAX,
        all_inside(macros, library, positions, world),
        world.0 + reach_of(max_step) <= usize::MAX,
        world.1 + reach_of(max_step) <= usize::MAX,
        world.2 + reach_of(max_step) <= usize::MAX,
    ensures
        translation(macros, library, positions, world, max_step, state) is Ok,
        exists|index: int| #[trigger]
            is_moved(
                positions,
                translation(macros, library, positions, world, max_step, state)->Ok_0,
                index,
                max_step,
            ),
{
    let index = draw(state, 2, positions.len() as int);
    drawn_below(state, 2, positions.len() as int);
    step_within(state, 3, max_step);
    step_within(state, 4, max_step);
    step_within(state, 5, max_step);
    let template = template_of(macros, library, index as usize)->Ok_0;
    assert(0 <= index < positions.len());
    assert(index as usize == index);
    assert(stands_inside(positions[index], template.size, world));
    let step = (random_step(state, 3, max_step), random_step(state, 4, max_step), random_step(state, 5, max_step));
    stepping_moves_one(positions, index, step, template.size, world, reach_of(max_step));
    let after = stepped(positions, index, step, template.size, world);
    assert(step == random_steps(state, 3, max_step));
    assert(translation(macros, library, positions, world, max_step, state) == Ok::<Seq<Position>, PlacementErrorView>(
        after,
    ));
    assert(is_moved(
        positions,
        translation(macros, library, positions, world, max_step, state)->Ok_0,
        index,
        max_step,
    ));
}

/// Whether an instance has a macro and fits into the world at the place of another.
pub open spec fn fits_at(
    macros: Seq<MacroTemplate>,
    library: Seq<MacroInstance>,
    positions: Seq<Position>,
    world: DimSize,
    index: int,
    other: int,
) -> bool {
    template_of(macros, library, index as usize) matches Ok(template) && stands_inside(
        positions[other],
        template.size,
        world,
    )
}

/// An exchange gives two instances each other's places, where each fits into the world
/// at the other's.
pub proof fn exchange_swaps_two(
    macros: Seq<MacroTemplate>,
    library: Seq<MacroInstance>,
    positions: Seq<Position>,
    world: DimSize,
    state: u64,
)
    requires
        2 <= positions.len() <= usize::MAX,
        forall|i: int, j: int|
            0 <= i < positions.len() && 0 <= j < positions.len() ==> #[trigger] fits_at(
                macros,
                library,
                positions,
                world,
                i,
                j,
            ),
    ensures
        exchange(macros, library, positions, world, state) matches Ok(after) && exists|first: int, second: int|
            0 <= first < positions.len() && 0 <= second < positions.len() && #[trigger] swaps(
                positions,
                after,
                first,
                second,
            ),
{
    let count = positions.len() as int;
    let first = draw(state, 2, count);
    let picked = draw(state, 3, count - 1);
    drawn_below(state, 2, count);
    drawn_below(state, 3, count - 1);
    let second = if picked >= first { picked + 1 } else { picked };
    assert(0 <= second < count && second != first);
    assert(fits_at(macros, library, positions, world, first, second));
    assert(fits_at(macros, library, positions, world, second, first));
    let own = template_of(macros, library, first as usize)->Ok_0.size;
    let other = template_of(macros, library, second as usize)->Ok_0.size;
    assert(second == other_index(first, picked));
    assert(0 <= second < count && second != first);
    assert(stands_inside(positions[second], own, world));
    assert(stands_inside(positions[first], other, world));
    assert(clamped(positions[second], own, world) == positions[second]);
    assert(clamped(positions[first], other, world) == positions[first]);
    let after = exchange(macros, library, positions, world, state)->Ok_0;
    assert(after == positions.update(first, positions[second]).update(second, positions[first]));
    assert(swaps(positions, after, first, second));
}

/// A step away from a crowd goes by one cell at most along each axis, and never towards
/// the mean of the crowd; it does not stay where it is.
pub proof fn spreading_leads_away(crowd: Crowd, position: Position, size: DimSize)
    requires
        crowd.count > 0,
    ensures
        ({
            let step = away_from(crowd, position, size);
            let here = |axis: int| middle(coordinate(position, axis), coordinate(last_cell(position, size), axis));
            let (x, y, z) = (
                crowd.x as int / crowd.count as int,
                crowd.y as int / crowd.count as int,
                crowd.z as int / crowd.count as int,
            );
            &&& apart(here(0) + step.0, x) >= apart(here(0), x)
            &&& apart(here(1) + step.1, y) >= apart(here(1), y)
            &&& apart(here(2) + step.2, z) >= apart(here(2), z)
            &&& -1 <= step.0 <= 1 && -1 <= step.1 <= 1 && -1 <= step.2 <= 1
            &&& here(0) != x ==> step.0 != 0
            &&& here(1) != y ==> step.1 != 0
            &&& here(2) != z ==> step.2 != 0
            &&& step != (0int, 0int, 0int)
        }),
{
}

// ---------------------------------------------------------------------------
// Seeds
// ---------------------------------------------------------------------------
/// The pins of nets that belong to an instance: the number of the net, and of the pin in
/// it.
pub open spec fn pins_of(nets: Seq<PhysicalNet>, instance: usize) -> Set<(int, int)> {
    Set::new(
        |pair: (int, int)|
            0 <= pair.0 < nets.len() && 0 <= pair.1 < net_pins(nets[pair.0]).len() && net_pins(nets[pair.0])[pair.1].instance
                == instance,
    )
}

spec fn pins_upto(nets: Seq<PhysicalNet>, instance: usize, net: int, pin: int) -> Set<(int, int)> {
    Set::new(
        |pair: (int, int)| pins_of(nets, instance).contains(pair) && (pair.0 < net || pair.0 == net && pair.1 < pin),
    )
}

proof fn net_pins_counted(nets: Seq<PhysicalNet>, instance: usize, net: int, count: nat)
    requires
        0 <= net < nets.len(),
        count <= net_pins(nets[net]).len(),
        pins_upto(nets, instance, net, 0).finite(),
    ensures
        pins_upto(nets, instance, net, count as int).finite(),
        pins_upto(nets, instance, net, count as int).len() == pins_upto(nets, instance, net, 0).len() + pins_on(
            net_pins(nets[net]),
            instance,
            count,
        ),
    decreases count,
{
    if count > 0 {
        net_pins_counted(nets, instance, net, (count - 1) as nat);
        let before = pins_upto(nets, instance, net, count - 1);
        let pair = (net, count - 1);
        if net_pins(nets[net])[count - 1].instance == instance {
            assert(pins_upto(nets, instance, net, count as int) =~= before.insert(pair));
        } else {
            assert(pins_upto(nets, instance, net, count as int) =~= before);
        }
    }
}

proof fn pins_counted(nets: Seq<PhysicalNet>, instance: usize, count: nat)
    requires
        count <= nets.len(),
    ensures
        pins_upto(nets, instance, count as int, 0).finite(),
        pins_upto(nets, instance, count as int, 0).len() == degree(nets, instance, count),
    decreases count,
{
    if count == 0 {
        assert(pins_upto(nets, instance, 0, 0) =~= Set::empty());
    } else {
        pins_counted(nets, instance, (count - 1) as nat);
        let pins = net_pins(nets[count - 1]);
        net_pins_counted(nets, instance, count - 1, pins.len());
        assert(pins_upto(nets, instance, count - 1, pins.len() as int) =~= pins_upto(nets, instance, count as int, 0));
    }
}

/// How connected an instance is is how many pins of nets belong to it.
pub proof fn degree_counts_pins(nets: Seq<PhysicalNet>, instance: usize)
    ensures
        degree(nets, instance, nets.len()) == pins_of(nets, instance).len(),
        pins_of(nets, instance).finite(),
{
    pins_counted(nets, instance, nets.len());
    assert(pins_upto(nets, instance, nets.len() as int, 0) =~= pins_of(nets, instance));
}

/// Whether a box comes before a place on the shelves, with so many free cells between: in
/// a lower layer, in an earlier row, or earlier in the row.
pub open spec fn comes_earlier(position: Position, size: DimSize, place: Position, spacing: usize) -> bool {
    ||| position.2 + size.2 + spacing <= place.2
    ||| {
        &&& position.2 == place.2
        &&& position.1 + size.1 + spacing <= place.1 || position.1 == place.1 && position.0 + size.0 + spacing <= place.0
    }
}

spec fn is_spaced(shelf: Shelf, position: Position, size: DimSize, spacing: usize) -> bool {
    ||| position.2 + size.2 + spacing <= shelf.cursor.2
    ||| {
        &&& position.2 == shelf.cursor.2
        &&& size.2 <= shelf.layer_height
        &&& position.1 + size.1 + spacing <= shelf.cursor.1 || position.1 == shelf.cursor.1 && size.1 <= shelf.row_depth
            && position.0 + size.0 + spacing <= shelf.cursor.0
    }
}

proof fn seeding_keeps_spacing(
    macros: Seq<MacroTemplate>,
    instances: Seq<MacroInstance>,
    config: InitialPlacementConfig,
    order: Seq<usize>,
    count: nat,
)
    requires
        shelves_fit(config),
        is_numbered(instances),
        count <= order.len() == instances.len(),
        forall|i: int| 0 <= i < order.len() ==> #[trigger] order[i] < instances.len(),
        order.no_duplicates(),
        seeded(macros, instances, config, order, count) is Ok,
    ensures
        ({
            let (shelf, positions) = seeded(macros, instances, config, order, count)->Ok_0;
            &&& forall|k: int|
                0 <= k < count ==> is_spaced(
                    shelf,
                    positions[(#[trigger] order[k]) as int],
                    size_of_instance(macros, instances, order[k] as int),
                    config.spacing,
                )
            &&& forall|k: int, j: int|
                0 <= k < j < count ==> comes_earlier(
                    positions[(#[trigger] order[k]) as int],
                    size_of_instance(macros, instances, order[k] as int),
                    positions[(#[trigger] order[j]) as int],
                    config.spacing,
                )
        }),
    decreases count,
{
    if count > 0 {
        let last = count - 1;
        seeding_keeps_spacing(macros, instances, config, order, last as nat);
        seeding_keeps_apart(macros, instances, config, order, last as nat);
        seeding_keeps_apart(macros, instances, config, order, count);
        let (before, old_positions) = seeded(macros, instances, config, order, last as nat)->Ok_0;
        let (shelf, positions) = seeded(macros, instances, config, order, count)->Ok_0;
        let slot = order[last] as int;
        assert(order[last] < instances.len());
        assert(instances[slot].id == slot);
        let size = size_of_instance(macros, instances, slot);
        let row = next_row(before, size, config.world, config.spacing);
        let place = shelf_for(before, size, config.world, config.spacing);
        assert(positions == old_positions.update(slot, place.cursor));
        assert(shelf == shelf_behind(place, size, config.spacing));
        assert forall|k: int| 0 <= k < last implies is_spaced(
            place,
            old_positions[(#[trigger] order[k]) as int],
            size_of_instance(macros, instances, order[k] as int),
            config.spacing,
        ) by {
            let id = order[k] as int;
            assert(seed_holds(macros, instances, config.world, order, last as nat, old_positions, before, k));
            assert(is_spaced(before, old_positions[order[k] as int], size_of_instance(macros, instances, id), config.spacing));
            assert(is_spaced(row, old_positions[id], size_of_instance(macros, instances, id), config.spacing));
        }
        assert forall|k: int| 0 <= k < count implies is_spaced(
            shelf,
            positions[(#[trigger] order[k]) as int],
            size_of_instance(macros, instances, order[k] as int),
            config.spacing,
        ) by {
            if k < last {
                assert(order[k] != order[last]);
                assert(is_spaced(
                    place,
                    old_positions[order[k] as int],
                    size_of_instance(macros, instances, order[k] as int),
                    config.spacing,
                ));
            }
        }
        assert forall|k: int, j: int| 0 <= k < j < count implies comes_earlier(
            positions[(#[trigger] order[k]) as int],
            size_of_instance(macros, instances, order[k] as int),
            positions[(#[trigger] order[j]) as int],
            config.spacing,
        ) by {
            assert(order[k] != order[last]);
            if j < last {
                assert(order[j] != order[last]);
                assert(comes_earlier(
                    old_positions[order[k] as int],
                    size_of_instance(macros, instances, order[k] as int),
                    old_positions[order[j] as int],
                    config.spacing,
                ));
            } else {
                assert(is_spaced(
                    place,
                    old_positions[order[k] as int],
                    size_of_instance(macros, instances, order[k] as int),
                    config.spacing,
                ));
            }
        }
    }
}

/// A seed puts the most connected instances first, and of equally connected ones that
/// with the lower number: each comes before the others on the shelves, with the spacing
/// between them.
pub proof fn seed_puts_connected_first(
    macros: Seq<MacroTemplate>,
    instances: Seq<MacroInstance>,
    nets: Seq<PhysicalNet>,
    config: InitialPlacementConfig,
    left: int,
    right: int,
)
    requires
        shelves_fit(config),
        is_numbered(instances),
        instances.len() <= usize::MAX,
        seed_positions(macros, instances, nets, config) is Ok,
        0 <= left < instances.len(),
        0 <= right < instances.len(),
        pins_of(nets, left as usize).len() <= usize::MAX,
        pins_of(nets, right as usize).len() <= usize::MAX,
        pins_of(nets, left as usize).len() > pins_of(nets, right as usize).len() || pins_of(nets, left as usize).len()
            == pins_of(nets, right as usize).len() && left < right,
    ensures
        ({
            let positions = seed_positions(macros, instances, nets, config)->Ok_0;
            comes_earlier(
                positions[left],
                size_of_instance(macros, instances, left),
                positions[right],
                config.spacing,
            )
        }),
{
    let order = seed_order(nets, instances);
    let keys = seed_keys(nets, instances);
    let _ = stable_order_exists(keys);
    stable_order_distinct(keys, order);
    degree_counts_pins(nets, left as usize);
    degree_counts_pins(nets, right as usize);
    seeding_keeps_spacing(macros, instances, config, order, instances.len());
    distinct_covers(order, left as usize);
    distinct_covers(order, right as usize);
    let k = choose|k: int| 0 <= k < order.len() && order[k] == left as usize;
    let j = choose|j: int| 0 <= j < order.len() && order[j] == right as usize;
    assert(instances[left].id == left && instances[right].id == right);
    if j < k {
        assert(in_order(keys, order[j], order[k]));
    }
    assert(k != j);
    assert(order[k] as int == left && order[j] as int == right);
}

} // verus!

//! What the numbers of a placement count, in terms of the cells that its instances
//! fill.

use super::measure::{
    aabb, aabbs, aabbs_are_boxes, blocked_among, blocked_pins, box_gap, boxes_fit, close_pairs, close_pairs_bound,
    instance_pins, is_accessible, is_clear, is_reachable, measure_fits, measured, overlap_set, pin_access_violations,
    shut_among, shut_pins, spacing_violations, span_gap, too_close,
};
use crate::transform::place_and_route::placement_error::PlacementErrorView;
use crate::transform::place_and_route::placement_ir::{shifted, MacroInstance, MacroPin, MacroTemplate, PhysicalNet};
use crate::transform::place_and_route::placement_problem::{
    boxes_meet, coordinate, extremes_bound, far_corner, footprint_fits, footprints, footprints_fit, highest, is_overlap,
    lowest, reach, template_of, Footprint,
};
use crate::world::grid::{box_holds, BoundingBox};
use crate::world::position::{in_bounds, DimSize, Position};
use vstd::prelude::*;
use vstd::set_lib::{lemma_int_range, set_int_range};

verus! {

// ---------------------------------------------------------------------------
// Cells
// ---------------------------------------------------------------------------
/// Whether a macro that starts at `origin` along an axis fills a coordinate. It fills
/// its first one though it has no size.
pub open spec fn covers(origin: usize, size: usize, at: int) -> bool {
    at == origin || origin <= at < origin + size
}

/// Whether a coordinate is free between two macros: all of one lies below it, and all
/// of the other above.
pub open spec fn is_between(origin: usize, size: usize, other: usize, other_size: usize, at: int) -> bool {
    ||| {
        &&& forall|own: int| #[trigger] covers(origin, size, own) ==> own < at
        &&& forall|far: int| #[trigger] covers(other, other_size, far) ==> at < far
    }
    ||| {
        &&& forall|own: int| #[trigger] covers(origin, size, own) ==> at < own
        &&& forall|far: int| #[trigger] covers(other, other_size, far) ==> far < at
    }
}

/// How many coordinates are free between two macros along an axis.
pub open spec fn free_along(origin: usize, size: usize, other: usize, other_size: usize) -> nat {
    Set::new(|at: int| is_between(origin, size, other, other_size, at)).len()
}

/// How many cells a way between two macros has to cross: the coordinates that are
/// free between them along each axis.
pub open spec fn free_between(origin: Position, size: DimSize, other: Position, other_size: DimSize) -> nat {
    free_along(origin.0, size.0, other.0, other_size.0) + free_along(origin.1, size.1, other.1, other_size.1)
        + free_along(origin.2, size.2, other.2, other_size.2)
}

proof fn free_is_gap(origin: usize, size: usize, other: usize, other_size: usize)
    requires
        origin + reach(size) <= usize::MAX,
        other + reach(other_size) <= usize::MAX,
    ensures
        free_along(origin, size, other, other_size) == span_gap(
            origin,
            (origin + reach(size)) as usize,
            other,
            (other + reach(other_size)) as usize,
        ),
        free_along(origin, size, other, other_size) == free_along(other, other_size, origin, size),
        Set::new(|at: int| is_between(origin, size, other, other_size, at)).finite(),
{
    let last = origin + reach(size);
    let other_last = other + reach(other_size);
    let free = Set::new(|at: int| is_between(origin, size, other, other_size, at));
    let mirrored = Set::new(|at: int| is_between(other, other_size, origin, size, at));
    assert(free =~= mirrored);
    assert forall|at: int| is_between(origin, size, other, other_size, at) <==> (last < at < other || other_last < at
        < origin) by {
        assert(covers(origin, size, origin as int));
        assert(covers(origin, size, last));
        assert(covers(other, other_size, other as int));
        assert(covers(other, other_size, other_last));
    }
    if last < other {
        lemma_int_range(last + 1, other as int);
        assert(free =~= set_int_range(last + 1, other as int));
    } else if other_last < origin {
        lemma_int_range(other_last + 1, origin as int);
        assert(free =~= set_int_range(other_last + 1, origin as int));
    } else {
        assert(free =~= Set::empty());
    }
}

// ---------------------------------------------------------------------------
// Spacing
// ---------------------------------------------------------------------------
/// Whether fewer cells lie free between two instances than are asked for, by the
/// spacing or by the halo of one of them.
pub open spec fn is_too_close(
    macros: Seq<MacroTemplate>,
    library: Seq<MacroInstance>,
    first: MacroInstance,
    second: MacroInstance,
    required: usize,
) -> bool {
    let own = template_of(macros, library, first.id)->Ok_0;
    let other = template_of(macros, library, second.id)->Ok_0;
    let free = free_between(first.position, own.size, second.position, other.size);
    free < required || free < own.halo || free < other.halo
}

/// The pairs of instances that are too close.
pub open spec fn pairs_too_close(
    macros: Seq<MacroTemplate>,
    library: Seq<MacroInstance>,
    instances: Seq<MacroInstance>,
    required: usize,
) -> Set<(int, int)> {
    Set::new(
        |pair: (int, int)|
            0 <= pair.0 < pair.1 < instances.len() && is_too_close(
                macros,
                library,
                instances[pair.0],
                instances[pair.1],
                required,
            ),
    )
}

/// Whether all instances have a macro.
pub open spec fn all_known(
    macros: Seq<MacroTemplate>,
    library: Seq<MacroInstance>,
    instances: Seq<MacroInstance>,
) -> bool {
    forall|i: int| 0 <= i < instances.len() ==> template_of(macros, library, (#[trigger] instances[i]).id) is Ok
}

proof fn boxes_are_known(
    macros: Seq<MacroTemplate>,
    library: Seq<MacroInstance>,
    instances: Seq<MacroInstance>,
    count: nat,
)
    requires
        count <= instances.len(),
    ensures
        aabbs(macros, library, instances, count) is Ok <==> forall|i: int|
            0 <= i < count ==> template_of(macros, library, (#[trigger] instances[i]).id) is Ok,
    decreases count,
{
    if count > 0 {
        boxes_are_known(macros, library, instances, (count - 1) as nat);
        if aabbs(macros, library, instances, count) is Ok {
            assert forall|i: int| 0 <= i < count implies template_of(macros, library, (#[trigger] instances[i]).id) is Ok by {
                if i == count - 1 {
                    assert(aabb(macros, library, instances[count - 1]) is Ok);
                }
            }
        } else if forall|i: int| 0 <= i < count ==> template_of(macros, library, (#[trigger] instances[i]).id) is Ok {
            assert(template_of(macros, library, instances[count - 1].id) is Ok);
        }
    }
}

proof fn closeness_is_symmetric(
    macros: Seq<MacroTemplate>,
    library: Seq<MacroInstance>,
    first: MacroInstance,
    second: MacroInstance,
    required: usize,
)
    requires
        template_of(macros, library, first.id) matches Ok(own) && footprint_fits(own, first.position),
        template_of(macros, library, second.id) matches Ok(other) && footprint_fits(other, second.position),
    ensures
        is_too_close(macros, library, first, second, required) == is_too_close(
            macros,
            library,
            second,
            first,
            required,
        ),
{
    let own = template_of(macros, library, first.id)->Ok_0;
    let other = template_of(macros, library, second.id)->Ok_0;
    free_is_gap(first.position.0, own.size.0, second.position.0, other.size.0);
    free_is_gap(first.position.1, own.size.1, second.position.1, other.size.1);
    free_is_gap(first.position.2, own.size.2, second.position.2, other.size.2);
}

proof fn closeness_is_gap(
    macros: Seq<MacroTemplate>,
    library: Seq<MacroInstance>,
    instances: Seq<MacroInstance>,
    required: usize,
    low: int,
    high: int,
)
    requires
        boxes_fit(macros, library, instances),
        aabbs(macros, library, instances, instances.len()) is Ok,
        0 <= low < high < instances.len(),
    ensures
        too_close(
            macros,
            library,
            instances,
            aabbs(macros, library, instances, instances.len())->Ok_0,
            required,
            low,
            high,
        ) == is_too_close(macros, library, instances[low], instances[high], required),
{
    let boxes = aabbs(macros, library, instances, instances.len())->Ok_0;
    aabbs_are_boxes(macros, library, instances, instances.len());
    assert(aabb(macros, library, instances[low]) == Ok::<BoundingBox, PlacementErrorView>(boxes[low]));
    assert(aabb(macros, library, instances[high]) == Ok::<BoundingBox, PlacementErrorView>(boxes[high]));
    let own = template_of(macros, library, instances[low].id)->Ok_0;
    let other = template_of(macros, library, instances[high].id)->Ok_0;
    let origin = instances[low].position;
    let far = instances[high].position;
    assert(boxes_fit(macros, library, instances));
    assert(footprint_fits(own, origin));
    assert(footprint_fits(other, far));
    free_is_gap(origin.0, own.size.0, far.0, other.size.0);
    free_is_gap(origin.1, own.size.1, far.1, other.size.1);
    free_is_gap(origin.2, own.size.2, far.2, other.size.2);
    assert(boxes[low].max == far_corner(own, origin));
    assert(boxes[high].max == far_corner(other, far));
    assert(box_gap(boxes[low], boxes[high]) == free_between(origin, own.size, far, other.size));
}

/// The pairs that are too close among those before `(low, high)`.
spec fn pairs_before(
    macros: Seq<MacroTemplate>,
    library: Seq<MacroInstance>,
    instances: Seq<MacroInstance>,
    required: usize,
    low: int,
    high: int,
) -> Set<(int, int)> {
    Set::new(
        |pair: (int, int)|
            0 <= pair.0 < pair.1 < instances.len() && (pair.0 < low || pair.0 == low && pair.1 < high) && is_too_close(
                macros,
                library,
                instances[pair.0],
                instances[pair.1],
                required,
            ),
    )
}

proof fn pairs_are_counted(
    macros: Seq<MacroTemplate>,
    library: Seq<MacroInstance>,
    instances: Seq<MacroInstance>,
    required: usize,
    low: nat,
    high: nat,
)
    requires
        boxes_fit(macros, library, instances),
        aabbs(macros, library, instances, instances.len()) is Ok,
        high <= instances.len() || high <= low + 1,
    ensures
        pairs_before(macros, library, instances, required, low as int, high as int).finite(),
        pairs_before(macros, library, instances, required, low as int, high as int).len() == close_pairs(
            macros,
            library,
            instances,
            aabbs(macros, library, instances, instances.len())->Ok_0,
            required,
            low,
            high,
        ),
    decreases low, high,
{
    let boxes = aabbs(macros, library, instances, instances.len())->Ok_0;
    let all = pairs_before(macros, library, instances, required, low as int, high as int);
    aabbs_are_boxes(macros, library, instances, instances.len());
    if high > low + 1 {
        pairs_are_counted(macros, library, instances, required, low, (high - 1) as nat);
        closeness_is_gap(macros, library, instances, required, low as int, high - 1);
        let fewer = pairs_before(macros, library, instances, required, low as int, high - 1);
        let pair = (low as int, high - 1);
        if is_too_close(macros, library, instances[low as int], instances[high - 1], required) {
            assert(all =~= fewer.insert(pair));
            assert(!fewer.contains(pair));
        } else {
            assert(all =~= fewer);
        }
    } else if low > 0 {
        pairs_are_counted(macros, library, instances, required, (low - 1) as nat, instances.len());
        assert(all =~= pairs_before(macros, library, instances, required, low - 1, instances.len() as int));
    } else {
        assert(all =~= Set::empty());
    }
}

/// The spacing violations of a placement are the pairs of instances with fewer free
/// cells between them than are asked for. Where no spacing is asked for there are
/// none, and where an instance has no macro there is an error.
pub proof fn spacing_counts_pairs_too_close(
    macros: Seq<MacroTemplate>,
    library: Seq<MacroInstance>,
    instances: Seq<MacroInstance>,
    required: usize,
)
    requires
        boxes_fit(macros, library, instances),
    ensures
        spacing_violations(macros, library, instances, 0) == Ok::<int, PlacementErrorView>(0),
        required > 0 ==> (spacing_violations(macros, library, instances, required) is Ok <==> all_known(
            macros,
            library,
            instances,
        )),
        required > 0 ==> (spacing_violations(macros, library, instances, required) matches Ok(count) ==> count
            == pairs_too_close(macros, library, instances, required).len()),
        all_known(macros, library, instances) ==> pairs_too_close(macros, library, instances, required).finite(),
{
    boxes_are_known(macros, library, instances, instances.len());
    if aabbs(macros, library, instances, instances.len()) is Ok {
        let count = instances.len();
        aabbs_are_boxes(macros, library, instances, count);
        pairs_are_counted(macros, library, instances, required, count, count + 1);
        assert(pairs_too_close(macros, library, instances, required) =~= pairs_before(
            macros,
            library,
            instances,
            required,
            count as int,
            (count + 1) as int,
        ));
    }
}

/// Two instances that some axis keeps as many free cells apart as are asked for are
/// no spacing violation, whichever of the two stands on which side.
pub proof fn instances_apart_are_no_violation(
    macros: Seq<MacroTemplate>,
    library: Seq<MacroInstance>,
    first: MacroInstance,
    second: MacroInstance,
    required: usize,
    asked: nat,
)
    requires
        template_of(macros, library, first.id) matches Ok(own) && footprint_fits(own, first.position) && own.halo
            <= asked,
        template_of(macros, library, second.id) matches Ok(other) && footprint_fits(other, second.position)
            && other.halo <= asked,
        required <= asked,
        ({
            let own = template_of(macros, library, first.id)->Ok_0.size;
            let other = template_of(macros, library, second.id)->Ok_0.size;
            let (near, far) = (first.position, second.position);
            ||| forall|a: int, b: int| #[trigger]
                covers(near.0, own.0, a) && #[trigger] covers(far.0, other.0, b) ==> a + asked < b
            ||| forall|a: int, b: int| #[trigger]
                covers(near.1, own.1, a) && #[trigger] covers(far.1, other.1, b) ==> a + asked < b
            ||| forall|a: int, b: int| #[trigger]
                covers(near.2, own.2, a) && #[trigger] covers(far.2, other.2, b) ==> a + asked < b
        }),
    ensures
        !is_too_close(macros, library, first, second, required),
        !is_too_close(macros, library, second, first, required),
{
    let own = template_of(macros, library, first.id)->Ok_0;
    let other = template_of(macros, library, second.id)->Ok_0;
    let (near, far) = (first.position, second.position);
    free_is_gap(near.0, own.size.0, far.0, other.size.0);
    free_is_gap(near.1, own.size.1, far.1, other.size.1);
    free_is_gap(near.2, own.size.2, far.2, other.size.2);
    assert(covers(near.0, own.size.0, near.0 + reach(own.size.0)) && covers(far.0, other.size.0, far.0 as int));
    assert(covers(near.1, own.size.1, near.1 + reach(own.size.1)) && covers(far.1, other.size.1, far.1 as int));
    assert(covers(near.2, own.size.2, near.2 + reach(own.size.2)) && covers(far.2, other.size.2, far.2 as int));
    closeness_is_symmetric(macros, library, first, second, required);
}

/// Whether a list is another in a different order.
pub open spec fn is_reordered(instances: Seq<MacroInstance>, others: Seq<MacroInstance>, places: Seq<int>) -> bool {
    &&& places.len() == instances.len() == others.len()
    &&& places.no_duplicates()
    &&& forall|i: int| 0 <= i < places.len() ==> 0 <= #[trigger] places[i] < instances.len()
    &&& forall|i: int| 0 <= i < places.len() ==> #[trigger] others[i] == instances[places[i]]
}

proof fn pairs_reordered(
    macros: Seq<MacroTemplate>,
    library: Seq<MacroInstance>,
    instances: Seq<MacroInstance>,
    others: Seq<MacroInstance>,
    places: Seq<int>,
    required: usize,
)
    requires
        boxes_fit(macros, library, instances),
        boxes_fit(macros, library, others),
        all_known(macros, library, instances),
        all_known(macros, library, others),
        is_reordered(instances, others, places),
    ensures
        pairs_too_close(macros, library, others, required).len() <= pairs_too_close(
            macros,
            library,
            instances,
            required,
        ).len(),
{
    let from = pairs_too_close(macros, library, others, required);
    let to = pairs_too_close(macros, library, instances, required);
    spacing_counts_pairs_too_close(macros, library, instances, required);
    spacing_counts_pairs_too_close(macros, library, others, required);
    let f = |pair: (int, int)|
        if places[pair.0] < places[pair.1] {
            (places[pair.0], places[pair.1])
        } else {
            (places[pair.1], places[pair.0])
        };
    let image = from.map(f);
    assert forall|pair: (int, int)| #[trigger] from.contains(pair) implies to.contains(f(pair)) by {
        let (i, j) = pair;
        assert(0 <= places[i] < instances.len() && 0 <= places[j] < instances.len());
        assert(places[i] != places[j]);
        assert(others[i] == instances[places[i]] && others[j] == instances[places[j]]);
        assert(template_of(macros, library, others[i].id) is Ok);
        assert(template_of(macros, library, others[j].id) is Ok);
        closeness_is_symmetric(macros, library, others[i], others[j], required);
    }
    assert forall|left: (int, int), right: (int, int)| from.contains(left) && from.contains(right) && #[trigger] f(left)
        == #[trigger] f(right) implies left == right by {
        let (i, j) = left;
        let (k, l) = right;
        assert(0 <= places[i] && 0 <= places[j] && 0 <= places[k] && 0 <= places[l]);
        assert(i == k || places[i] != places[k]);
        assert(i == l || places[i] != places[l]);
        assert(j == k || places[j] != places[k]);
        assert(j == l || places[j] != places[l]);
    }
    assert(vstd::relations::injective_on(f, from));
    vstd::set_lib::lemma_map_size(from, image, f);
    assert(image.subset_of(to)) by {
        assert forall|pair: (int, int)| image.contains(pair) implies to.contains(pair) by {
            let source = choose|source: (int, int)| from.contains(source) && f(source) == pair;
            assert(from.contains(source));
        }
    }
    vstd::set_lib::lemma_len_subset(image, to);
}

/// The number of spacing violations does not depend on the order in which the
/// instances are listed.
pub proof fn spacing_ignores_order(
    macros: Seq<MacroTemplate>,
    library: Seq<MacroInstance>,
    instances: Seq<MacroInstance>,
    others: Seq<MacroInstance>,
    places: Seq<int>,
    required: usize,
)
    requires
        boxes_fit(macros, library, instances),
        all_known(macros, library, instances),
        is_reordered(instances, others, places),
    ensures
        spacing_violations(macros, library, others, required) == spacing_violations(
            macros,
            library,
            instances,
            required,
        ),
{
    assert(boxes_fit(macros, library, others)) by {
        assert forall|i: int| 0 <= i < others.len() implies match template_of(
            macros,
            library,
            (#[trigger] others[i]).id,
        ) {
            Ok(template) => footprint_fits(template, others[i].position) && super::measure::escapes_fit(
                template.pins@,
                others[i].position,
            ),
            Err(_) => true,
        } by {
            assert(others[i] == instances[places[i]]);
        }
    }
    assert(all_known(macros, library, others)) by {
        assert forall|i: int| 0 <= i < others.len() implies template_of(macros, library, (#[trigger] others[i]).id) is Ok by {
            assert(others[i] == instances[places[i]]);
        }
    }
    let backs = inverse_of(places, instances.len());
    assert(is_reordered(others, instances, backs)) by {
        assert forall|i: int, j: int| 0 <= i < backs.len() && 0 <= j < backs.len() && i != j implies backs[i] != backs[j] by {
            assert(places[backs[i]] == i && places[backs[j]] == j);
        }
        assert forall|i: int| 0 <= i < backs.len() implies #[trigger] instances[i] == others[backs[i]] by {
            assert(places[backs[i]] == i);
            assert(others[backs[i]] == instances[places[backs[i]]]);
        }
    }
    pairs_reordered(macros, library, instances, others, places, required);
    pairs_reordered(macros, library, others, instances, backs, required);
    spacing_counts_pairs_too_close(macros, library, instances, required);
    spacing_counts_pairs_too_close(macros, library, others, required);
}

/// Where each number stands in a list of all numbers below its length.
proof fn inverse_of(places: Seq<int>, count: nat) -> (backs: Seq<int>)
    requires
        places.len() == count,
        places.no_duplicates(),
        forall|i: int| 0 <= i < places.len() ==> 0 <= #[trigger] places[i] < count,
    ensures
        backs.len() == count,
        forall|i: int| 0 <= i < count ==> 0 <= #[trigger] backs[i] < count && places[backs[i]] == i,
{
    let all = set_int_range(0, count as int);
    lemma_int_range(0, count as int);
    places.unique_seq_to_set();
    assert(places.to_set().subset_of(all)) by {
        assert forall|at: int| places.to_set().contains(at) implies all.contains(at) by {
            let i = choose|i: int| 0 <= i < places.len() && places[i] == at;
            assert(0 <= places[i] < count);
        }
    }
    vstd::set_lib::lemma_subset_equality(places.to_set(), all);
    let backs = Seq::new(count, |at: int| choose|i: int| 0 <= i < places.len() && places[i] == at);
    assert forall|at: int| 0 <= at < count implies 0 <= #[trigger] backs[at] < count && places[backs[at]] == at by {
        assert(all.contains(at));
        assert(places.to_set().contains(at));
        assert(places.contains(at));
    }
    backs
}

// ---------------------------------------------------------------------------
// Pins
// ---------------------------------------------------------------------------
/// Whether an instance fills a cell.
pub open spec fn fills(
    macros: Seq<MacroTemplate>,
    library: Seq<MacroInstance>,
    instance: MacroInstance,
    cell: Position,
) -> bool {
    let size = template_of(macros, library, instance.id)->Ok_0.size;
    &&& covers(instance.position.0, size.0, cell.0 as int)
    &&& covers(instance.position.1, size.1, cell.1 as int)
    &&& covers(instance.position.2, size.2, cell.2 as int)
}

/// Pin `pair.1` of instance `pair.0`.
pub open spec fn pin_at(
    macros: Seq<MacroTemplate>,
    library: Seq<MacroInstance>,
    instances: Seq<MacroInstance>,
    pair: (int, int),
) -> MacroPin {
    template_of(macros, library, instances[pair.0].id)->Ok_0.pins@[pair.1]
}

/// Whether a pair names an instance and one of its pins.
pub open spec fn is_pin(
    macros: Seq<MacroTemplate>,
    library: Seq<MacroInstance>,
    instances: Seq<MacroInstance>,
    pair: (int, int),
) -> bool {
    &&& 0 <= pair.0 < instances.len()
    &&& 0 <= pair.1 < template_of(macros, library, instances[pair.0].id)->Ok_0.pins@.len()
}

/// Whether `cell` is a cell by which a pin of an instance can be left.
pub open spec fn is_escape(pin: MacroPin, origin: Position, cell: Position) -> bool {
    exists|e: int|
        0 <= e < pin.escape@.len() && origin.0 + (#[trigger] pin.escape@[e]).0 == cell.0 && origin.1 + pin.escape@[e].1
            == cell.1 && origin.2 + pin.escape@[e].2 == cell.2
}

/// The pins that no cell of the world can be left to.
pub open spec fn pins_blocked(
    macros: Seq<MacroTemplate>,
    library: Seq<MacroInstance>,
    instances: Seq<MacroInstance>,
    world: DimSize,
) -> Set<(int, int)> {
    Set::new(
        |pair: (int, int)|
            is_pin(macros, library, instances, pair) && forall|cell: Position| #[trigger]
                is_escape(pin_at(macros, library, instances, pair), instances[pair.0].position, cell) ==> !in_bounds(
                    world,
                    cell,
                ),
    )
}

/// The pins with escape cells of which each is outside the world or filled by another
/// instance.
pub open spec fn pins_shut(
    macros: Seq<MacroTemplate>,
    library: Seq<MacroInstance>,
    instances: Seq<MacroInstance>,
    world: DimSize,
) -> Set<(int, int)> {
    Set::new(
        |pair: (int, int)|
            {
                &&& is_pin(macros, library, instances, pair)
                &&& pin_at(macros, library, instances, pair).escape@.len() > 0
                &&& forall|cell: Position| #[trigger]
                    is_escape(pin_at(macros, library, instances, pair), instances[pair.0].position, cell) && in_bounds(
                        world,
                        cell,
                    ) ==> exists|other: int|
                        0 <= other < instances.len() && other != pair.0 && fills(
                            macros,
                            library,
                            #[trigger] instances[other],
                            cell,
                        )
            },
    )
}

/// Pairs of a set that come before instance `low` and pin `high`.
spec fn pins_before(all: Set<(int, int)>, low: int, high: int) -> Set<(int, int)> {
    Set::new(|pair: (int, int)| all.contains(pair) && (pair.0 < low || pair.0 == low && pair.1 < high))
}

proof fn next_pin(all: Set<(int, int)>, low: int, high: int)
    requires
        pins_before(all, low, high).finite(),
    ensures
        pins_before(all, low, high + 1).finite(),
        pins_before(all, low, high + 1).len() == pins_before(all, low, high).len() + (if all.contains((low, high)) {
            1nat
        } else {
            0
        }),
{
    let fewer = pins_before(all, low, high);
    if all.contains((low, high)) {
        assert(pins_before(all, low, high + 1) =~= fewer.insert((low, high)));
    } else {
        assert(pins_before(all, low, high + 1) =~= fewer);
    }
}

proof fn next_instance(all: Set<(int, int)>, low: int, count: int)
    requires
        forall|pair: (int, int)| #[trigger] all.contains(pair) ==> pair.1 >= 0,
        forall|pair: (int, int)| #[trigger] all.contains(pair) && pair.0 == low ==> pair.1 < count,
    ensures
        pins_before(all, low, count) == pins_before(all, low + 1, 0),
{
    assert(pins_before(all, low, count) =~= pins_before(all, low + 1, 0));
}

proof fn escapes_are_cells(pin: MacroPin, origin: Position, world: DimSize)
    requires
        forall|e: int|
            0 <= e < pin.escape@.len() ==> super::super::placement_ir::shift_fits(origin, #[trigger] pin.escape@[e]),
    ensures
        is_reachable(pin, origin, world) <==> exists|cell: Position| #[trigger]
            is_escape(pin, origin, cell) && in_bounds(world, cell),
        forall|e: int| 0 <= e < pin.escape@.len() ==> is_escape(pin, origin, shifted(origin, #[trigger] pin.escape@[e])),
        forall|cell: Position| #[trigger]
            is_escape(pin, origin, cell) ==> exists|e: int|
                0 <= e < pin.escape@.len() && shifted(origin, #[trigger] pin.escape@[e]) == cell,
{
    assert forall|e: int| 0 <= e < pin.escape@.len() implies is_escape(
        pin,
        origin,
        shifted(origin, #[trigger] pin.escape@[e]),
    ) by {
        assert(super::super::placement_ir::shift_fits(origin, pin.escape@[e]));
    }
    assert forall|cell: Position| #[trigger] is_escape(pin, origin, cell) implies exists|e: int|
        0 <= e < pin.escape@.len() && shifted(origin, #[trigger] pin.escape@[e]) == cell by {
        let e = choose|e: int|
            0 <= e < pin.escape@.len() && origin.0 + (#[trigger] pin.escape@[e]).0 == cell.0 && origin.1 + pin.escape@[e].1
                == cell.1 && origin.2 + pin.escape@[e].2 == cell.2;
        assert(shifted(origin, pin.escape@[e]) == cell);
    }
    if is_reachable(pin, origin, world) {
        let e = choose|e: int| 0 <= e < pin.escape@.len() && in_bounds(world, shifted(origin, #[trigger] pin.escape@[e]));
        assert(is_escape(pin, origin, shifted(origin, pin.escape@[e])));
    }
    if exists|cell: Position| #[trigger] is_escape(pin, origin, cell) && in_bounds(world, cell) {
        let cell = choose|cell: Position| #[trigger] is_escape(pin, origin, cell) && in_bounds(world, cell);
        let e = choose|e: int| 0 <= e < pin.escape@.len() && shifted(origin, #[trigger] pin.escape@[e]) == cell;
        assert(in_bounds(world, shifted(origin, pin.escape@[e])));
    }
}

proof fn blocked_counted_at(
    macros: Seq<MacroTemplate>,
    library: Seq<MacroInstance>,
    instances: Seq<MacroInstance>,
    world: DimSize,
    index: int,
    count: nat,
)
    requires
        boxes_fit(macros, library, instances),
        0 <= index < instances.len(),
        template_of(macros, library, instances[index].id) is Ok,
        count <= template_of(macros, library, instances[index].id)->Ok_0.pins@.len(),
        pins_before(pins_blocked(macros, library, instances, world), index, 0).finite(),
    ensures
        pins_before(pins_blocked(macros, library, instances, world), index, count as int).finite(),
        pins_before(pins_blocked(macros, library, instances, world), index, count as int).len() == pins_before(
            pins_blocked(macros, library, instances, world),
            index,
            0,
        ).len() + blocked_among(
            template_of(macros, library, instances[index].id)->Ok_0.pins@,
            instances[index].position,
            world,
            count,
        ),
    decreases count,
{
    let all = pins_blocked(macros, library, instances, world);
    if count > 0 {
        blocked_counted_at(macros, library, instances, world, index, (count - 1) as nat);
        next_pin(all, index, count - 1);
        let pins = template_of(macros, library, instances[index].id)->Ok_0.pins@;
        let origin = instances[index].position;
        assert(super::measure::escapes_fit(pins, origin));
        escapes_are_cells(pins[count - 1], origin, world);
        assert(pin_at(macros, library, instances, (index, count - 1)) == pins[count - 1]);
        assert(all.contains((index, count - 1)) <==> !is_reachable(pins[count - 1], origin, world));
    }
}

proof fn blocked_counted(
    macros: Seq<MacroTemplate>,
    library: Seq<MacroInstance>,
    instances: Seq<MacroInstance>,
    world: DimSize,
    count: nat,
)
    requires
        boxes_fit(macros, library, instances),
        count <= instances.len(),
    ensures
        blocked_pins(macros, library, instances, world, count) matches Ok(total) ==> pins_before(
            pins_blocked(macros, library, instances, world),
            count as int,
            0,
        ).finite() && total == pins_before(pins_blocked(macros, library, instances, world), count as int, 0).len(),
        blocked_pins(macros, library, instances, world, count) is Ok <==> forall|i: int|
            0 <= i < count ==> template_of(macros, library, (#[trigger] instances[i]).id) is Ok,
    decreases count,
{
    let all = pins_blocked(macros, library, instances, world);
    if count == 0 {
        assert(pins_before(all, 0, 0) =~= Set::empty());
    } else {
        blocked_counted(macros, library, instances, world, (count - 1) as nat);
        let known = template_of(macros, library, instances[count - 1].id);
        if blocked_pins(macros, library, instances, world, (count - 1) as nat) is Ok && known is Ok {
            let pins = known->Ok_0.pins@;
            blocked_counted_at(macros, library, instances, world, count - 1, pins.len());
            next_instance(all, count - 1, pins.len() as int);
        }
        if blocked_pins(macros, library, instances, world, count) is Ok {
            assert forall|i: int| 0 <= i < count implies template_of(macros, library, (#[trigger] instances[i]).id) is Ok by {
                assert(i < count - 1 || i == count - 1);
            }
        } else if forall|i: int| 0 <= i < count ==> template_of(macros, library, (#[trigger] instances[i]).id) is Ok {
            assert(template_of(macros, library, instances[count - 1].id) is Ok);
        }
    }
}

/// The blocked pins of a placement are those of which no escape cell lies in the
/// world; a pin without escape cells is one of them.
pub proof fn blocked_pins_cannot_be_left(
    macros: Seq<MacroTemplate>,
    library: Seq<MacroInstance>,
    instances: Seq<MacroInstance>,
    world: DimSize,
)
    requires
        boxes_fit(macros, library, instances),
    ensures
        blocked_pins(macros, library, instances, world, instances.len()) is Ok <==> all_known(
            macros,
            library,
            instances,
        ),
        blocked_pins(macros, library, instances, world, instances.len()) matches Ok(count) ==> count == pins_blocked(
            macros,
            library,
            instances,
            world,
        ).len(),
{
    let all = pins_blocked(macros, library, instances, world);
    blocked_counted(macros, library, instances, world, instances.len());
    assert(pins_before(all, instances.len() as int, 0) =~= all);
}

proof fn shut_is_shut(
    macros: Seq<MacroTemplate>,
    library: Seq<MacroInstance>,
    instances: Seq<MacroInstance>,
    world: DimSize,
    index: int,
    pin: int,
)
    requires
        boxes_fit(macros, library, instances),
        aabbs(macros, library, instances, instances.len()) is Ok,
        is_pin(macros, library, instances, (index, pin)),
    ensures
        pins_shut(macros, library, instances, world).contains((index, pin)) <==> pin_at(
            macros,
            library,
            instances,
            (index, pin),
        ).escape@.len() > 0 && !is_accessible(
            pin_at(macros, library, instances, (index, pin)),
            instances[index].position,
            world,
            aabbs(macros, library, instances, instances.len())->Ok_0,
            index,
        ),
{
    let boxes = aabbs(macros, library, instances, instances.len())->Ok_0;
    let own = pin_at(macros, library, instances, (index, pin));
    let origin = instances[index].position;
    aabbs_are_boxes(macros, library, instances, instances.len());
    assert(aabb(macros, library, instances[index]) == Ok::<BoundingBox, PlacementErrorView>(boxes[index]));
    assert(super::measure::escapes_fit(template_of(macros, library, instances[index].id)->Ok_0.pins@, origin));
    escapes_are_cells(own, origin, world);
    assert forall|cell: Position| #![trigger is_clear(boxes, index, cell)]
        is_clear(boxes, index, cell) <==> !exists|other: int|
            0 <= other < instances.len() && other != index && fills(
                macros,
                library,
                #[trigger] instances[other],
                cell,
            ) by {
        assert forall|other: int| 0 <= other < instances.len() implies (box_holds(#[trigger] boxes[other], cell) <==> fills(
            macros,
            library,
            instances[other],
            cell,
        )) by {
            assert(aabb(macros, library, instances[other]) == Ok::<BoundingBox, PlacementErrorView>(boxes[other]));
        }
        if exists|other: int|
            0 <= other < instances.len() && other != index && fills(macros, library, #[trigger] instances[other], cell) {
            let other = choose|other: int|
                0 <= other < instances.len() && other != index && fills(
                    macros,
                    library,
                    #[trigger] instances[other],
                    cell,
                );
            assert(box_holds(boxes[other], cell));
        } else {
            assert forall|other: int| 0 <= other < boxes.len() && other != index implies !box_holds(
                #[trigger] boxes[other],
                cell,
            ) by {
                assert(!fills(macros, library, instances[other], cell));
            }
        }
    }
    if is_accessible(own, origin, world, boxes, index) {
        let e = choose|e: int|
            0 <= e < own.escape@.len() && in_bounds(world, shifted(origin, #[trigger] own.escape@[e])) && is_clear(
                boxes,
                index,
                shifted(origin, own.escape@[e]),
            );
        assert(is_escape(own, origin, shifted(origin, own.escape@[e])));
    } else {
        assert forall|cell: Position| #[trigger]
            is_escape(own, origin, cell) && in_bounds(world, cell) implies exists|other: int|
            0 <= other < instances.len() && other != index && fills(
                macros,
                library,
                #[trigger] instances[other],
                cell,
            ) by {
            let e = choose|e: int| 0 <= e < own.escape@.len() && shifted(origin, #[trigger] own.escape@[e]) == cell;
            assert(!is_clear(boxes, index, shifted(origin, own.escape@[e])));
        }
    }
}

proof fn shut_counted_at(
    macros: Seq<MacroTemplate>,
    library: Seq<MacroInstance>,
    instances: Seq<MacroInstance>,
    world: DimSize,
    index: int,
    count: nat,
)
    requires
        boxes_fit(macros, library, instances),
        aabbs(macros, library, instances, instances.len()) is Ok,
        0 <= index < instances.len(),
        template_of(macros, library, instances[index].id) is Ok,
        count <= template_of(macros, library, instances[index].id)->Ok_0.pins@.len(),
        pins_before(pins_shut(macros, library, instances, world), index, 0).finite(),
    ensures
        pins_before(pins_shut(macros, library, instances, world), index, count as int).finite(),
        pins_before(pins_shut(macros, library, instances, world), index, count as int).len() == pins_before(
            pins_shut(macros, library, instances, world),
            index,
            0,
        ).len() + shut_among(
            template_of(macros, library, instances[index].id)->Ok_0.pins@,
            instances[index].position,
            world,
            aabbs(macros, library, instances, instances.len())->Ok_0,
            index,
            count,
        ),
    decreases count,
{
    if count > 0 {
        shut_counted_at(macros, library, instances, world, index, (count - 1) as nat);
        next_pin(pins_shut(macros, library, instances, world), index, count - 1);
        shut_is_shut(macros, library, instances, world, index, count - 1);
    }
}

proof fn shut_counted(
    macros: Seq<MacroTemplate>,
    library: Seq<MacroInstance>,
    instances: Seq<MacroInstance>,
    world: DimSize,
    count: nat,
)
    requires
        boxes_fit(macros, library, instances),
        aabbs(macros, library, instances, instances.len()) is Ok,
        all_known(macros, library, instances),
        count <= instances.len(),
    ensures
        pins_before(pins_shut(macros, library, instances, world), count as int, 0).finite(),
        shut_pins(
            macros,
            library,
            instances,
            world,
            aabbs(macros, library, instances, instances.len())->Ok_0,
            count,
        ) == pins_before(pins_shut(macros, library, instances, world), count as int, 0).len(),
    decreases count,
{
    let all = pins_shut(macros, library, instances, world);
    if count == 0 {
        assert(pins_before(all, 0, 0) =~= Set::empty());
    } else {
        shut_counted(macros, library, instances, world, (count - 1) as nat);
        assert(template_of(macros, library, instances[count - 1].id) is Ok);
        let pins = template_of(macros, library, instances[count - 1].id)->Ok_0.pins@;
        shut_counted_at(macros, library, instances, world, count - 1, pins.len());
        next_instance(all, count - 1, pins.len() as int);
    }
}

/// The pin access violations of a placement are the pins with escape cells of which
/// each is outside the world or filled by another instance.
pub proof fn shut_pins_have_no_free_escape(
    macros: Seq<MacroTemplate>,
    library: Seq<MacroInstance>,
    instances: Seq<MacroInstance>,
    world: DimSize,
)
    requires
        boxes_fit(macros, library, instances),
    ensures
        pin_access_violations(macros, library, instances, world) is Ok <==> all_known(macros, library, instances),
        pin_access_violations(macros, library, instances, world) matches Ok(count) ==> count == pins_shut(
            macros,
            library,
            instances,
            world,
        ).len(),
{
    boxes_are_known(macros, library, instances, instances.len());
    if aabbs(macros, library, instances, instances.len()) is Ok {
        let all = pins_shut(macros, library, instances, world);
        shut_counted(macros, library, instances, world, instances.len());
        assert(pins_before(all, instances.len() as int, 0) =~= all);
    }
}

// ---------------------------------------------------------------------------
// Overlaps and the box around a placement
// ---------------------------------------------------------------------------
/// Whether an instance has a macro and fills a cell.
pub open spec fn stands_on(macros: Seq<MacroTemplate>, instances: Seq<MacroInstance>, index: int, cell: Position) -> bool {
    &&& 0 <= index < instances.len()
    &&& template_of(macros, instances, instances[index].id) is Ok
    &&& fills(macros, instances, instances[index], cell)
}

/// The numbers of instances that fill a cell together, the smaller first.
pub open spec fn numbers_overlapping(macros: Seq<MacroTemplate>, instances: Seq<MacroInstance>) -> Set<(usize, usize)> {
    Set::new(
        |pair: (usize, usize)|
            pair.0 <= pair.1 && exists|i: int, j: int, cell: Position|
                i != j && #[trigger] stands_on(macros, instances, i, cell) && #[trigger] stands_on(
                    macros,
                    instances,
                    j,
                    cell,
                ) && instances[i].id == pair.0 && instances[j].id == pair.1,
    )
}

/// Where the instances that have a macro stand in a list.
proof fn known_places(macros: Seq<MacroTemplate>, instances: Seq<MacroInstance>, count: nat) -> (places: Seq<int>)
    requires
        count <= instances.len(),
    ensures
        places.len() == footprints(macros, instances, count).len(),
        forall|f: int|
            0 <= f < places.len() ==> {
                let instance = instances[#[trigger] places[f]];
                &&& 0 <= places[f] < count
                &&& template_of(macros, instances, instance.id) matches Ok(template) && footprints(
                    macros,
                    instances,
                    count,
                )[f] == (Footprint {
                    id: instance.id,
                    min: instance.position,
                    max: far_corner(template, instance.position),
                })
            },
        forall|f: int, g: int| 0 <= f < g < places.len() ==> places[f] < places[g],
        forall|i: int|
            0 <= i < count && template_of(macros, instances, (#[trigger] instances[i]).id) is Ok ==> places.contains(i),
    decreases count,
{
    if count == 0 {
        Seq::empty()
    } else {
        let fewer = known_places(macros, instances, (count - 1) as nat);
        let before = footprints(macros, instances, (count - 1) as nat);
        if template_of(macros, instances, instances[count - 1].id) is Ok {
            let places = fewer.push(count - 1);
            assert forall|i: int|
                0 <= i < count && template_of(macros, instances, (#[trigger] instances[i]).id) is Ok implies places.contains(
                i,
            ) by {
                if i == count - 1 {
                    assert(places[fewer.len() as int] == i);
                } else {
                    assert(fewer.contains(i));
                    let f = choose|f: int| 0 <= f < fewer.len() && fewer[f] == i;
                    assert(places[f] == i);
                }
            }
            assert forall|f: int| 0 <= f < places.len() implies {
                let instance = instances[#[trigger] places[f]];
                &&& 0 <= places[f] < count
                &&& template_of(macros, instances, instance.id) matches Ok(template) && footprints(
                    macros,
                    instances,
                    count,
                )[f] == (Footprint {
                    id: instance.id,
                    min: instance.position,
                    max: far_corner(template, instance.position),
                })
            } by {
                if f < fewer.len() {
                    assert(places[f] == fewer[f]);
                    assert(footprints(macros, instances, count)[f] == before[f]);
                }
            }
            places
        } else {
            fewer
        }
    }
}

/// Boxes that meet have a cell in common, and only they have.
proof fn meeting_is_sharing(
    macros: Seq<MacroTemplate>,
    instances: Seq<MacroInstance>,
    i: int,
    j: int,
)
    requires
        footprints_fit(macros, instances),
        0 <= i < instances.len(),
        0 <= j < instances.len(),
        template_of(macros, instances, instances[i].id) is Ok,
        template_of(macros, instances, instances[j].id) is Ok,
    ensures
        boxes_meet(
            instances[i].position,
            far_corner(template_of(macros, instances, instances[i].id)->Ok_0, instances[i].position),
            instances[j].position,
            far_corner(template_of(macros, instances, instances[j].id)->Ok_0, instances[j].position),
        ) <==> exists|cell: Position| #[trigger]
            stands_on(macros, instances, i, cell) && stands_on(macros, instances, j, cell),
{
    let (a, b) = (instances[i].position, instances[j].position);
    let own = template_of(macros, instances, instances[i].id)->Ok_0;
    let other = template_of(macros, instances, instances[j].id)->Ok_0;
    assert(footprint_fits(own, a));
    assert(footprint_fits(other, b));
    let cell = Position(
        if a.0 < b.0 { b.0 } else { a.0 },
        if a.1 < b.1 { b.1 } else { a.1 },
        if a.2 < b.2 { b.2 } else { a.2 },
    );
    if boxes_meet(a, far_corner(own, a), b, far_corner(other, b)) {
        assert(stands_on(macros, instances, i, cell) && stands_on(macros, instances, j, cell));
    }
}

proof fn overlaps_are_shared_cells(macros: Seq<MacroTemplate>, instances: Seq<MacroInstance>)
    requires
        footprints_fit(macros, instances),
    ensures
        overlap_set(footprints(macros, instances, instances.len())) == numbers_overlapping(macros, instances),
{
    let list = footprints(macros, instances, instances.len());
    let places = known_places(macros, instances, instances.len());
    let shared = numbers_overlapping(macros, instances);
    assert forall|pair: (usize, usize)| overlap_set(list).contains(pair) <==> shared.contains(pair) by {
        if overlap_set(list).contains(pair) {
            let (f, g) = choose|f: int, g: int| #[trigger] is_overlap(list, f, g, pair);
            let (i, j) = (places[f], places[g]);
            meeting_is_sharing(macros, instances, i, j);
            let cell = choose|cell: Position| #[trigger]
                stands_on(macros, instances, i, cell) && stands_on(macros, instances, j, cell);
            assert(stands_on(macros, instances, i, cell) && stands_on(macros, instances, j, cell));
            assert(stands_on(macros, instances, j, cell) && stands_on(macros, instances, i, cell));
        }
        if shared.contains(pair) {
            let (i, j, cell) = choose|i: int, j: int, cell: Position|
                i != j && #[trigger] stands_on(macros, instances, i, cell) && #[trigger] stands_on(
                    macros,
                    instances,
                    j,
                    cell,
                ) && instances[i].id == pair.0 && instances[j].id == pair.1;
            assert(places.contains(i) && places.contains(j));
            let f = choose|f: int| 0 <= f < places.len() && places[f] == i;
            let g = choose|g: int| 0 <= g < places.len() && places[g] == j;
            meeting_is_sharing(macros, instances, i, j);
            assert(stands_on(macros, instances, i, cell) && stands_on(macros, instances, j, cell));
            assert(boxes_meet(list[f].min, list[f].max, list[g].min, list[g].max));
            if f < g {
                assert(is_overlap(list, f, g, pair));
            } else {
                assert(is_overlap(list, g, f, pair));
            }
        }
    }
    assert(overlap_set(list) =~= shared);
}

/// The size of a macro along an axis.
pub open spec fn size_along(size: DimSize, axis: int) -> usize {
    if axis == 0 {
        size.0
    } else if axis == 1 {
        size.1
    } else {
        size.2
    }
}

/// Whether an instance fills a coordinate along an axis.
pub open spec fn covers_along(
    macros: Seq<MacroTemplate>,
    instances: Seq<MacroInstance>,
    index: int,
    axis: int,
    at: int,
) -> bool {
    &&& 0 <= index < instances.len()
    &&& template_of(macros, instances, instances[index].id) matches Ok(template) && covers(
        coordinate(instances[index].position, axis),
        size_along(template.size, axis),
        at,
    )
}

/// Whether the instances reach from one coordinate to another along an axis: all they
/// fill lies between the two, and they fill both.
pub open spec fn is_span(
    macros: Seq<MacroTemplate>,
    instances: Seq<MacroInstance>,
    axis: int,
    low: int,
    high: int,
) -> bool {
    &&& forall|index: int, at: int| #[trigger] covers_along(macros, instances, index, axis, at) ==> low <= at <= high
    &&& exists|index: int| #[trigger] covers_along(macros, instances, index, axis, low)
    &&& exists|index: int| #[trigger] covers_along(macros, instances, index, axis, high)
}

proof fn extremes_attained(cells: Seq<Position>, axis: int) -> (found: (int, int))
    requires
        cells.len() > 0,
    ensures
        0 <= found.0 < cells.len(),
        0 <= found.1 < cells.len(),
        coordinate(cells[found.0], axis) == lowest(cells, axis),
        coordinate(cells[found.1], axis) == highest(cells, axis),
    decreases cells.len(),
{
    let last = cells.len() - 1;
    if cells.len() == 1 {
        assert(cells.drop_last().len() == 0);
        assert(lowest(cells.drop_last(), axis) == usize::MAX);
        assert(highest(cells.drop_last(), axis) == 0);
        assert(cells.last() == cells[0]);
        (0, 0)
    } else {
        let (low, high) = extremes_attained(cells.drop_last(), axis);
        assert(cells.drop_last()[low] == cells[low] && cells.drop_last()[high] == cells[high]);
        assert(cells.last() == cells[last]);
        (
            if coordinate(cells.last(), axis) < lowest(cells.drop_last(), axis) { last } else { low },
            if coordinate(cells.last(), axis) > highest(cells.drop_last(), axis) { last } else { high },
        )
    }
}

/// The corners of an instance are coordinates that it fills, and bound the others.
proof fn corners_along(macros: Seq<MacroTemplate>, instances: Seq<MacroInstance>, index: int, axis: int)
    requires
        footprints_fit(macros, instances),
        0 <= axis < 3,
        0 <= index < instances.len(),
        template_of(macros, instances, instances[index].id) is Ok,
    ensures
        ({
            let template = template_of(macros, instances, instances[index].id)->Ok_0;
            let low = coordinate(instances[index].position, axis) as int;
            let high = coordinate(far_corner(template, instances[index].position), axis) as int;
            &&& covers_along(macros, instances, index, axis, low)
            &&& covers_along(macros, instances, index, axis, high)
            &&& forall|at: int| #[trigger] covers_along(macros, instances, index, axis, at) ==> low <= at <= high
        }),
{
    let template = template_of(macros, instances, instances[index].id)->Ok_0;
    assert(footprint_fits(template, instances[index].position));
}

#[verifier::spinoff_prover]
proof fn box_is_span(
    macros: Seq<MacroTemplate>,
    instances: Seq<MacroInstance>,
    axis: int,
    low: int,
    high: int,
)
    requires
        footprints_fit(macros, instances),
        0 <= axis < 3,
        is_span(macros, instances, axis, low, high),
    ensures
        footprints(macros, instances, instances.len()).len() > 0,
        low == lowest(
            footprints(macros, instances, instances.len()).map_values(|footprint: Footprint| footprint.min),
            axis,
        ),
        high == highest(
            footprints(macros, instances, instances.len()).map_values(|footprint: Footprint| footprint.max),
            axis,
        ),
{
    let list = footprints(macros, instances, instances.len());
    let places = known_places(macros, instances, instances.len());
    let mins = list.map_values(|footprint: Footprint| footprint.min);
    let maxes = list.map_values(|footprint: Footprint| footprint.max);
    let first = choose|index: int| #[trigger] covers_along(macros, instances, index, axis, low);
    let last = choose|index: int| #[trigger] covers_along(macros, instances, index, axis, high);
    assert(places.contains(first) && places.contains(last));
    let f = choose|f: int| 0 <= f < places.len() && places[f] == first;
    let g = choose|g: int| 0 <= g < places.len() && places[g] == last;
    extremes_bound(mins, axis, f);
    extremes_bound(maxes, axis, g);
    let least = extremes_attained(mins, axis).0;
    let most = extremes_attained(maxes, axis).1;
    extremes_bound(mins, axis, least);
    extremes_bound(maxes, axis, most);
    corners_along(macros, instances, places[f], axis);
    corners_along(macros, instances, places[g], axis);
    corners_along(macros, instances, places[least], axis);
    corners_along(macros, instances, places[most], axis);
    assert(maxes[g] == list[g].max && mins[f] == list[f].min);
    assert(maxes[most] == list[most].max && mins[least] == list[least].min);
    assert(0 <= places[f] < instances.len() && 0 <= places[g] < instances.len());
    assert(0 <= places[least] < instances.len() && 0 <= places[most] < instances.len());
    assert(covers_along(macros, instances, places[least], axis, coordinate(mins[least], axis) as int));
    assert(covers_along(macros, instances, places[most], axis, coordinate(maxes[most], axis) as int));
}

/// What the parts of the cost of a placement count: the cells of the smallest box
/// around it, the pins that cannot be left, the pairs of instances that fill a cell
/// together, those with too few free cells between them, and the pins whose escape
/// cells are all taken.
pub proof fn measure_counts(
    macros: Seq<MacroTemplate>,
    library: Seq<MacroInstance>,
    nets: Seq<PhysicalNet>,
    instances: Seq<MacroInstance>,
    spacing: usize,
    world: DimSize,
    low: (int, int, int),
    high: (int, int, int),
)
    requires
        measure_fits(macros, library, nets, instances),
        measured(macros, library, nets, instances, spacing, world) is Ok,
    ensures
        ({
            let measure = measured(macros, library, nets, instances, spacing, world)->Ok_0;
            &&& measure.blocked_pins as nat == pins_blocked(macros, library, instances, world).len()
            &&& measure.pin_access_violations as nat == pins_shut(macros, library, instances, world).len()
            &&& measure.overlapping_pairs == numbers_overlapping(macros, instances).len() as usize
            &&& measure.spacing_violations as nat == (if spacing == 0 {
                0
            } else {
                pairs_too_close(macros, library, instances, spacing).len()
            })
            &&& is_span(macros, instances, 0, low.0, high.0) && is_span(macros, instances, 1, low.1, high.1) && is_span(
                macros,
                instances,
                2,
                low.2,
                high.2,
            ) ==> measure.bounding_box_volume == (high.0 - low.0 + 1) * (high.1 - low.1 + 1) * (high.2 - low.2 + 1)
        }),
{
    let count = instances.len();
    blocked_pins_cannot_be_left(macros, library, instances, world);
    shut_pins_have_no_free_escape(macros, library, instances, world);
    overlaps_are_shared_cells(macros, instances);
    spacing_counts_pairs_too_close(macros, library, instances, spacing);
    boxes_are_known(macros, library, instances, count);
    let boxes = aabbs(macros, library, instances, count)->Ok_0;
    aabbs_are_boxes(macros, library, instances, count);
    close_pairs_bound(macros, library, instances, boxes, spacing, count, count + 1);
    assert((count + 1) * count >= count * count + 1 || count == 0) by (nonlinear_arith);
    pins_bound(macros, library, instances, world, count);
    if is_span(macros, instances, 0, low.0, high.0) && is_span(macros, instances, 1, low.1, high.1) && is_span(
        macros,
        instances,
        2,
        low.2,
        high.2,
    ) {
        box_is_span(macros, instances, 0, low.0, high.0);
        box_is_span(macros, instances, 1, low.1, high.1);
        box_is_span(macros, instances, 2, low.2, high.2);
        assert((high.0 - low.0 + 1) * (high.1 - low.1 + 1) * (high.2 - low.2 + 1) >= 0) by (nonlinear_arith)
            requires
                low.0 <= high.0,
                low.1 <= high.1,
                low.2 <= high.2,
        ;
    }
}

proof fn among_bound(
    pins: Seq<MacroPin>,
    origin: Position,
    world: DimSize,
    boxes: Seq<BoundingBox>,
    own: int,
    count: nat,
)
    ensures
        blocked_among(pins, origin, world, count) <= count,
        shut_among(pins, origin, world, boxes, own, count) <= count,
    decreases count,
{
    if count > 0 {
        among_bound(pins, origin, world, boxes, own, (count - 1) as nat);
    }
}

proof fn pins_bound(
    macros: Seq<MacroTemplate>,
    library: Seq<MacroInstance>,
    instances: Seq<MacroInstance>,
    world: DimSize,
    count: nat,
)
    requires
        count <= instances.len(),
        all_known(macros, library, instances),
    ensures
        blocked_pins(macros, library, instances, world, count) matches Ok(total) ==> 0 <= total <= instance_pins(
            macros,
            library,
            instances,
            count,
        ),
        shut_pins(
            macros,
            library,
            instances,
            world,
            aabbs(macros, library, instances, instances.len())->Ok_0,
            count,
        ) <= instance_pins(macros, library, instances, count),
    decreases count,
{
    if count > 0 {
        pins_bound(macros, library, instances, world, (count - 1) as nat);
        assert(template_of(macros, library, instances[count - 1].id) is Ok);
        let pins = template_of(macros, library, instances[count - 1].id)->Ok_0.pins@;
        let boxes = aabbs(macros, library, instances, instances.len())->Ok_0;
        among_bound(pins, instances[count - 1].position, world, boxes, count - 1, pins.len());
    }
}

} // verus!

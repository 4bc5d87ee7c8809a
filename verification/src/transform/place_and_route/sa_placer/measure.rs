//! What a placement costs, in numbers of blocks, pins and pairs.

use crate::order::comes_before;
use crate::transform::place_and_route::placement_error::{agrees, PlacementError, PlacementErrorView};
use crate::transform::place_and_route::placement_ir::{
    shift_cell, shift_fits, shifted, MacroInstance, MacroPin, MacroTemplate, PhysicalNet,
};
use crate::transform::place_and_route::placement_problem::{
    agrees_on_number, bounding_box_of, corner_of, extremes_bound, far_corner, footprint_box, footprint_fits,
    footprints, footprints_fit, instance_template, is_overlap, lists_overlaps, nets_fit, overlaps_of, template_of,
    wire_length, wire_length_of, Footprint, PlacementProblem,
};
use crate::world::grid::{box_holds, BoundingBox};
use crate::world::position::{in_bounds, DimSize, Position};
use vstd::prelude::*;

verus! {

/// The box of an instance.
pub open spec fn aabb(
    macros: Seq<MacroTemplate>,
    library: Seq<MacroInstance>,
    instance: MacroInstance,
) -> Result<BoundingBox, PlacementErrorView> {
    match template_of(macros, library, instance.id) {
        Err(error) => Err(error),
        Ok(template) => Ok(
            BoundingBox { min: instance.position, max: far_corner(template, instance.position) },
        ),
    }
}

/// The boxes of the first `count` instances, or the first error.
pub open spec fn aabbs(
    macros: Seq<MacroTemplate>,
    library: Seq<MacroInstance>,
    instances: Seq<MacroInstance>,
    count: nat,
) -> Result<Seq<BoundingBox>, PlacementErrorView>
    decreases count,
{
    if count == 0 {
        Ok(Seq::empty())
    } else {
        match aabbs(macros, library, instances, (count - 1) as nat) {
            Err(error) => Err(error),
            Ok(boxes) => match aabb(macros, library, instances[count - 1]) {
                Err(error) => Err(error),
                Ok(next) => Ok(boxes.push(next)),
            },
        }
    }
}

proof fn aabbs_fail(
    macros: Seq<MacroTemplate>,
    library: Seq<MacroInstance>,
    instances: Seq<MacroInstance>,
    low: nat,
    high: nat,
)
    requires
        low <= high,
        aabbs(macros, library, instances, low) is Err,
    ensures
        aabbs(macros, library, instances, high) == aabbs(macros, library, instances, low),
    decreases high,
{
    if low < high {
        aabbs_fail(macros, library, instances, low, (high - 1) as nat);
    }
}

pub proof fn aabbs_are_boxes(
    macros: Seq<MacroTemplate>,
    library: Seq<MacroInstance>,
    instances: Seq<MacroInstance>,
    count: nat,
)
    requires
        aabbs(macros, library, instances, count) is Ok,
    ensures
        aabbs(macros, library, instances, count)->Ok_0.len() == count,
        forall|i: int|
            0 <= i < count ==> aabb(macros, library, instances[i]) == Ok::<BoundingBox, PlacementErrorView>(
                #[trigger] aabbs(macros, library, instances, count)->Ok_0[i],
            ),
    decreases count,
{
    if count > 0 {
        aabbs_are_boxes(macros, library, instances, (count - 1) as nat);
    }
}

/// Whether the boxes and escape cells of all instances are in range.
pub open spec fn boxes_fit(
    macros: Seq<MacroTemplate>,
    library: Seq<MacroInstance>,
    instances: Seq<MacroInstance>,
) -> bool {
    forall|i: int|
        0 <= i < instances.len() ==> match template_of(macros, library, (#[trigger] instances[i]).id) {
            Ok(template) => footprint_fits(template, instances[i].position) && escapes_fit(
                template.pins@,
                instances[i].position,
            ),
            Err(_) => true,
        }
}

/// Whether the escape cells of some pins are in range.
pub open spec fn escapes_fit(pins: Seq<MacroPin>, origin: Position) -> bool {
    forall|k: int, e: int|
        0 <= k < pins.len() && 0 <= e < pins[k].escape@.len() ==> shift_fits(origin, #[trigger] pins[k].escape@[e])
}

fn collect_boxes(
    macros: &Vec<MacroTemplate>,
    library: &Vec<MacroInstance>,
    instances: &Vec<MacroInstance>,
) -> (result: Result<Vec<BoundingBox>, PlacementError>)
    requires
        boxes_fit(macros@, library@, instances@),
    ensures
        match result {
            Ok(boxes) => aabbs(macros@, library@, instances@, instances@.len()) == Ok::<
                Seq<BoundingBox>,
                PlacementErrorView,
            >(boxes@),
            Err(error) => aabbs(macros@, library@, instances@, instances@.len()) == Err::<
                Seq<BoundingBox>,
                PlacementErrorView,
            >(error@),
        },
{
    let mut boxes: Vec<BoundingBox> = Vec::new();
    let mut index: usize = 0;
    while index < instances.len()
        invariant
            index <= instances.len(),
            boxes_fit(macros@, library@, instances@),
            aabbs(macros@, library@, instances@, index as nat) == Ok::<Seq<BoundingBox>, PlacementErrorView>(boxes@),
        decreases instances.len() - index,
    {
        let id: usize = instances[index].id;
        let origin = instances[index].position;
        assert(instances@[index as int].id == id);
        match instance_template(macros, library, id) {
            Err(error) => {
                proof {
                    aabbs_fail(macros@, library@, instances@, (index + 1) as nat, instances@.len());
                }
                return Err(error);
            },
            Ok(template) => {
                boxes.push(BoundingBox { min: origin, max: corner_of(template, origin) });
            },
        }
        index += 1;
    }
    Ok(boxes)
}

// ---------------------------------------------------------------------------
// Spacing
// ---------------------------------------------------------------------------
/// The free cells between two spans.
pub open spec fn span_gap(min_a: usize, max_a: usize, min_b: usize, max_b: usize) -> int {
    if max_a < min_b {
        min_b - max_a - 1
    } else if max_b < min_a {
        min_a - max_b - 1
    } else {
        0
    }
}

/// The free cells between two boxes, along all axes.
pub open spec fn box_gap(first: BoundingBox, second: BoundingBox) -> int {
    span_gap(first.min.0, first.max.0, second.min.0, second.max.0) + span_gap(
        first.min.1,
        first.max.1,
        second.min.1,
        second.max.1,
    ) + span_gap(first.min.2, first.max.2, second.min.2, second.max.2)
}

fn gap_along(min_a: usize, max_a: usize, min_b: usize, max_b: usize) -> (gap: usize)
    ensures
        gap == span_gap(min_a, max_a, min_b, max_b),
{
    if max_a < min_b {
        min_b - max_a - 1
    } else if max_b < min_a {
        min_a - max_b - 1
    } else {
        0
    }
}

fn axis_gap(first: &BoundingBox, second: &BoundingBox) -> (gap: usize)
    requires
        box_gap(*first, *second) <= usize::MAX,
    ensures
        gap == box_gap(*first, *second),
{
    gap_along(first.min.0, first.max.0, second.min.0, second.max.0) + gap_along(
        first.min.1,
        first.max.1,
        second.min.1,
        second.max.1,
    ) + gap_along(first.min.2, first.max.2, second.min.2, second.max.2)
}

/// The larger of two numbers.
pub open spec fn larger(left: usize, right: usize) -> usize {
    if left >= right {
        left
    } else {
        right
    }
}

fn larger_of(left: usize, right: usize) -> (most: usize)
    ensures
        most == larger(left, right),
{
    if left >= right {
        left
    } else {
        right
    }
}

/// How many cells around an instance stay free.
pub open spec fn halo_of(macros: Seq<MacroTemplate>, library: Seq<MacroInstance>, instance: MacroInstance) -> usize {
    template_of(macros, library, instance.id)->Ok_0.halo
}

/// Whether two instances are closer than the spacing or one of their halos
/// asks.
pub open spec fn too_close(
    macros: Seq<MacroTemplate>,
    library: Seq<MacroInstance>,
    instances: Seq<MacroInstance>,
    boxes: Seq<BoundingBox>,
    required: usize,
    low: int,
    high: int,
) -> bool {
    box_gap(boxes[low], boxes[high]) < larger(
        larger(required, halo_of(macros, library, instances[low])),
        halo_of(macros, library, instances[high]),
    )
}

/// The pairs that are too close among those before `(low, high)`.
pub open spec fn close_pairs(
    macros: Seq<MacroTemplate>,
    library: Seq<MacroInstance>,
    instances: Seq<MacroInstance>,
    boxes: Seq<BoundingBox>,
    required: usize,
    low: nat,
    high: nat,
) -> nat
    decreases low, high,
{
    if high > low + 1 {
        close_pairs(macros, library, instances, boxes, required, low, (high - 1) as nat) + if too_close(
            macros,
            library,
            instances,
            boxes,
            required,
            low as int,
            high - 1,
        ) {
            1nat
        } else {
            0
        }
    } else if low > 0 {
        close_pairs(macros, library, instances, boxes, required, (low - 1) as nat, boxes.len())
    } else {
        0
    }
}

pub proof fn close_pairs_bound(
    macros: Seq<MacroTemplate>,
    library: Seq<MacroInstance>,
    instances: Seq<MacroInstance>,
    boxes: Seq<BoundingBox>,
    required: usize,
    low: nat,
    high: nat,
)
    requires
        high <= boxes.len() || high <= low + 1,
    ensures
        close_pairs(macros, library, instances, boxes, required, low, high) <= low * boxes.len() + if high > low {
            high - low
        } else {
            0
        },
    decreases low, high,
{
    if high > low + 1 {
        close_pairs_bound(macros, library, instances, boxes, required, low, (high - 1) as nat);
    } else if low > 0 {
        close_pairs_bound(macros, library, instances, boxes, required, (low - 1) as nat, boxes.len());
        let len = boxes.len();
        assert(low * len == (low - 1) * len + len) by (nonlinear_arith);
        if len <= low - 1 {
            assert((low - 1) * len <= low * len);
        }
    }
}

/// How many pairs of instances are too close.
pub open spec fn spacing_violations(
    macros: Seq<MacroTemplate>,
    library: Seq<MacroInstance>,
    instances: Seq<MacroInstance>,
    required: usize,
) -> Result<int, PlacementErrorView> {
    if required == 0 {
        Ok(0)
    } else {
        match aabbs(macros, library, instances, instances.len()) {
            Err(error) => Err(error),
            Ok(boxes) => Ok(
                close_pairs(macros, library, instances, boxes, required, boxes.len(), boxes.len() + 1) as int,
            ),
        }
    }
}

/// Whether the gaps between all boxes are in range.
pub open spec fn all_gaps_fit(boxes: Seq<BoundingBox>) -> bool {
    forall|i: int, j: int| 0 <= i < j < boxes.len() ==> box_gap(#[trigger] boxes[i], #[trigger] boxes[j]) <= usize::MAX
}

/// Whether the gaps between all boxes are in range, and their number is.
pub open spec fn gaps_fit(
    macros: Seq<MacroTemplate>,
    library: Seq<MacroInstance>,
    instances: Seq<MacroInstance>,
) -> bool {
    &&& (instances.len() + 1) * instances.len() <= usize::MAX
    &&& match aabbs(macros, library, instances, instances.len()) {
        Ok(boxes) => all_gaps_fit(boxes),
        Err(_) => true,
    }
}

/// How many pairs of instances are too close.
pub fn spacing_violation_count(problem: &PlacementProblem, instances: &Vec<MacroInstance>, required: usize) -> (result:
    Result<usize, PlacementError>)
    requires
        boxes_fit(problem.macros@, problem.instances@, instances@),
        gaps_fit(problem.macros@, problem.instances@, instances@),
    ensures
        agrees_on_number(
            result,
            spacing_violations(problem.macros@, problem.instances@, instances@, required),
        ),
{
    if required == 0 {
        return Ok(0);
    }
    let boxes = match collect_boxes(&problem.macros, &problem.instances, instances) {
        Err(error) => return Err(error),
        Ok(boxes) => boxes,
    };
    let ghost m = problem.macros@;
    let ghost library = problem.instances@;
    let ghost n = instances@;
    let mut halos: Vec<usize> = Vec::new();
    proof {
        aabbs_are_boxes(m, library, n, n.len());
    }
    let mut index: usize = 0;
    while index < instances.len()
        invariant
            index <= instances.len(),
            m == problem.macros@,
            library == problem.instances@,
            n == instances@,
            aabbs(m, library, n, n.len()) == Ok::<Seq<BoundingBox>, PlacementErrorView>(boxes@),
            halos.len() == index,
            forall|i: int| 0 <= i < index ==> #[trigger] halos[i] == halo_of(m, library, n[i]),
        decreases instances.len() - index,
    {
        let ghost slot = index as int;
        proof {
            aabbs_are_boxes(m, library, n, n.len());
            assert(aabb(m, library, n[slot]) == Ok::<BoundingBox, PlacementErrorView>(boxes@[slot]));
        }
        match instance_template(&problem.macros, &problem.instances, instances[index].id) {
            Err(error) => return Err(error),
            Ok(template) => {
                halos.push(template.halo);
            },
        }
        index += 1;
    }
    let mut violations: usize = 0;
    let mut first: usize = 0;
    while first < boxes.len()
        invariant
            first <= boxes.len(),
            boxes.len() == n.len(),
            halos.len() == n.len(),
            forall|i: int| 0 <= i < n.len() ==> #[trigger] halos[i] == halo_of(m, library, n[i]),
            aabbs(m, library, n, n.len()) == Ok::<Seq<BoundingBox>, PlacementErrorView>(boxes@),
            gaps_fit(m, library, n),
            violations == close_pairs(m, library, n, boxes@, required, first as nat, (first + 1) as nat),
        decreases boxes.len() - first,
    {
        let mut second: usize = first + 1;
        while second < boxes.len()
            invariant
                first < second <= boxes.len(),
                boxes.len() == n.len(),
                halos.len() == n.len(),
                forall|i: int| 0 <= i < n.len() ==> #[trigger] halos[i] == halo_of(m, library, n[i]),
                aabbs(m, library, n, n.len()) == Ok::<Seq<BoundingBox>, PlacementErrorView>(boxes@),
                gaps_fit(m, library, n),
                violations == close_pairs(m, library, n, boxes@, required, first as nat, second as nat),
            decreases boxes.len() - second,
        {
            proof {
                let len = n.len();
                close_pairs_bound(m, library, n, boxes@, required, first as nat, (second + 1) as nat);
                assert(first * len + len <= (len + 1) * len) by (nonlinear_arith)
                    requires
                        first < len,
                ;
                assert(all_gaps_fit(boxes@));
                assert(box_gap(boxes@[first as int], boxes@[second as int]) <= usize::MAX);
            }
            let wanted: usize = larger_of(larger_of(required, halos[first]), halos[second]);
            if axis_gap(&boxes[first], &boxes[second]) < wanted {
                violations += 1;
            }
            second += 1;
        }
        first += 1;
    }
    Ok(violations)
}

// ---------------------------------------------------------------------------
// Pins
// ---------------------------------------------------------------------------
/// Whether an escape cell lies in the world.
pub open spec fn is_reachable(pin: MacroPin, origin: Position, world: DimSize) -> bool {
    exists|e: int| 0 <= e < pin.escape@.len() && in_bounds(world, shifted(origin, #[trigger] pin.escape@[e]))
}

/// Whether a cell lies outside all boxes but one.
pub open spec fn is_clear(boxes: Seq<BoundingBox>, own: int, cell: Position) -> bool {
    forall|other: int| 0 <= other < boxes.len() && other != own ==> !box_holds(#[trigger] boxes[other], cell)
}

/// Whether an escape cell lies in the world and outside the other boxes.
pub open spec fn is_accessible(
    pin: MacroPin,
    origin: Position,
    world: DimSize,
    boxes: Seq<BoundingBox>,
    own: int,
) -> bool {
    exists|e: int| 0 <= e < pin.escape@.len() && in_bounds(world, shifted(origin, #[trigger] pin.escape@[e]))
        && is_clear(boxes, own, shifted(origin, pin.escape@[e]))
}

/// How many of the first `count` pins have no escape cell in the world.
pub open spec fn blocked_among(pins: Seq<MacroPin>, origin: Position, world: DimSize, count: nat) -> nat
    decreases count,
{
    if count == 0 {
        0
    } else {
        blocked_among(pins, origin, world, (count - 1) as nat) + if is_reachable(pins[count - 1], origin, world) {
            0nat
        } else {
            1
        }
    }
}

/// How many of the first `count` pins have escape cells of which none is free.
pub open spec fn shut_among(
    pins: Seq<MacroPin>,
    origin: Position,
    world: DimSize,
    boxes: Seq<BoundingBox>,
    own: int,
    count: nat,
) -> nat
    decreases count,
{
    if count == 0 {
        0
    } else {
        let pin = pins[count - 1];
        shut_among(pins, origin, world, boxes, own, (count - 1) as nat) + if pin.escape@.len() == 0 || is_accessible(
            pin,
            origin,
            world,
            boxes,
            own,
        ) {
            0nat
        } else {
            1
        }
    }
}

/// How many pins of the first `count` instances have no escape cell in the
/// world.
pub open spec fn blocked_pins(
    macros: Seq<MacroTemplate>,
    library: Seq<MacroInstance>,
    instances: Seq<MacroInstance>,
    world: DimSize,
    count: nat,
) -> Result<int, PlacementErrorView>
    decreases count,
{
    if count == 0 {
        Ok(0)
    } else {
        match blocked_pins(macros, library, instances, world, (count - 1) as nat) {
            Err(error) => Err(error),
            Ok(total) => match template_of(macros, library, instances[count - 1].id) {
                Err(error) => Err(error),
                Ok(template) => Ok(
                    total + blocked_among(
                        template.pins@,
                        instances[count - 1].position,
                        world,
                        template.pins@.len(),
                    ),
                ),
            },
        }
    }
}

/// How many pins of the first `count` instances have escape cells of which none
/// is free.
pub open spec fn shut_pins(
    macros: Seq<MacroTemplate>,
    library: Seq<MacroInstance>,
    instances: Seq<MacroInstance>,
    world: DimSize,
    boxes: Seq<BoundingBox>,
    count: nat,
) -> nat
    decreases count,
{
    if count == 0 {
        0
    } else {
        let template = template_of(macros, library, instances[count - 1].id)->Ok_0;
        shut_pins(macros, library, instances, world, boxes, (count - 1) as nat) + shut_among(
            template.pins@,
            instances[count - 1].position,
            world,
            boxes,
            count - 1,
            template.pins@.len(),
        )
    }
}

/// How many pins have escape cells of which none is free.
pub open spec fn pin_access_violations(
    macros: Seq<MacroTemplate>,
    library: Seq<MacroInstance>,
    instances: Seq<MacroInstance>,
    world: DimSize,
) -> Result<int, PlacementErrorView> {
    match aabbs(macros, library, instances, instances.len()) {
        Err(error) => Err(error),
        Ok(boxes) => Ok(shut_pins(macros, library, instances, world, boxes, instances.len()) as int),
    }
}

/// How many pins the first `count` instances have.
pub open spec fn instance_pins(
    macros: Seq<MacroTemplate>,
    library: Seq<MacroInstance>,
    instances: Seq<MacroInstance>,
    count: nat,
) -> nat
    decreases count,
{
    if count == 0 {
        0
    } else {
        instance_pins(macros, library, instances, (count - 1) as nat) + match template_of(
            macros,
            library,
            instances[count - 1].id,
        ) {
            Ok(template) => template.pins@.len(),
            Err(_) => 0,
        }
    }
}

pub proof fn instance_pins_grow(
    macros: Seq<MacroTemplate>,
    library: Seq<MacroInstance>,
    instances: Seq<MacroInstance>,
    low: nat,
    high: nat,
)
    requires
        low <= high,
    ensures
        instance_pins(macros, library, instances, low) <= instance_pins(macros, library, instances, high),
    decreases high,
{
    if low < high {
        instance_pins_grow(macros, library, instances, low, (high - 1) as nat);
    }
}

proof fn blocked_among_bound(pins: Seq<MacroPin>, origin: Position, world: DimSize, count: nat)
    ensures
        blocked_among(pins, origin, world, count) <= count,
    decreases count,
{
    if count > 0 {
        blocked_among_bound(pins, origin, world, (count - 1) as nat);
    }
}

proof fn shut_among_bound(
    pins: Seq<MacroPin>,
    origin: Position,
    world: DimSize,
    boxes: Seq<BoundingBox>,
    own: int,
    count: nat,
)
    ensures
        shut_among(pins, origin, world, boxes, own, count) <= count,
    decreases count,
{
    if count > 0 {
        shut_among_bound(pins, origin, world, boxes, own, (count - 1) as nat);
    }
}

proof fn blocked_pins_fail(
    macros: Seq<MacroTemplate>,
    library: Seq<MacroInstance>,
    instances: Seq<MacroInstance>,
    world: DimSize,
    low: nat,
    high: nat,
)
    requires
        low <= high,
        blocked_pins(macros, library, instances, world, low) is Err,
    ensures
        blocked_pins(macros, library, instances, world, high) == blocked_pins(
            macros,
            library,
            instances,
            world,
            low,
        ),
    decreases high,
{
    if low < high {
        blocked_pins_fail(macros, library, instances, world, low, (high - 1) as nat);
    }
}

fn reaches_world(pin: &MacroPin, origin: Position, world: DimSize) -> (reachable: bool)
    requires
        forall|e: int| 0 <= e < pin.escape@.len() ==> shift_fits(origin, #[trigger] pin.escape@[e]),
    ensures
        reachable == is_reachable(*pin, origin, world),
{
    let mut index: usize = 0;
    while index < pin.escape.len()
        invariant
            index <= pin.escape.len(),
            forall|e: int| 0 <= e < pin.escape@.len() ==> shift_fits(origin, #[trigger] pin.escape@[e]),
            forall|e: int| 0 <= e < index ==> !in_bounds(world, shifted(origin, #[trigger] pin.escape@[e])),
        decreases pin.escape.len() - index,
    {
        assert(shift_fits(origin, pin.escape@[index as int]));
        if world.bound_on(shift_cell(origin, pin.escape[index])) {
            assert(in_bounds(world, shifted(origin, pin.escape@[index as int])));
            return true;
        }
        index += 1;
    }
    false
}

fn lies_clear(boxes: &Vec<BoundingBox>, own: usize, cell: Position) -> (clear: bool)
    ensures
        clear == is_clear(boxes@, own as int, cell),
{
    let mut other: usize = 0;
    while other < boxes.len()
        invariant
            other <= boxes.len(),
            forall|k: int| 0 <= k < other && k != own ==> !box_holds(#[trigger] boxes@[k], cell),
        decreases boxes.len() - other,
    {
        let bounds = boxes[other];
        if other != own && bounds.min.0 <= cell.0 && cell.0 <= bounds.max.0 && bounds.min.1 <= cell.1 && cell.1
            <= bounds.max.1 && bounds.min.2 <= cell.2 && cell.2 <= bounds.max.2 {
            assert(box_holds(boxes@[other as int], cell));
            return false;
        }
        other += 1;
    }
    true
}

fn has_access(pin: &MacroPin, origin: Position, world: DimSize, boxes: &Vec<BoundingBox>, own: usize) -> (accessible:
    bool)
    requires
        forall|e: int| 0 <= e < pin.escape@.len() ==> shift_fits(origin, #[trigger] pin.escape@[e]),
    ensures
        accessible == is_accessible(*pin, origin, world, boxes@, own as int),
{
    let mut index: usize = 0;
    while index < pin.escape.len()
        invariant
            index <= pin.escape.len(),
            forall|e: int| 0 <= e < pin.escape@.len() ==> shift_fits(origin, #[trigger] pin.escape@[e]),
            forall|e: int|
                0 <= e < index ==> !(in_bounds(world, shifted(origin, #[trigger] pin.escape@[e])) && is_clear(
                    boxes@,
                    own as int,
                    shifted(origin, pin.escape@[e]),
                )),
        decreases pin.escape.len() - index,
    {
        assert(shift_fits(origin, pin.escape@[index as int]));
        let cell = shift_cell(origin, pin.escape[index]);
        if world.bound_on(cell) && lies_clear(boxes, own, cell) {
            assert(in_bounds(world, shifted(origin, pin.escape@[index as int])));
            return true;
        }
        index += 1;
    }
    false
}

/// How many pins have no escape cell in the world.
pub fn blocked_pin_count(problem: &PlacementProblem, instances: &Vec<MacroInstance>, world: DimSize) -> (result: Result<
    usize,
    PlacementError,
>)
    requires
        boxes_fit(problem.macros@, problem.instances@, instances@),
        instance_pins(problem.macros@, problem.instances@, instances@, instances@.len()) <= usize::MAX,
    ensures
        agrees_on_number(
            result,
            blocked_pins(problem.macros@, problem.instances@, instances@, world, instances@.len()),
        ),
{
    let ghost m = problem.macros@;
    let ghost library = problem.instances@;
    let ghost n = instances@;
    let mut blocked: usize = 0;
    let mut index: usize = 0;
    while index < instances.len()
        invariant
            index <= instances.len(),
            m == problem.macros@,
            library == problem.instances@,
            n == instances@,
            boxes_fit(m, library, n),
            instance_pins(m, library, n, n.len()) <= usize::MAX,
            blocked_pins(m, library, n, world, index as nat) == Ok::<int, PlacementErrorView>(blocked as int),
            blocked <= instance_pins(m, library, n, index as nat),
        decreases instances.len() - index,
    {
        let id: usize = instances[index].id;
        let origin = instances[index].position;
        assert(n[index as int].id == id);
        let template = match instance_template(&problem.macros, &problem.instances, id) {
            Err(error) => {
                proof {
                    blocked_pins_fail(m, library, n, world, (index + 1) as nat, n.len());
                }
                return Err(error);
            },
            Ok(template) => template,
        };
        let ghost so_far = blocked as nat;
        let ghost pins = template.pins@;
        proof {
            instance_pins_grow(m, library, n, (index + 1) as nat, n.len());
        }
        let mut pin: usize = 0;
        while pin < template.pins.len()
            invariant
                pin <= template.pins.len(),
                pins == template.pins@,
                escapes_fit(pins, origin),
                so_far + pins.len() <= usize::MAX,
                blocked == so_far + blocked_among(pins, origin, world, pin as nat),
            decreases template.pins.len() - pin,
        {
            proof {
                blocked_among_bound(pins, origin, world, pin as nat);
            }
            if !reaches_world(&template.pins[pin], origin, world) {
                blocked += 1;
            }
            pin += 1;
        }
        proof {
            blocked_among_bound(pins, origin, world, pin as nat);
        }
        index += 1;
    }
    Ok(blocked)
}

/// How many pins have escape cells of which none is free.
pub fn pin_access_violation_count(
    problem: &PlacementProblem,
    instances: &Vec<MacroInstance>,
    world: DimSize,
) -> (result: Result<usize, PlacementError>)
    requires
        boxes_fit(problem.macros@, problem.instances@, instances@),
        instance_pins(problem.macros@, problem.instances@, instances@, instances@.len()) <= usize::MAX,
    ensures
        agrees_on_number(
            result,
            pin_access_violations(problem.macros@, problem.instances@, instances@, world),
        ),
{
    let boxes = match collect_boxes(&problem.macros, &problem.instances, instances) {
        Err(error) => return Err(error),
        Ok(boxes) => boxes,
    };
    let ghost m = problem.macros@;
    let ghost library = problem.instances@;
    let ghost n = instances@;
    let mut violations: usize = 0;
    let mut index: usize = 0;
    while index < instances.len()
        invariant
            index <= instances.len(),
            m == problem.macros@,
            library == problem.instances@,
            n == instances@,
            boxes_fit(m, library, n),
            instance_pins(m, library, n, n.len()) <= usize::MAX,
            aabbs(m, library, n, n.len()) == Ok::<Seq<BoundingBox>, PlacementErrorView>(boxes@),
            violations == shut_pins(m, library, n, world, boxes@, index as nat),
            violations <= instance_pins(m, library, n, index as nat),
        decreases instances.len() - index,
    {
        let id: usize = instances[index].id;
        let origin = instances[index].position;
        let ghost slot = index as int;
        proof {
            assert(n[slot].id == id);
            aabbs_are_boxes(m, library, n, n.len());
            assert(aabb(m, library, n[slot]) == Ok::<BoundingBox, PlacementErrorView>(boxes@[slot]));
            instance_pins_grow(m, library, n, (index + 1) as nat, n.len());
        }
        let template = match instance_template(&problem.macros, &problem.instances, id) {
            Err(error) => return Err(error),
            Ok(template) => template,
        };
        let ghost so_far = violations as nat;
        let ghost pins = template.pins@;
        let mut pin: usize = 0;
        while pin < template.pins.len()
            invariant
                pin <= template.pins.len(),
                pins == template.pins@,
                escapes_fit(pins, origin),
                so_far + pins.len() <= usize::MAX,
                violations == so_far + shut_among(pins, origin, world, boxes@, index as int, pin as nat),
            decreases template.pins.len() - pin,
        {
            proof {
                shut_among_bound(pins, origin, world, boxes@, index as int, pin as nat);
            }
            if template.pins[pin].escape.len() > 0 && !has_access(&template.pins[pin], origin, world, &boxes, index) {
                violations += 1;
            }
            pin += 1;
        }
        proof {
            shut_among_bound(pins, origin, world, boxes@, index as int, pin as nat);
        }
        index += 1;
    }
    Ok(violations)
}

// ---------------------------------------------------------------------------
// The whole measure
// ---------------------------------------------------------------------------
/// What a placement costs, each part in its own unit.
#[derive(Clone, Copy, Debug, PartialEq, Eq, Structural)]
pub struct PlacementMeasure {
    pub wire_length: usize,
    pub bounding_box_volume: usize,
    pub blocked_pins: usize,
    pub overlapping_pairs: usize,
    pub spacing_violations: usize,
    pub pin_access_violations: usize,
}

/// The pairs of numbers of footprints that meet.
pub open spec fn overlap_set(list: Seq<Footprint>) -> Set<(usize, usize)> {
    Set::new(|pair: (usize, usize)| exists|i: int, j: int| #[trigger] is_overlap(list, i, j, pair))
}

/// The number of cells of the smallest box around some footprints.
pub open spec fn box_volume(list: Seq<Footprint>) -> int {
    match footprint_box(list) {
        None => 0,
        Some((min, max)) => (max.0 - min.0 + 1) * (max.1 - min.1 + 1) * (max.2 - min.2 + 1),
    }
}

/// What a placement costs, or the first error.
pub open spec fn measured(
    macros: Seq<MacroTemplate>,
    library: Seq<MacroInstance>,
    nets: Seq<PhysicalNet>,
    instances: Seq<MacroInstance>,
    spacing: usize,
    world: DimSize,
) -> Result<PlacementMeasure, PlacementErrorView> {
    let list = footprints(macros, instances, instances.len());
    match wire_length(macros, instances, nets, nets.len()) {
        Err(error) => Err(error),
        Ok(length) => match blocked_pins(macros, library, instances, world, instances.len()) {
            Err(error) => Err(error),
            Ok(blocked) => match spacing_violations(macros, library, instances, spacing) {
                Err(error) => Err(error),
                Ok(close) => match pin_access_violations(macros, library, instances, world) {
                    Err(error) => Err(error),
                    Ok(shut) => Ok(
                        PlacementMeasure {
                            wire_length: length as usize,
                            bounding_box_volume: box_volume(list) as usize,
                            blocked_pins: blocked as usize,
                            overlapping_pairs: overlap_set(list).len() as usize,
                            spacing_violations: close as usize,
                            pin_access_violations: shut as usize,
                        },
                    ),
                },
            },
        },
    }
}

/// Whether every part of a placement's cost is in range.
pub open spec fn measure_fits(
    macros: Seq<MacroTemplate>,
    library: Seq<MacroInstance>,
    nets: Seq<PhysicalNet>,
    instances: Seq<MacroInstance>,
) -> bool {
    &&& nets_fit(macros, instances, nets)
    &&& footprints_fit(macros, instances)
    &&& boxes_fit(macros, library, instances)
    &&& gaps_fit(macros, library, instances)
    &&& instance_pins(macros, library, instances, instances.len()) <= usize::MAX
    &&& box_volume(footprints(macros, instances, instances.len())) <= usize::MAX
}

/// A list of pairs has as many items as there are pairs.
proof fn overlaps_counted(pairs: Seq<(usize, usize)>, list: Seq<Footprint>)
    requires
        lists_overlaps(pairs, list),
    ensures
        overlap_set(list).len() == pairs.len(),
{
    assert(pairs.to_set() =~= overlap_set(list)) by {
        assert forall|pair: (usize, usize)| pairs.to_set().contains(pair) == overlap_set(list).contains(pair) by {
            assert(pairs.to_set().contains(pair) <==> pairs.contains(pair));
        }
    }
    assert forall|i: int, j: int| 0 <= i < pairs.len() && 0 <= j < pairs.len() && i != j implies pairs[i]
        != pairs[j] by {
        if i < j {
            assert(comes_before(pairs[i], pairs[j]));
        } else {
            assert(comes_before(pairs[j], pairs[i]));
        }
    }
    pairs.unique_seq_to_set();
}

fn volume_of(min: Position, max: Position) -> (volume: usize)
    requires
        min.0 <= max.0,
        min.1 <= max.1,
        min.2 <= max.2,
        (max.0 - min.0 + 1) * (max.1 - min.1 + 1) * (max.2 - min.2 + 1) <= usize::MAX,
    ensures
        volume == (max.0 - min.0 + 1) * (max.1 - min.1 + 1) * (max.2 - min.2 + 1),
{
    let ghost x = max.0 - min.0 + 1;
    let ghost y = max.1 - min.1 + 1;
    let ghost z = max.2 - min.2 + 1;
    proof {
        assert(x * y >= x && x * y >= y) by (nonlinear_arith)
            requires
                x >= 1,
                y >= 1,
        ;
        assert((x * y) * z >= x * y && (x * y) * z >= z) by (nonlinear_arith)
            requires
                x * y >= 1,
                z >= 1,
        ;
    }
    let footprint: usize = (max.0 - min.0 + 1) * (max.1 - min.1 + 1);
    footprint * (max.2 - min.2 + 1)
}

/// What a placement costs: the length of its nets, the volume of its box, and
/// the numbers of blocked pins, overlaps, and breaches of spacing and access.
pub fn placement_measure(
    problem: &PlacementProblem,
    instances: &Vec<MacroInstance>,
    spacing: usize,
    world: DimSize,
) -> (result: Result<PlacementMeasure, PlacementError>)
    requires
        measure_fits(problem.macros@, problem.instances@, problem.nets@, instances@),
    ensures
        agrees(
            result,
            measured(problem.macros@, problem.instances@, problem.nets@, instances@, spacing, world),
        ),
{
    let length: usize = match wire_length_of(&problem.macros, instances, &problem.nets) {
        Err(error) => return Err(error),
        Ok(length) => length,
    };
    let ghost list = footprints(problem.macros@, instances@, instances@.len());
    let volume: usize = match bounding_box_of(&problem.macros, instances) {
        None => 0,
        Some((min, max)) => {
            proof {
                footprint_box_ordered(problem.macros@, instances@);
            }
            volume_of(min, max)
        },
    };
    let blocked: usize = match blocked_pin_count(problem, instances, world) {
        Err(error) => return Err(error),
        Ok(blocked) => blocked,
    };
    let pairs = overlaps_of(&problem.macros, instances);
    proof {
        overlaps_counted(pairs@, list);
    }
    let close: usize = match spacing_violation_count(problem, instances, spacing) {
        Err(error) => return Err(error),
        Ok(close) => close,
    };
    let shut: usize = match pin_access_violation_count(problem, instances, world) {
        Err(error) => return Err(error),
        Ok(shut) => shut,
    };
    Ok(
        PlacementMeasure {
            wire_length: length,
            bounding_box_volume: volume,
            blocked_pins: blocked,
            overlapping_pairs: pairs.len(),
            spacing_violations: close,
            pin_access_violations: shut,
        },
    )
}

proof fn footprint_corners(macros: Seq<MacroTemplate>, instances: Seq<MacroInstance>, count: nat)
    requires
        footprints_fit(macros, instances),
        count <= instances.len(),
    ensures
        forall|i: int|
            0 <= i < footprints(macros, instances, count).len() ==> {
                let footprint = #[trigger] footprints(macros, instances, count)[i];
                footprint.min.0 <= footprint.max.0 && footprint.min.1 <= footprint.max.1 && footprint.min.2
                    <= footprint.max.2
            },
    decreases count,
{
    if count > 0 {
        footprint_corners(macros, instances, (count - 1) as nat);
        let id = instances[count - 1].id;
        let rest = footprints(macros, instances, (count - 1) as nat);
        let all = footprints(macros, instances, count);
        assert forall|i: int| 0 <= i < all.len() implies {
            let footprint = #[trigger] all[i];
            footprint.min.0 <= footprint.max.0 && footprint.min.1 <= footprint.max.1 && footprint.min.2
                <= footprint.max.2
        } by {
            if i < rest.len() {
                assert(all[i] == rest[i]);
            }
        }
    }
}

/// The corners of the smallest box are in order.
proof fn footprint_box_ordered(macros: Seq<MacroTemplate>, instances: Seq<MacroInstance>)
    requires
        footprints_fit(macros, instances),
    ensures
        match footprint_box(footprints(macros, instances, instances.len())) {
            None => true,
            Some((min, max)) => min.0 <= max.0 && min.1 <= max.1 && min.2 <= max.2,
        },
{
    let list = footprints(macros, instances, instances.len());
    footprint_corners(macros, instances, instances.len());
    if list.len() > 0 {
        let mins = list.map_values(|footprint: Footprint| footprint.min);
        let maxes = list.map_values(|footprint: Footprint| footprint.max);
        assert(mins[0] == list[0].min);
        assert(maxes[0] == list[0].max);
        extremes_bound(mins, 0, 0);
        extremes_bound(mins, 1, 0);
        extremes_bound(mins, 2, 0);
        extremes_bound(maxes, 0, 0);
        extremes_bound(maxes, 1, 0);
        extremes_bound(maxes, 2, 0);
    }
}

} // verus!

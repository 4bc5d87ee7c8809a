//! Whether a placement problem is small enough for all numbers of annealing to be
//! in range.

use super::anneal::{all_places_fit, annealing_fits, places_fit, stays_inside, AnnealingPlan};
use super::initial::{
    has_template, moved_to, nets_within_fit, problem_fits, sizes_are_sizes, sizes_of, template_moved,
    PlacementSolution,
};
use super::legal::all_inside;
use super::measure::{aabbs, aabbs_are_boxes, box_gap, box_volume, boxes_fit, escapes_fit, gaps_fit, instance_pins};
use super::moves::{moves_bounded, moves_fit, place_bounded};
use super::relax::{cell_within, is_bound, pins_within, places_within};
use super::repair::{has_room, have_room};
use super::seed::{is_numbered, pin_total, positions_of, size_of_instance, stands_inside};
use crate::number::{capped, capped_product, capped_sum};
use crate::transform::place_and_route::placement_error::PlacementErrorView;
use crate::transform::place_and_route::placement_ir::{
    shift_fits, MacroInstance, MacroPin, MacroTemplate, PhysicalNet,
};
use crate::transform::place_and_route::placement_problem::{
    coordinate, extremes_bound, footprint_box, footprint_fits, footprints, footprints_fit, highest, instance_template,
    lowest, macro_from, net_pins, template_of, Footprint, PlacementProblem,
};
use crate::world::position::{DimSize, Position};
use vstd::prelude::*;

verus! {

/// Whether no escape cell of any macro lies beyond a bound.
pub open spec fn escapes_within(macros: Seq<MacroTemplate>, bound: int) -> bool {
    forall|i: int, j: int, e: int|
        0 <= i < macros.len() && 0 <= j < macros[i].pins@.len() && 0 <= e < macros[i].pins@[j].escape@.len()
            ==> cell_within(#[trigger] macros[i].pins@[j].escape@[e], bound)
}

/// Whether the world and the pins of all macros lie within a bound.
pub open spec fn is_reach(problem: PlacementProblem, world: DimSize, bound: int) -> bool {
    &&& bound >= 1
    &&& cell_within(Position(world.0, world.1, world.2), bound)
    &&& pins_within(problem.macros@, bound)
    &&& escapes_within(problem.macros@, bound)
}

/// Whether sums and products of numbers within a bound are in range.
pub open spec fn numbers_fit(problem: PlacementProblem, plan: AnnealingPlan, bound: int) -> bool {
    let world = plan.initial.world;
    let count = problem.instances@.len();
    let pins = pin_total(problem.nets@, problem.nets@.len());
    &&& 3 * bound + plan.initial.spacing < usize::MAX
    &&& plan.initial.max_step <= i64::MAX
    &&& 8 * ((pins + 1) * bound) < usize::MAX
    &&& 8 * ((pins + 1) * bound) <= i64::MAX
    &&& 4 * ((count + 1) * bound) + 2 * plan.max_translate_step + 1 < usize::MAX
    &&& 4 * ((count + 1) * bound) + 2 * plan.max_translate_step + 1 <= i64::MAX
    &&& (count + 1) * count < usize::MAX
    &&& instance_pins(problem.macros@, problem.instances@, problem.instances@, count) < usize::MAX
    &&& world.0 * world.1 * world.2 < usize::MAX
}

/// Whether all numbers of annealing are in range.
pub open spec fn is_in_range(problem: PlacementProblem, plan: AnnealingPlan) -> bool {
    &&& is_numbered(problem.instances@)
    &&& exists|bound: int| #[trigger] is_reach(problem, plan.initial.world, bound) && numbers_fit(problem, plan, bound)
}

// ---------------------------------------------------------------------------
// Enough
// ---------------------------------------------------------------------------
pub proof fn macro_is_listed(macros: Seq<MacroTemplate>, name: Seq<char>, start: nat) -> (index: int)
    requires
        macro_from(macros, name, start) is Some,
    ensures
        0 <= index < macros.len(),
        macros[index] == macro_from(macros, name, start)->0,
    decreases macros.len() - start,
{
    if macros[start as int].name@ == name {
        start as int
    } else {
        macro_is_listed(macros, name, start + 1)
    }
}

proof fn highest_is_within(cells: Seq<Position>, axis: int, bound: int)
    requires
        bound >= 0,
        forall|i: int| 0 <= i < cells.len() ==> coordinate(#[trigger] cells[i], axis) <= bound,
    ensures
        highest(cells, axis) <= bound,
    decreases cells.len(),
{
    if cells.len() > 0 {
        assert forall|i: int| 0 <= i < cells.drop_last().len() implies coordinate(
            #[trigger] cells.drop_last()[i],
            axis,
        ) <= bound by {
            assert(cells.drop_last()[i] == cells[i]);
        }
        highest_is_within(cells.drop_last(), axis, bound);
        assert(coordinate(cells[cells.len() - 1], axis) <= bound);
    }
}

proof fn pins_stay(
    macros: Seq<MacroTemplate>,
    library: Seq<MacroInstance>,
    placed: Seq<MacroInstance>,
    count: nat,
)
    requires
        count <= placed.len() == library.len(),
        forall|i: int| 0 <= i < placed.len() ==> (#[trigger] placed[i]).id == library[i].id,
    ensures
        instance_pins(macros, library, placed, count) == instance_pins(macros, library, library, count),
    decreases count,
{
    if count > 0 {
        pins_stay(macros, library, placed, (count - 1) as nat);
        assert(placed[count - 1].id == library[count - 1].id);
    }
}

/// Whether a box is inside a world.
spec fn box_inside(min: Position, max: Position, world: DimSize) -> bool {
    &&& min.0 <= max.0 < world.0
    &&& min.1 <= max.1 < world.1
    &&& min.2 <= max.2 < world.2
}

proof fn footprints_are_inside(
    macros: Seq<MacroTemplate>,
    placed: Seq<MacroInstance>,
    sizes: Seq<DimSize>,
    world: DimSize,
    count: nat,
)
    requires
        count <= placed.len() == sizes.len(),
        forall|i: int| 0 <= i < placed.len() ==> fits_as(macros, placed, sizes, world, i),
    ensures
        forall|i: int|
            0 <= i < footprints(macros, placed, count).len() ==> {
                let own = #[trigger] footprints(macros, placed, count)[i];
                box_inside(own.min, own.max, world)
            },
    decreases count,
{
    if count > 0 {
        footprints_are_inside(macros, placed, sizes, world, (count - 1) as nat);
        assert(fits_as(macros, placed, sizes, world, count - 1));
        let rest = footprints(macros, placed, (count - 1) as nat);
        let all = footprints(macros, placed, count);
        assert(all.drop_last() =~= rest);
        assert forall|i: int| 0 <= i < all.len() implies {
            let own = #[trigger] all[i];
            box_inside(own.min, own.max, world)
        } by {
            if i < rest.len() {
                assert(all[i] == rest[i]);
            }
        }
    }
}

/// Whether an instance has its number, and a macro of its size, inside a world.
spec fn fits_as(
    macros: Seq<MacroTemplate>,
    placed: Seq<MacroInstance>,
    sizes: Seq<DimSize>,
    world: DimSize,
    index: int,
) -> bool {
    &&& placed[index].id == index
    &&& template_of(macros, placed, index as usize) is Ok
    &&& template_of(macros, placed, index as usize)->Ok_0.size == sizes[index]
    &&& stands_inside(placed[index].position, sizes[index], world)
}

proof fn volume_is_inside(list: Seq<Footprint>, world: DimSize)
    requires
        forall|i: int| 0 <= i < list.len() ==> box_inside((#[trigger] list[i]).min, list[i].max, world),
    ensures
        box_volume(list) <= world.0 * world.1 * world.2,
        list.len() > 0 ==> box_volume(list) >= 1 && {
            let (min, max) = footprint_box(list)->0;
            min.0 <= max.0 < world.0 && min.1 <= max.1 < world.1 && min.2 <= max.2 < world.2
        },
{
    if list.len() > 0 {
        let mins = list.map_values(|footprint: Footprint| footprint.min);
        let maxes = list.map_values(|footprint: Footprint| footprint.max);
        let (min, max) = footprint_box(list)->0;
        assert(box_inside(list[0].min, list[0].max, world));
        assert forall|i: int| 0 <= i < maxes.len() implies coordinate(#[trigger] maxes[i], 0) <= world.0 - 1
            && coordinate(maxes[i], 1) <= world.1 - 1 && coordinate(maxes[i], 2) <= world.2 - 1 by {
            assert(box_inside(list[i].min, list[i].max, world));
        }
        highest_is_within(maxes, 0, world.0 - 1);
        highest_is_within(maxes, 1, world.1 - 1);
        highest_is_within(maxes, 2, world.2 - 1);
        assert forall|axis: int| 0 <= axis < 3 implies #[trigger] lowest(mins, axis) <= highest(maxes, axis) by {
            extremes_bound(mins, axis, 0);
            extremes_bound(maxes, axis, 0);
        }
        assert(lowest(mins, 0) <= highest(maxes, 0));
        assert(lowest(mins, 1) <= highest(maxes, 1));
        assert(lowest(mins, 2) <= highest(maxes, 2));
        let (a, b, c) = (max.0 - min.0 + 1, max.1 - min.1 + 1, max.2 - min.2 + 1);
        let (x, y, z) = (world.0 as int, world.1 as int, world.2 as int);
        assert(a * b <= x * y) by (nonlinear_arith)
            requires
                0 <= a <= x,
                0 <= b <= y,
        ;
        assert(a * b >= 1) by (nonlinear_arith)
            requires
                1 <= a,
                1 <= b,
        ;
        let (flat, base) = (a * b, x * y);
        assert(1 <= flat * c <= base * z) by (nonlinear_arith)
            requires
                1 <= flat <= base,
                1 <= c <= z,
        ;
    } else {
        assert(world.0 * world.1 >= 0) by (nonlinear_arith);
        let flat = world.0 * world.1;
        assert(flat * world.2 >= 0) by (nonlinear_arith)
            requires
                flat >= 0,
        ;
    }
}

proof fn gaps_are_within(
    macros: Seq<MacroTemplate>,
    library: Seq<MacroInstance>,
    placed: Seq<MacroInstance>,
    sizes: Seq<DimSize>,
    world: DimSize,
    bound: int,
)
    requires
        placed.len() == sizes.len() == library.len(),
        (placed.len() + 1) * placed.len() <= usize::MAX,
        cell_within(Position(world.0, world.1, world.2), bound),
        3 * bound <= usize::MAX,
        forall|i: int| 0 <= i < placed.len() ==> fits_as(macros, placed, sizes, world, i),
        forall|i: int|
            0 <= i < placed.len() ==> #[trigger] template_of(macros, library, i as usize) == template_of(
                macros,
                placed,
                i as usize,
            ),
    ensures
        gaps_fit(macros, library, placed),
{
    if let Ok(boxes) = aabbs(macros, library, placed, placed.len()) {
        aabbs_are_boxes(macros, library, placed, placed.len());
        assert forall|i: int| 0 <= i < boxes.len() implies box_inside((#[trigger] boxes[i]).min, boxes[i].max, world) by {
            assert(fits_as(macros, placed, sizes, world, i));
            assert(template_of(macros, library, i as usize) == template_of(macros, placed, i as usize));
        }
        assert forall|i: int, j: int| 0 <= i < j < boxes.len() implies box_gap(
            #[trigger] boxes[i],
            #[trigger] boxes[j],
        ) <= usize::MAX by {
            assert(box_inside(boxes[i].min, boxes[i].max, world));
            assert(box_inside(boxes[j].min, boxes[j].max, world));
        }
    }
}

proof fn places_are_within(
    problem: PlacementProblem,
    plan: AnnealingPlan,
    sizes: Seq<DimSize>,
    positions: Seq<Position>,
    bound: int,
)
    requires
        is_numbered(problem.instances@),
        problem.instances@.len() <= usize::MAX,
        sizes_of(problem.macros@, problem.instances@, problem.instances@.len()) == Ok::<
            Seq<DimSize>,
            PlacementErrorView,
        >(sizes),
        is_reach(problem, plan.initial.world, bound),
        numbers_fit(problem, plan, bound),
        all_inside(sizes, positions, plan.initial.world),
    ensures
        places_fit(problem, plan, sizes, positions),
{
    let macros = problem.macros@;
    let library = problem.instances@;
    let world = plan.initial.world;
    let placed = moved_to(library, positions);
    let pins = pin_total(problem.nets@, problem.nets@.len());
    sizes_are_sizes(macros, library, library.len());
    assert((pins + 1) * bound >= bound) by (nonlinear_arith)
        requires
            bound >= 1,
            pins >= 0,
    ;
    assert forall|i: int| 0 <= i < placed.len() implies fits_as(macros, placed, sizes, world, i) by {
        template_moved(macros, library, positions, i as usize);
        assert(has_template(macros, library, i));
        assert(sizes[i] == size_of_instance(macros, library, i));
        assert(stands_inside(positions[i], sizes[i], world));
        assert(library[i].id == i);
    }
    assert forall|i: int| 0 <= i < placed.len() implies #[trigger] template_of(macros, library, i as usize)
        == template_of(macros, placed, i as usize) by {
        template_moved(macros, library, positions, i as usize);
    }
    assert(is_bound(macros, problem.nets@, world, bound));
    assert(places_within(positions_of(placed), bound)) by {
        assert forall|i: int| 0 <= i < placed.len() implies cell_within(#[trigger] positions_of(placed)[i], bound) by {
            assert(fits_as(macros, placed, sizes, world, i));
        }
    }
    assert(moves_fit(macros, library, positions, plan.max_translate_step)) by {
        assert forall|i: int| 0 <= i < positions.len() implies place_bounded(
            macros,
            library,
            #[trigger] positions[i],
            i,
            bound,
        ) by {
            assert(fits_as(macros, placed, sizes, world, i));
            template_moved(macros, library, positions, i as usize);
            assert(placed[i].position == positions[i]);
        }
        assert(moves_bounded(macros, library, positions, plan.max_translate_step, bound));
    }
    nets_within_fit(macros, placed, problem.nets@, world, bound);
    assert(footprints_fit(macros, placed)) by {
        assert forall|i: int| 0 <= i < placed.len() implies match template_of(
            macros,
            placed,
            (#[trigger] placed[i]).id,
        ) {
            Ok(template) => footprint_fits(template, placed[i].position),
            Err(_) => true,
        } by {
            assert(fits_as(macros, placed, sizes, world, i));
        }
    }
    assert(boxes_fit(macros, library, placed)) by {
        assert forall|i: int| 0 <= i < placed.len() implies match template_of(
            macros,
            library,
            (#[trigger] placed[i]).id,
        ) {
            Ok(template) => footprint_fits(template, placed[i].position) && escapes_fit(
                template.pins@,
                placed[i].position,
            ),
            Err(_) => true,
        } by {
            assert(fits_as(macros, placed, sizes, world, i));
            template_moved(macros, library, positions, i as usize);
            let template = template_of(macros, library, i as usize)->Ok_0;
            let origin = placed[i].position;
            let m = macro_is_listed(macros, library[i].macro_name@, 0);
            assert(template == macros[m]);
            assert forall|k: int, e: int| 0 <= k < template.pins@.len() && 0 <= e < template.pins@[k].escape@.len()
                implies shift_fits(origin, #[trigger] template.pins@[k].escape@[e]) by {
                assert(cell_within(macros[m].pins@[k].escape@[e], bound));
            }
        }
    }
    gaps_are_within(macros, library, placed, sizes, world, bound);
    assert forall|i: int| 0 <= i < placed.len() implies (#[trigger] placed[i]).id == library[i].id by {
    }
    pins_stay(macros, library, placed, placed.len());
    footprints_are_inside(macros, placed, sizes, world, placed.len());
    volume_is_inside(footprints(macros, placed, placed.len()), world);
    assert(have_room(sizes, positions, world)) by {
        assert forall|i: int| 0 <= i < sizes.len() implies has_room(#[trigger] positions[i], sizes[i]) && has_room(
            Position(world.0, world.1, world.2),
            sizes[i],
        ) by {
            assert(stands_inside(positions[i], sizes[i], world));
        }
    }
}

/// Where all numbers are in range, annealing can begin.
pub proof fn range_is_enough(problem: PlacementProblem, plan: AnnealingPlan)
    requires
        is_in_range(problem, plan),
        problem.instances@.len() <= usize::MAX,
    ensures
        annealing_fits(problem, plan),
{
    let bound = choose|bound: int| #[trigger]
        is_reach(problem, plan.initial.world, bound) && numbers_fit(problem, plan, bound);
    assert(is_bound(problem.macros@, problem.nets@, plan.initial.world, bound));
    assert(problem_fits(problem.macros@, problem.nets@, plan.initial));
    if let Ok(sizes) = sizes_of(problem.macros@, problem.instances@, problem.instances@.len()) {
        assert(all_places_fit(problem, plan, sizes)) by {
            assert forall|positions: Seq<Position>| #[trigger]
                all_inside(sizes, positions, plan.initial.world) implies places_fit(
                problem,
                plan,
                sizes,
                positions,
            ) by {
                places_are_within(problem, plan, sizes, positions, bound);
            }
        }
    }
}

/// The boxes of a placement inside its world have corners in order, and around them
/// lies a box with as many cells as are counted: none where there is no instance, and
/// some where there is one.
pub proof fn placement_has_volume(problem: PlacementProblem, plan: AnnealingPlan, solution: PlacementSolution)
    requires
        is_in_range(problem, plan),
        problem.instances@.len() <= usize::MAX,
        stays_inside(problem, plan, solution),
    ensures
        footprints_fit(problem.macros@, solution.instances@),
        ({
            let list = footprints(problem.macros@, solution.instances@, solution.instances@.len());
            let volume = box_volume(list);
            &&& 0 <= volume < usize::MAX
            &&& volume >= 1 <==> problem.instances@.len() > 0
            &&& match footprint_box(list) {
                None => volume == 0,
                Some((min, max)) => {
                    &&& min.0 <= max.0 < usize::MAX && min.1 <= max.1 < usize::MAX && min.2 <= max.2 < usize::MAX
                    &&& volume == capped(
                        capped(((max.0 - min.0 + 1) * (max.1 - min.1 + 1)) as nat) * (max.2 - min.2 + 1) as nat,
                    )
                },
            }
        }),
{
    let macros = problem.macros@;
    let library = problem.instances@;
    let world = plan.initial.world;
    let placed = solution.instances@;
    let places = positions_of(placed);
    let sizes = sizes_of(macros, library, library.len())->Ok_0;
    range_is_enough(problem, plan);
    assert(places_fit(problem, plan, sizes, places));
    sizes_are_sizes(macros, library, library.len());
    assert forall|i: int| 0 <= i < placed.len() implies fits_as(macros, placed, sizes, world, i) by {
        template_moved(macros, library, places, i as usize);
        assert(has_template(macros, library, i));
        assert(sizes[i] == size_of_instance(macros, library, i));
        assert(stands_inside(places[i], sizes[i], world));
        assert(library[i].id == i);
    }
    let list = footprints(macros, placed, placed.len());
    footprints_are_inside(macros, placed, sizes, world, placed.len());
    volume_is_inside(list, world);
    footprints_are_all(macros, placed, sizes, world, placed.len());
    if list.len() > 0 {
        let (min, max) = footprint_box(list)->0;
        capped_twice(((max.0 - min.0 + 1) * (max.1 - min.1 + 1)) as nat, (max.2 - min.2 + 1) as nat);
    }
}

proof fn footprints_are_all(
    macros: Seq<MacroTemplate>,
    placed: Seq<MacroInstance>,
    sizes: Seq<DimSize>,
    world: DimSize,
    count: nat,
)
    requires
        count <= placed.len() == sizes.len(),
        forall|i: int| 0 <= i < placed.len() ==> fits_as(macros, placed, sizes, world, i),
    ensures
        footprints(macros, placed, count).len() == count,
    decreases count,
{
    if count > 0 {
        footprints_are_all(macros, placed, sizes, world, (count - 1) as nat);
        assert(fits_as(macros, placed, sizes, world, count - 1));
    }
}

// ---------------------------------------------------------------------------
// Test
// ---------------------------------------------------------------------------
pub proof fn capped_twice(number: nat, factor: nat)
    ensures
        capped(capped(number) * factor) == capped(number * factor),
{
    let most = usize::MAX as nat;
    if number > most && factor >= 1 {
        assert(number * factor > most) by (nonlinear_arith)
            requires
                number > most,
                factor >= 1,
        ;
        assert(most * factor >= most) by (nonlinear_arith)
            requires
                factor >= 1,
        ;
    } else if factor == 0 {
        assert(number * factor == 0) by (nonlinear_arith)
            requires
                factor == 0,
        ;
        assert(capped(number) * factor == 0) by (nonlinear_arith)
            requires
                factor == 0,
        ;
    }
}

pub fn farther(cell: Position, far: usize) -> (farthest: usize)
    ensures
        farthest >= far,
        cell_within(cell, farthest as int),
        farthest == far || farthest == cell.0 || farthest == cell.1 || farthest == cell.2,
{
    let mut farthest: usize = far;
    if cell.0 > farthest {
        farthest = cell.0;
    }
    if cell.1 > farthest {
        farthest = cell.1;
    }
    if cell.2 > farthest {
        farthest = cell.2;
    }
    farthest
}

fn farthest_escape(pin: &MacroPin, start: usize) -> (far: usize)
    ensures
        far >= start,
        cell_within(pin.position, far as int),
        forall|e: int| 0 <= e < pin.escape@.len() ==> cell_within(#[trigger] pin.escape@[e], far as int),
        forall|bound: int|
            start <= bound && cell_within(pin.position, bound) && (forall|e: int|
                0 <= e < pin.escape@.len() ==> cell_within(#[trigger] pin.escape@[e], bound)) ==> far <= bound,
{
    let mut far: usize = farther(pin.position, start);
    let mut index: usize = 0;
    while index < pin.escape.len()
        invariant
            index <= pin.escape.len(),
            far >= start,
            cell_within(pin.position, far as int),
            forall|e: int| 0 <= e < index ==> cell_within(#[trigger] pin.escape@[e], far as int),
            forall|bound: int|
                start <= bound && cell_within(pin.position, bound) && (forall|e: int|
                    0 <= e < pin.escape@.len() ==> cell_within(#[trigger] pin.escape@[e], bound)) ==> far <= bound,
        decreases pin.escape.len() - index,
    {
        far = farther(pin.escape[index], far);
        index += 1;
    }
    far
}

/// Whether the pins of a macro lie within a bound.
spec fn pins_of_within(pins: Seq<MacroPin>, bound: int) -> bool {
    forall|j: int| 0 <= j < pins.len() ==> pin_within(#[trigger] pins[j], bound)
}

/// Whether a pin and its escape cells lie within a bound.
spec fn pin_within(pin: MacroPin, bound: int) -> bool {
    &&& cell_within(pin.position, bound)
    &&& forall|e: int| 0 <= e < pin.escape@.len() ==> cell_within(#[trigger] pin.escape@[e], bound)
}

fn farthest_pin(pins: &Vec<MacroPin>, start: usize) -> (far: usize)
    ensures
        far >= start,
        pins_of_within(pins@, far as int),
        forall|bound: int| start <= bound && #[trigger] pins_of_within(pins@, bound) ==> far <= bound,
{
    let mut far: usize = start;
    let mut index: usize = 0;
    while index < pins.len()
        invariant
            index <= pins.len(),
            far >= start,
            forall|j: int| 0 <= j < index ==> pin_within(#[trigger] pins@[j], far as int),
            forall|bound: int| start <= bound && #[trigger] pins_of_within(pins@, bound) ==> far <= bound,
        decreases pins.len() - index,
    {
        let ghost before = far;
        far = farthest_escape(&pins[index], far);
        proof {
            assert forall|j: int| 0 <= j < index + 1 implies pin_within(#[trigger] pins@[j], far as int) by {
                if j < index {
                    assert(pin_within(pins@[j], before as int));
                }
            }
            assert forall|bound: int| start <= bound && #[trigger] pins_of_within(pins@, bound) implies far <= bound by {
                assert(pin_within(pins@[index as int], bound));
            }
        }
        index += 1;
    }
    far
}

fn farthest_reach(problem: &PlacementProblem, world: DimSize) -> (far: usize)
    ensures
        is_reach(*problem, world, far as int),
        forall|bound: int| #[trigger] is_reach(*problem, world, bound) ==> far <= bound,
{
    let mut far: usize = farther(Position(world.0, world.1, world.2), 1);
    let mut index: usize = 0;
    while index < problem.macros.len()
        invariant
            index <= problem.macros.len(),
            far >= 1,
            cell_within(Position(world.0, world.1, world.2), far as int),
            forall|i: int| 0 <= i < index ==> pins_of_within((#[trigger] problem.macros@[i]).pins@, far as int),
            forall|bound: int| #[trigger] is_reach(*problem, world, bound) ==> far <= bound,
        decreases problem.macros.len() - index,
    {
        let ghost before = far;
        far = farthest_pin(&problem.macros[index].pins, far);
        proof {
            assert forall|i: int| 0 <= i < index + 1 implies pins_of_within(
                (#[trigger] problem.macros@[i]).pins@,
                far as int,
            ) by {
                if i < index {
                    let pins = problem.macros@[i].pins@;
                    assert forall|j: int| 0 <= j < pins.len() implies pin_within(#[trigger] pins[j], far as int) by {
                        assert(pin_within(pins[j], before as int));
                    }
                }
            }
            assert forall|bound: int| #[trigger] is_reach(*problem, world, bound) implies far <= bound by {
                let pins = problem.macros@[index as int].pins@;
                assert forall|j: int| 0 <= j < pins.len() implies pin_within(#[trigger] pins[j], bound) by {
                    assert(cell_within(problem.macros@[index as int].pins@[j].position, bound));
                    assert forall|e: int| 0 <= e < pins[j].escape@.len() implies cell_within(
                        #[trigger] pins[j].escape@[e],
                        bound,
                    ) by {
                        assert(cell_within(problem.macros@[index as int].pins@[j].escape@[e], bound));
                    }
                }
                assert(pins_of_within(pins, bound));
            }
        }
        index += 1;
    }
    proof {
        let macros = problem.macros@;
        assert forall|i: int, j: int| 0 <= i < macros.len() && 0 <= j < macros[i].pins@.len() implies cell_within(
            (#[trigger] macros[i].pins@[j]).position,
            far as int,
        ) by {
            assert(pins_of_within(macros[i].pins@, far as int));
            assert(pin_within(macros[i].pins@[j], far as int));
        }
        assert forall|i: int, j: int, e: int|
            0 <= i < macros.len() && 0 <= j < macros[i].pins@.len() && 0 <= e < macros[i].pins@[j].escape@.len() implies cell_within(
            #[trigger] macros[i].pins@[j].escape@[e],
            far as int,
        ) by {
            assert(pins_of_within(macros[i].pins@, far as int));
            assert(pin_within(macros[i].pins@[j], far as int));
        }
    }
    far
}

fn count_net_pins(nets: &Vec<PhysicalNet>) -> (total: usize)
    ensures
        total == capped(pin_total(nets@, nets@.len())),
{
    let mut total: usize = 0;
    let mut index: usize = 0;
    while index < nets.len()
        invariant
            index <= nets.len(),
            total == capped(pin_total(nets@, index as nat)),
        decreases nets.len() - index,
    {
        assert(net_pins(nets@[index as int]).len() == 1 + nets@[index as int].sinks@.len());
        total = capped_sum(total, nets[index].sinks.len());
        total = capped_sum(total, 1);
        index += 1;
    }
    total
}

fn count_instance_pins(problem: &PlacementProblem) -> (total: usize)
    ensures
        total == capped(
            instance_pins(problem.macros@, problem.instances@, problem.instances@, problem.instances@.len()),
        ),
{
    let mut total: usize = 0;
    let mut index: usize = 0;
    while index < problem.instances.len()
        invariant
            index <= problem.instances.len(),
            total == capped(instance_pins(problem.macros@, problem.instances@, problem.instances@, index as nat)),
        decreases problem.instances.len() - index,
    {
        match instance_template(&problem.macros, &problem.instances, problem.instances[index].id) {
            Ok(template) => {
                total = capped_sum(total, template.pins.len());
            },
            Err(_) => {},
        }
        index += 1;
    }
    total
}

fn are_numbered(instances: &Vec<MacroInstance>) -> (numbered: bool)
    ensures
        numbered == is_numbered(instances@),
{
    let mut index: usize = 0;
    while index < instances.len()
        invariant
            index <= instances.len(),
            forall|i: int| 0 <= i < index ==> (#[trigger] instances@[i]).id == i,
        decreases instances.len() - index,
    {
        if instances[index].id != index {
            return false;
        }
        index += 1;
    }
    true
}

/// The product of a number and the one behind another, capped.
pub fn scaled(factor: usize, number: usize, Ghost(exact): Ghost<nat>) -> (product: usize)
    requires
        number == capped(exact),
        factor >= 1,
    ensures
        product == capped((exact + 1) * factor as nat),
{
    let next: usize = capped_sum(number, 1);
    proof {
        assert(next == capped(exact + 1));
        capped_twice(exact + 1, factor as nat);
    }
    capped_product(next, factor)
}

pub fn fits_signed(number: usize) -> (fits: bool)
    ensures
        fits == (number < usize::MAX && number <= i64::MAX),
{
    number < usize::MAX && number as u64 <= 0x7FFF_FFFF_FFFF_FFFF
}

/// Whether all numbers of annealing are in range.
pub fn annealing_in_range(problem: &PlacementProblem, plan: &AnnealingPlan) -> (fits: bool)
    ensures
        fits == is_in_range(*problem, *plan),
        fits ==> annealing_fits(*problem, *plan),
{
    let world = plan.initial.world;
    let far: usize = farthest_reach(problem, world);
    let ghost pins = pin_total(problem.nets@, problem.nets@.len());
    let ghost count = problem.instances@.len();
    let ghost bound = far as nat;
    let net_pins: usize = count_net_pins(&problem.nets);
    let instance_pins: usize = count_instance_pins(problem);
    let shelves: usize = capped_sum(capped_product(far, 3), plan.initial.spacing);
    let wires: usize = capped_product(scaled(far, net_pins, Ghost(pins)), 8);
    let steps: usize = capped_sum(capped_product(plan.max_translate_step, 2), 1);
    let moves: usize = capped_sum(capped_product(scaled(far, problem.instances.len(), Ghost(count)), 4), steps);
    let pairs: usize = if problem.instances.len() == 0 {
        0
    } else {
        scaled(problem.instances.len(), problem.instances.len(), Ghost(count))
    };
    let volume: usize = capped_product(capped_product(world.0, world.1), world.2);
    proof {
        capped_twice((pins + 1) * bound, 8);
        capped_twice((count + 1) * bound, 4);
        capped_twice((world.0 * world.1) as nat, world.2 as nat);
        assert((world.0 * world.1) as nat * world.2 as nat == world.0 * world.1 * world.2);
    }
    let fits = are_numbered(&problem.instances) && shelves < usize::MAX && plan.initial.max_step as u64
        <= 0x7FFF_FFFF_FFFF_FFFF && fits_signed(wires) && fits_signed(moves) && pairs < usize::MAX && instance_pins
        < usize::MAX && volume < usize::MAX;
    proof {
        assert(fits == (is_numbered(problem.instances@) && numbers_fit(*problem, *plan, far as int)));
        if is_in_range(*problem, *plan) {
            let other = choose|bound: int| #[trigger]
                is_reach(*problem, world, bound) && numbers_fit(*problem, *plan, bound);
            assert(far <= other);
            assert((pins + 1) * bound <= (pins + 1) * other) by (nonlinear_arith)
                requires
                    bound <= other,
                    pins >= 0,
            ;
            assert((count + 1) * bound <= (count + 1) * other) by (nonlinear_arith)
                requires
                    bound <= other,
                    count >= 0,
            ;
            assert(numbers_fit(*problem, *plan, far as int));
        }
        if fits {
            assert(is_reach(*problem, world, far as int));
            range_is_enough(*problem, *plan);
        }
    }
    fits
}

} // verus!

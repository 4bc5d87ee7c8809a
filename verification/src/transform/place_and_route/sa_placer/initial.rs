//! The initial placement: seed, relaxation and repair.

use super::relax::{
    bound_is_small, cell_within, is_bound, pin_within, pins_within, places_within, relax_places, relaxed_passes,
};
use super::repair::{
    all_pairs, has_room, have_room, pairs_in_range, repair_positions, repaired, separated_pairs, OverlappingPair,
};
use super::seed::{
    is_numbered, pin_total, pin_total_grows, positions_of, seed_is_legal, seed_order, seed_places, seed_positions,
    seeded, shelves_fit, size_of_instance, stands_inside, InitialPlacementConfig,
};
use crate::transform::place_and_route::placement_error::{PlacementError, PlacementErrorView};
use crate::transform::place_and_route::placement_ir::{
    MacroInstance, MacroTemplate, PhysicalNet, PinRef, PlacementLegality,
};
use crate::transform::place_and_route::placement_problem::{
    footprint_fits, footprints, highest, instance_template, length_so_far, lists_overlaps, net_fits, net_length,
    net_pins, nets_fit, pin_place_fits, pin_places, template_of, wire_length, wire_length_of, PlacementProblem,
};
use crate::transform::place_and_route::placement_world::{legality_of, lists_outside};
use crate::world::position::{DimSize, Position};
use vstd::prelude::*;

verus! {

/// Instances at the places found for them.
#[derive(Clone, Debug)]
pub struct PlacementSolution {
    pub instances: Vec<MacroInstance>,
    pub wire_length: usize,
    pub legality: PlacementLegality,
}

impl PlacementSolution {
    pub fn is_legal(&self) -> (legal: bool)
        ensures
            legal == (self.legality.overlaps@.len() == 0 && self.legality.out_of_bounds@.len() == 0),
    {
        self.legality.is_legal()
    }
}

/// Instances moved to other places.
pub open spec fn moved_to(instances: Seq<MacroInstance>, positions: Seq<Position>) -> Seq<MacroInstance> {
    Seq::new(
        instances.len(),
        |i: int|
            MacroInstance {
                id: instances[i].id,
                macro_name: instances[i].macro_name,
                position: positions[i],
                rotation: instances[i].rotation,
            },
    )
}

pub fn move_to(instances: &Vec<MacroInstance>, positions: &Vec<Position>) -> (moved: Vec<MacroInstance>)
    requires
        instances.len() == positions.len(),
    ensures
        moved@ == moved_to(instances@, positions@),
{
    let mut moved: Vec<MacroInstance> = Vec::new();
    let mut index: usize = 0;
    while index < instances.len()
        invariant
            index <= instances.len(),
            instances.len() == positions.len(),
            moved.len() == index,
            forall|i: int| 0 <= i < index ==> #[trigger] moved[i] == moved_to(instances@, positions@)[i],
        decreases instances.len() - index,
    {
        let instance = &instances[index];
        moved.push(
            MacroInstance {
                id: instance.id,
                macro_name: instance.macro_name.clone(),
                position: positions[index],
                rotation: instance.rotation,
            },
        );
        index += 1;
    }
    assert(moved@ =~= moved_to(instances@, positions@));
    moved
}

pub fn collect_positions(instances: &Vec<MacroInstance>) -> (positions: Vec<Position>)
    ensures
        positions@ == positions_of(instances@),
{
    let mut positions: Vec<Position> = Vec::new();
    let mut index: usize = 0;
    while index < instances.len()
        invariant
            index <= instances.len(),
            positions.len() == index,
            forall|i: int| 0 <= i < index ==> #[trigger] positions[i] == instances[i].position,
        decreases instances.len() - index,
    {
        positions.push(instances[index].position);
        index += 1;
    }
    assert(positions@ =~= positions_of(instances@));
    positions
}

/// Whether an instance has a macro.
pub open spec fn has_template(macros: Seq<MacroTemplate>, instances: Seq<MacroInstance>, index: int) -> bool {
    template_of(macros, instances, index as usize) is Ok
}

/// The sizes of the macros of the first `count` instances, or the first error.
pub open spec fn sizes_of(
    macros: Seq<MacroTemplate>,
    instances: Seq<MacroInstance>,
    count: nat,
) -> Result<Seq<DimSize>, PlacementErrorView>
    decreases count,
{
    if count == 0 {
        Ok(Seq::empty())
    } else {
        match sizes_of(macros, instances, (count - 1) as nat) {
            Err(error) => Err(error),
            Ok(sizes) => match template_of(macros, instances, (count - 1) as usize) {
                Err(error) => Err(error),
                Ok(template) => Ok(sizes.push(template.size)),
            },
        }
    }
}

proof fn sizes_fail(macros: Seq<MacroTemplate>, instances: Seq<MacroInstance>, low: nat, high: nat)
    requires
        low <= high,
        sizes_of(macros, instances, low) is Err,
    ensures
        sizes_of(macros, instances, high) == sizes_of(macros, instances, low),
    decreases high,
{
    if low < high {
        sizes_fail(macros, instances, low, (high - 1) as nat);
    }
}

pub proof fn sizes_are_sizes(macros: Seq<MacroTemplate>, instances: Seq<MacroInstance>, count: nat)
    requires
        sizes_of(macros, instances, count) is Ok,
    ensures
        sizes_of(macros, instances, count)->Ok_0.len() == count,
        forall|i: int|
            0 <= i < count ==> #[trigger] sizes_of(macros, instances, count)->Ok_0[i] == size_of_instance(
                macros,
                instances,
                i,
            ),
        forall|i: int| 0 <= i < count ==> #[trigger] has_template(macros, instances, i),
    decreases count,
{
    if count > 0 {
        sizes_are_sizes(macros, instances, (count - 1) as nat);
    }
}

proof fn sizes_succeed(macros: Seq<MacroTemplate>, instances: Seq<MacroInstance>, count: nat)
    requires
        count <= usize::MAX,
        forall|i: int| 0 <= i < count ==> #[trigger] has_template(macros, instances, i),
    ensures
        sizes_of(macros, instances, count) is Ok,
    decreases count,
{
    if count > 0 {
        sizes_succeed(macros, instances, (count - 1) as nat);
        assert(has_template(macros, instances, count - 1));
    }
}

fn collect_sizes(macros: &Vec<MacroTemplate>, instances: &Vec<MacroInstance>, count: usize) -> (result: Result<
    Vec<DimSize>,
    PlacementError,
>)
    ensures
        match result {
            Ok(sizes) => sizes_of(macros@, instances@, count as nat) == Ok::<Seq<DimSize>, PlacementErrorView>(sizes@),
            Err(error) => sizes_of(macros@, instances@, count as nat) == Err::<Seq<DimSize>, PlacementErrorView>(
                error@,
            ),
        },
{
    let mut sizes: Vec<DimSize> = Vec::new();
    let mut index: usize = 0;
    while index < count
        invariant
            index <= count,
            sizes_of(macros@, instances@, index as nat) == Ok::<Seq<DimSize>, PlacementErrorView>(sizes@),
        decreases count - index,
    {
        match instance_template(macros, instances, index) {
            Err(error) => {
                proof {
                    sizes_fail(macros@, instances@, (index + 1) as nat, count as nat);
                }
                return Err(error);
            },
            Ok(template) => {
                sizes.push(template.size);
            },
        }
        index += 1;
    }
    Ok(sizes)
}

// ---------------------------------------------------------------------------
// Seed and repair of instances
// ---------------------------------------------------------------------------
/// Puts instances into rows and layers, the most connected first.
pub fn seed_placement(problem: &PlacementProblem, config: &InitialPlacementConfig) -> (result: Result<
    Vec<MacroInstance>,
    PlacementError,
>)
    requires
        shelves_fit(*config),
        pin_total(problem.nets@, problem.nets@.len()) <= usize::MAX,
    ensures
        match (result, seed_positions(problem.macros@, problem.instances@, problem.nets@, *config)) {
            (Ok(instances), Ok(positions)) => instances@ == moved_to(problem.instances@, positions),
            (Err(error), Err(expected)) => error@ == expected,
            _ => false,
        },
{
    let ghost m = problem.macros@;
    let ghost n = problem.instances@;
    match seed_places(&problem.macros, &problem.instances, &problem.nets, config) {
        Err(error) => Err(error),
        Ok(positions) => {
            proof {
                seeded_count(m, n, *config, seed_order(problem.nets@, n), n.len());
            }
            Ok(move_to(&problem.instances, &positions))
        },
    }
}

pub proof fn seeded_count(
    macros: Seq<MacroTemplate>,
    instances: Seq<MacroInstance>,
    config: InitialPlacementConfig,
    order: Seq<usize>,
    count: nat,
)
    ensures
        seeded(macros, instances, config, order, count) matches Ok((_, positions)) ==> positions.len()
            == instances.len(),
    decreases count,
{
    if count > 0 {
        seeded_count(macros, instances, config, order, (count - 1) as nat);
    }
}

/// What repairing comes to: the places that are reached, and the error where
/// macros still overlap.
pub open spec fn repair_error(
    sizes: Seq<DimSize>,
    positions: Seq<Position>,
    world: DimSize,
) -> Option<PlacementErrorView> {
    let remaining = all_pairs(sizes, positions).len();
    if remaining == 0 {
        None
    } else {
        Some(PlacementErrorView::Inseparable { pairs: remaining as usize, world })
    }
}

/// Moves overlapping instances apart. Instances that stay in each other's way
/// are reported.
pub fn repair_overlaps(
    problem: &PlacementProblem,
    instances: &mut Vec<MacroInstance>,
    config: &InitialPlacementConfig,
) -> (result: Result<(), PlacementError>)
    requires
        sizes_of(problem.macros@, problem.instances@, old(instances)@.len()) matches Ok(sizes) ==> have_room(
            sizes,
            positions_of(old(instances)@),
            config.world,
        ),
    ensures
        match sizes_of(problem.macros@, problem.instances@, old(instances)@.len()) {
            Err(expected) => {
                &&& result matches Err(error) && error@ == expected
                &&& final(instances)@ == old(instances)@
            },
            Ok(sizes) => {
                let after = repaired(
                    sizes,
                    positions_of(old(instances)@),
                    config.world,
                    config.repair_iterations as nat,
                );
                &&& final(instances)@ == moved_to(old(instances)@, after)
                &&& match result {
                    Ok(_) => repair_error(sizes, after, config.world) is None,
                    Err(error) => repair_error(sizes, after, config.world) == Some(error@),
                }
            },
        },
{
    let sizes = match collect_sizes(&problem.macros, &problem.instances, instances.len()) {
        Err(error) => return Err(error),
        Ok(sizes) => sizes,
    };
    let mut positions = collect_positions(instances);
    let remaining: usize = repair_positions(&sizes, &mut positions, config.world, config.repair_iterations);
    *instances = move_to(instances, &positions);
    if remaining > 0 {
        return Err(PlacementError::Inseparable { pairs: remaining, world: config.world });
    }
    Ok(())
}

// ---------------------------------------------------------------------------
// The initial placement
// ---------------------------------------------------------------------------
/// The places of the initial placement.
pub open spec fn initial_positions(
    macros: Seq<MacroTemplate>,
    instances: Seq<MacroInstance>,
    nets: Seq<PhysicalNet>,
    config: InitialPlacementConfig,
) -> Result<Seq<Position>, PlacementErrorView> {
    match seed_positions(macros, instances, nets, config) {
        Err(error) => Err(error),
        Ok(seed) => match relaxed_passes(
            macros,
            instances,
            nets,
            seed,
            config,
            config.barycenter_iterations as nat,
        ) {
            Err(error) => Err(error),
            Ok(relaxed) => match sizes_of(macros, instances, instances.len()) {
                Err(error) => Err(error),
                Ok(sizes) => {
                    let after = repaired(sizes, relaxed, config.world, config.repair_iterations as nat);
                    match repair_error(sizes, after, config.world) {
                        Some(error) => Err(error),
                        None => Ok(after),
                    }
                },
            },
        },
    }
}

/// Whether sums and products of coordinates stay in range.
pub open spec fn problem_fits(
    macros: Seq<MacroTemplate>,
    nets: Seq<PhysicalNet>,
    config: InitialPlacementConfig,
) -> bool {
    &&& shelves_fit(config)
    &&& config.max_step <= i64::MAX
    &&& exists|bound: int| #[trigger] is_bound(macros, nets, config.world, bound)
}

/// Moving instances does not change their macros.
pub proof fn template_moved(
    macros: Seq<MacroTemplate>,
    instances: Seq<MacroInstance>,
    positions: Seq<Position>,
    index: usize,
)
    ensures
        template_of(macros, moved_to(instances, positions), index) == template_of(macros, instances, index),
{
}

/// Pushing boxes apart keeps the world's places in the world.
proof fn repair_keeps_within(
    sizes: Seq<DimSize>,
    positions: Seq<Position>,
    world: DimSize,
    rounds: nat,
    bound: int,
)
    requires
        places_within(positions, bound),
        cell_within(Position(world.0, world.1, world.2), bound),
        sizes.len() == positions.len() <= usize::MAX,
    ensures
        places_within(repaired(sizes, positions, world, rounds), bound),
        repaired(sizes, positions, world, rounds).len() == positions.len(),
    decreases rounds,
{
    let pairs = all_pairs(sizes, positions);
    if rounds > 0 && pairs.len() > 0 {
        pairs_in_range(sizes, positions, sizes.len(), sizes.len() + 1);
        separation_keeps_within(sizes, positions, pairs, world, pairs.len(), bound);
        repair_keeps_within(
            sizes,
            separated_pairs(sizes, positions, pairs, world, pairs.len()),
            world,
            (rounds - 1) as nat,
            bound,
        );
    }
}

proof fn separation_keeps_within(
    sizes: Seq<DimSize>,
    positions: Seq<Position>,
    pairs: Seq<OverlappingPair>,
    world: DimSize,
    count: nat,
    bound: int,
)
    requires
        places_within(positions, bound),
        cell_within(Position(world.0, world.1, world.2), bound),
        count <= pairs.len(),
        forall|i: int| 0 <= i < pairs.len() ==> (#[trigger] pairs[i]).high < positions.len(),
    ensures
        places_within(separated_pairs(sizes, positions, pairs, world, count), bound),
        separated_pairs(sizes, positions, pairs, world, count).len() == positions.len(),
    decreases count,
{
    if count > 0 {
        separation_keeps_within(sizes, positions, pairs, world, (count - 1) as nat, bound);
        let before = separated_pairs(sizes, positions, pairs, world, (count - 1) as nat);
        let after = separated_pairs(sizes, positions, pairs, world, count);
        assert forall|i: int| 0 <= i < after.len() implies cell_within(#[trigger] after[i], bound) by {
            assert(cell_within(before[i], bound));
        }
    }
}

proof fn highest_within(cells: Seq<Position>, axis: int, bound: int)
    requires
        places_within(cells, bound),
        bound >= 0,
    ensures
        highest(cells, axis) <= bound,
    decreases cells.len(),
{
    if cells.len() > 0 {
        let rest = cells.drop_last();
        assert forall|i: int| 0 <= i < rest.len() implies cell_within(#[trigger] rest[i], bound) by {
            assert(rest[i] == cells[i]);
        }
        highest_within(rest, axis, bound);
        assert(cell_within(cells[cells.len() - 1], bound));
    }
}

proof fn pin_places_within(
    macros: Seq<MacroTemplate>,
    instances: Seq<MacroInstance>,
    pins: Seq<PinRef>,
    count: nat,
    bound: int,
)
    requires
        pins_within(macros, bound),
        places_within(positions_of(instances), bound),
        0 <= 2 * bound <= usize::MAX,
        count <= pins.len(),
    ensures
        pin_places(macros, instances, pins, count) matches Ok(places) ==> places_within(places, 2 * bound),
    decreases count,
{
    if count > 0 {
        pin_places_within(macros, instances, pins, (count - 1) as nat, bound);
        if pin_places(macros, instances, pins, count) is Ok {
            let before = pin_places(macros, instances, pins, (count - 1) as nat)->Ok_0;
            let after = pin_places(macros, instances, pins, count)->Ok_0;
            let reference = pins[count - 1];
            let slot = reference.instance as int;
            assert(positions_of(instances)[slot] == instances[slot].position);
            pin_within(macros, instances, reference.instance, instances[slot].position, reference.pin@, bound);
            assert forall|i: int| 0 <= i < after.len() implies cell_within(#[trigger] after[i], 2 * bound) by {
                if i < before.len() {
                    assert(after[i] == before[i]);
                }
            }
        }
    }
}

proof fn net_within_fits(
    macros: Seq<MacroTemplate>,
    instances: Seq<MacroInstance>,
    net: PhysicalNet,
    bound: int,
)
    requires
        pins_within(macros, bound),
        places_within(positions_of(instances), bound),
        0 <= 6 * bound <= usize::MAX,
    ensures
        net_fits(macros, instances, net),
        net_length(macros, instances, net) matches Ok(length) ==> length <= 6 * bound,
{
    let pins = net_pins(net);
    assert forall|i: int| 0 <= i < pins.len() implies pin_place_fits(macros, instances, #[trigger] pins[i]) by {
        let reference = pins[i];
        if template_of(macros, instances, reference.instance) is Ok {
            let slot = reference.instance as int;
            assert(positions_of(instances)[slot] == instances[slot].position);
            pin_within(macros, instances, reference.instance, instances[slot].position, reference.pin@, bound);
        }
    }
    pin_places_within(macros, instances, pins, pins.len(), bound);
    if net_length(macros, instances, net) is Ok {
        let places = pin_places(macros, instances, pins, pins.len())->Ok_0;
        highest_within(places, 0, 2 * bound);
        highest_within(places, 1, 2 * bound);
        highest_within(places, 2, 2 * bound);
    }
}

proof fn wire_length_within(
    macros: Seq<MacroTemplate>,
    instances: Seq<MacroInstance>,
    nets: Seq<PhysicalNet>,
    count: nat,
    bound: int,
)
    requires
        pins_within(macros, bound),
        places_within(positions_of(instances), bound),
        0 <= 6 * bound <= usize::MAX,
        count <= nets.len(),
    ensures
        wire_length(macros, instances, nets, count) matches Ok(total) ==> total <= count * (6 * bound),
    decreases count,
{
    if count > 0 {
        wire_length_within(macros, instances, nets, (count - 1) as nat, bound);
        net_within_fits(macros, instances, nets[count - 1], bound);
        assert(count * (6 * bound) == (count - 1) * (6 * bound) + 6 * bound) by (nonlinear_arith);
    } else {
        assert(0 * (6 * bound) == 0);
    }
}

/// Nets between pins within a bound are in range.
pub proof fn nets_within_fit(
    macros: Seq<MacroTemplate>,
    instances: Seq<MacroInstance>,
    nets: Seq<PhysicalNet>,
    world: DimSize,
    bound: int,
)
    requires
        is_bound(macros, nets, world, bound),
        places_within(positions_of(instances), bound),
    ensures
        nets_fit(macros, instances, nets),
{
    bound_is_small(macros, nets, world, bound);
    assert forall|i: int| 0 <= i < nets.len() implies net_fits(macros, instances, #[trigger] nets[i]) by {
        net_within_fits(macros, instances, nets[i], bound);
    }
    assert forall|count: nat| count <= nets.len() implies #[trigger] length_so_far(macros, instances, nets, count) by {
        wire_length_within(macros, instances, nets, count, bound);
        pin_total_grows(nets, 0, nets.len());
        let total = pin_total(nets, nets.len());
        assert(count * (6 * bound) <= 8 * ((total + 1) * bound)) by (nonlinear_arith)
            requires
                count <= total,
                bound >= 1,
        ;
    }
}

/// Places the instances of a problem: a seed, relaxation and repair. A result
/// has no two macros that overlap; otherwise what is in the way is reported.
pub fn place_initial(problem: &PlacementProblem, config: &InitialPlacementConfig) -> (result: Result<
    PlacementSolution,
    PlacementError,
>)
    requires
        problem_fits(problem.macros@, problem.nets@, *config),
        is_numbered(problem.instances@),
    ensures
        match initial_positions(problem.macros@, problem.instances@, problem.nets@, *config) {
            Err(expected) => result matches Err(error) && error@ == expected,
            Ok(positions) => {
                let placed = moved_to(problem.instances@, positions);
                match wire_length(problem.macros@, placed, problem.nets@, problem.nets@.len()) {
                    Err(expected) => result matches Err(error) && error@ == expected,
                    Ok(total) => {
                        &&& result matches Ok(solution) && {
                            &&& solution.instances@ == placed
                            &&& solution.wire_length == total
                            &&& lists_overlaps(
                                solution.legality.overlaps@,
                                footprints(problem.macros@, placed, placed.len()),
                            )
                            &&& lists_outside(
                                solution.legality.out_of_bounds@,
                                problem.macros@,
                                placed,
                                config.world,
                            )
                        }
                    },
                }
            },
        },
{
    let ghost m = problem.macros@;
    let ghost n = problem.instances@;
    let ghost nets = problem.nets@;
    let ghost bound = choose|bound: int| #[trigger] is_bound(m, nets, config.world, bound);
    proof {
        bound_is_small(m, nets, config.world, bound);
    }
    let mut positions = match seed_places(&problem.macros, &problem.instances, &problem.nets, config) {
        Err(error) => return Err(error),
        Ok(positions) => positions,
    };
    let count: usize = problem.instances.len();
    proof {
        let seed = positions@;
        seeded_count(m, n, *config, seed_order(nets, n), n.len());
        assert forall|i: int| 0 <= i < n.len() implies stands_inside(
            #[trigger] seed[i],
            size_of_instance(m, n, i),
            config.world,
        ) && template_of(m, n, i as usize) is Ok by {
            seed_is_legal(m, n, nets, *config, i, i);
        }
        assert forall|i: int| 0 <= i < seed.len() implies cell_within(#[trigger] seed[i], bound) by {
            assert(stands_inside(seed[i], size_of_instance(m, n, i), config.world));
        }
        assert forall|i: int| 0 <= i < n.len() implies #[trigger] has_template(m, n, i) by {
            assert(stands_inside(seed[i], size_of_instance(m, n, i), config.world));
        }
        sizes_succeed(m, n, n.len());
        sizes_are_sizes(m, n, n.len());
    }
    let ghost seed = positions@;
    match relax_places(&problem.macros, &problem.instances, &problem.nets, &mut positions, config, Ghost(bound)) {
        Err(error) => return Err(error),
        Ok(_) => {},
    }
    let sizes = match collect_sizes(&problem.macros, &problem.instances, count) {
        Err(error) => return Err(error),
        Ok(sizes) => sizes,
    };
    proof {
        assert forall|i: int| 0 <= i < sizes.len() implies has_room(#[trigger] positions@[i], sizes@[i]) && has_room(
            Position(config.world.0, config.world.1, config.world.2),
            sizes@[i],
        ) by {
            assert(stands_inside(seed[i], size_of_instance(m, n, i), config.world));
            assert(cell_within(positions@[i], bound));
        }
        repair_keeps_within(
            sizes@,
            positions@,
            config.world,
            config.repair_iterations as nat,
            bound,
        );
    }
    let remaining: usize = repair_positions(&sizes, &mut positions, config.world, config.repair_iterations);
    if remaining > 0 {
        return Err(PlacementError::Inseparable { pairs: remaining, world: config.world });
    }
    let instances = move_to(&problem.instances, &positions);
    proof {
        let placed = instances@;
        assert(positions_of(placed) =~= positions@);
        nets_within_fit(m, placed, nets, config.world, bound);
        assert forall|i: int| 0 <= i < placed.len() implies match template_of(m, placed, (#[trigger] placed[i]).id) {
            Ok(template) => footprint_fits(template, placed[i].position),
            Err(_) => true,
        } by {
            assert(n[i].id == i);
            template_moved(m, n, positions@, i as usize);
            assert(stands_inside(seed[i], size_of_instance(m, n, i), config.world));
            assert(cell_within(positions@[i], bound));
        }
    }
    let total: usize = match wire_length_of(&problem.macros, &instances, &problem.nets) {
        Err(error) => return Err(error),
        Ok(total) => total,
    };
    let legality = legality_of(&problem.macros, &instances, config.world);
    Ok(PlacementSolution { instances, wire_length: total, legality })
}

} // verus!

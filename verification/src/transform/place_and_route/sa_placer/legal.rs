//! Why an initial placement is legal.

use super::initial::{
    has_template, initial_positions, moved_to, problem_fits, sizes_are_sizes, sizes_of, template_moved,
};
use super::relax::{relaxed, relaxed_passes};
use super::repair::{
    all_pairs, boxes_overlap, pairs_before, pairs_complete, pairs_in_range, repaired, separated_pairs, OverlappingPair,
};
use super::seed::{
    is_numbered, seed_is_legal, seed_positions, size_of_instance, stand_apart, stands_inside, InitialPlacementConfig,
};
use crate::transform::place_and_route::placement_ir::{
    shift_fits, shifted_blocks_all, MacroInstance, MacroTemplate, PhysicalNet,
};
use crate::transform::place_and_route::placement_problem::{
    far_corner, footprints, is_overlap, lists_overlaps, ordered_pair, template_of, Footprint,
};
use crate::transform::place_and_route::placement_world::{is_outside, lists_outside};
use crate::world::position::{in_bounds, DimSize, Position};
use vstd::prelude::*;

verus! {

/// Whether every box lies inside a world.
pub open spec fn all_inside(sizes: Seq<DimSize>, positions: Seq<Position>, world: DimSize) -> bool {
    &&& sizes.len() == positions.len()
    &&& forall|i: int| 0 <= i < sizes.len() ==> stands_inside(#[trigger] positions[i], sizes[i], world)
}

proof fn separation_stays_inside(
    sizes: Seq<DimSize>,
    positions: Seq<Position>,
    pairs: Seq<OverlappingPair>,
    world: DimSize,
    count: nat,
)
    requires
        all_inside(sizes, positions, world),
        count <= pairs.len(),
        forall|i: int| 0 <= i < pairs.len() ==> (#[trigger] pairs[i]).high < sizes.len(),
    ensures
        all_inside(sizes, separated_pairs(sizes, positions, pairs, world, count), world),
    decreases count,
{
    if count > 0 {
        separation_stays_inside(sizes, positions, pairs, world, (count - 1) as nat);
        let before = separated_pairs(sizes, positions, pairs, world, (count - 1) as nat);
        let after = separated_pairs(sizes, positions, pairs, world, count);
        assert forall|i: int| 0 <= i < sizes.len() implies stands_inside(#[trigger] after[i], sizes[i], world) by {
            assert(stands_inside(before[i], sizes[i], world));
        }
    }
}

/// Repairing keeps every macro inside the world.
pub proof fn repair_stays_inside(sizes: Seq<DimSize>, positions: Seq<Position>, world: DimSize, rounds: nat)
    requires
        all_inside(sizes, positions, world),
        sizes.len() <= usize::MAX,
    ensures
        all_inside(sizes, repaired(sizes, positions, world, rounds), world),
    decreases rounds,
{
    let pairs = all_pairs(sizes, positions);
    if rounds > 0 && pairs.len() > 0 {
        pairs_in_range(sizes, positions, sizes.len(), sizes.len() + 1);
        separation_stays_inside(sizes, positions, pairs, world, pairs.len());
        repair_stays_inside(
            sizes,
            separated_pairs(sizes, positions, pairs, world, pairs.len()),
            world,
            (rounds - 1) as nat,
        );
    }
}

proof fn pass_stays_inside(
    macros: Seq<MacroTemplate>,
    instances: Seq<MacroInstance>,
    nets: Seq<PhysicalNet>,
    sizes: Seq<DimSize>,
    positions: Seq<Position>,
    config: InitialPlacementConfig,
    count: nat,
)
    requires
        all_inside(sizes, positions, config.world),
        count <= positions.len() <= usize::MAX,
        forall|i: int| 0 <= i < sizes.len() ==> #[trigger] sizes[i] == size_of_instance(macros, instances, i),
        relaxed(macros, instances, nets, positions, config, count) is Ok,
    ensures
        all_inside(sizes, relaxed(macros, instances, nets, positions, config, count)->Ok_0.0, config.world),
    decreases count,
{
    if count > 0 {
        pass_stays_inside(macros, instances, nets, sizes, positions, config, (count - 1) as nat);
        let before = relaxed(macros, instances, nets, positions, config, (count - 1) as nat)->Ok_0.0;
        let after = relaxed(macros, instances, nets, positions, config, count)->Ok_0.0;
        assert(sizes[count - 1] == size_of_instance(macros, instances, count - 1));
        assert forall|i: int| 0 <= i < sizes.len() implies stands_inside(
            #[trigger] after[i],
            sizes[i],
            config.world,
        ) by {
            assert(stands_inside(before[i], sizes[i], config.world));
        }
    }
}

/// Relaxing keeps every macro inside the world.
pub proof fn relaxation_stays_inside(
    macros: Seq<MacroTemplate>,
    instances: Seq<MacroInstance>,
    nets: Seq<PhysicalNet>,
    sizes: Seq<DimSize>,
    positions: Seq<Position>,
    config: InitialPlacementConfig,
    passes: nat,
)
    requires
        all_inside(sizes, positions, config.world),
        positions.len() <= usize::MAX,
        forall|i: int| 0 <= i < sizes.len() ==> #[trigger] sizes[i] == size_of_instance(macros, instances, i),
        relaxed_passes(macros, instances, nets, positions, config, passes) is Ok,
    ensures
        all_inside(sizes, relaxed_passes(macros, instances, nets, positions, config, passes)->Ok_0, config.world),
    decreases passes,
{
    if passes > 0 {
        pass_stays_inside(macros, instances, nets, sizes, positions, config, positions.len());
        let (after, moved) = relaxed(macros, instances, nets, positions, config, positions.len())->Ok_0;
        if moved {
            relaxation_stays_inside(macros, instances, nets, sizes, after, config, (passes - 1) as nat);
        }
    }
}

/// An initial placement keeps every macro inside the world, and no two macros
/// overlap.
pub proof fn initial_places_are_apart(
    macros: Seq<MacroTemplate>,
    instances: Seq<MacroInstance>,
    nets: Seq<PhysicalNet>,
    config: InitialPlacementConfig,
)
    requires
        problem_fits(macros, nets, config),
        is_numbered(instances),
        instances.len() <= usize::MAX,
        initial_positions(macros, instances, nets, config) is Ok,
    ensures
        ({
            let positions = initial_positions(macros, instances, nets, config)->Ok_0;
            let sizes = sizes_of(macros, instances, instances.len())->Ok_0;
            &&& sizes_of(macros, instances, instances.len()) is Ok
            &&& all_inside(sizes, positions, config.world)
            &&& sizes.len() == instances.len()
            &&& all_pairs(sizes, positions).len() == 0
        }),
{
    let seed = seed_positions(macros, instances, nets, config)->Ok_0;
    let sizes = sizes_of(macros, instances, instances.len())->Ok_0;
    sizes_are_sizes(macros, instances, instances.len());
    if instances.len() > 0 {
        seed_is_legal(macros, instances, nets, config, 0, 0);
    } else {
        super::initial::seeded_count(
            macros,
            instances,
            config,
            super::seed::seed_order(nets, instances),
            instances.len(),
        );
    }
    assert forall|i: int| 0 <= i < sizes.len() implies stands_inside(#[trigger] seed[i], sizes[i], config.world) by {
        seed_is_legal(macros, instances, nets, config, i, i);
        assert(sizes[i] == size_of_instance(macros, instances, i));
    }
    relaxation_stays_inside(
        macros,
        instances,
        nets,
        sizes,
        seed,
        config,
        config.barycenter_iterations as nat,
    );
    let relaxed = relaxed_passes(macros, instances, nets, seed, config, config.barycenter_iterations as nat)->Ok_0;
    repair_stays_inside(sizes, relaxed, config.world, config.repair_iterations as nat);
}

proof fn numbered_footprints(macros: Seq<MacroTemplate>, instances: Seq<MacroInstance>, count: nat)
    requires
        count <= instances.len() <= usize::MAX,
        is_numbered(instances),
        forall|i: int| 0 <= i < instances.len() ==> #[trigger] has_template(macros, instances, i),
    ensures
        footprints(macros, instances, count).len() == count,
        forall|i: int|
            0 <= i < count ==> #[trigger] footprints(macros, instances, count)[i] == (Footprint {
                id: i as usize,
                min: instances[i].position,
                max: far_corner(template_of(macros, instances, i as usize)->Ok_0, instances[i].position),
            }),
    decreases count,
{
    if count > 0 {
        numbered_footprints(macros, instances, (count - 1) as nat);
        assert(has_template(macros, instances, count - 1));
        assert(instances[count - 1].id == count - 1);
    }
}

/// Where boxes stand inside the world and apart, no footprints meet.
pub proof fn footprints_stay_apart(
    macros: Seq<MacroTemplate>,
    instances: Seq<MacroInstance>,
    positions: Seq<Position>,
    world: DimSize,
)
    requires
        is_numbered(instances),
        instances.len() <= usize::MAX,
        sizes_of(macros, instances, instances.len()) is Ok,
        ({
            let sizes = sizes_of(macros, instances, instances.len())->Ok_0;
            &&& all_inside(sizes, positions, world)
            &&& all_pairs(sizes, positions).len() == 0
        }),
    ensures
        forall|i: int, j: int, pair: (usize, usize)| !(#[trigger] is_overlap(
            footprints(macros, moved_to(instances, positions), moved_to(instances, positions).len()),
            i,
            j,
            pair,
        )),
{
    let sizes = sizes_of(macros, instances, instances.len())->Ok_0;
    let placed = moved_to(instances, positions);
    sizes_are_sizes(macros, instances, instances.len());
    assert forall|i: int| 0 <= i < placed.len() implies #[trigger] has_template(macros, placed, i) by {
        assert(has_template(macros, instances, i));
        template_moved(macros, instances, positions, i as usize);
    }
    assert forall|i: int| 0 <= i < placed.len() implies (#[trigger] placed[i]).id == i by {
        assert(instances[i].id == i);
    }
    numbered_footprints(macros, placed, placed.len());
    let list = footprints(macros, placed, placed.len());
    assert forall|i: int, j: int, pair: (usize, usize)| !(#[trigger] is_overlap(list, i, j, pair)) by {
        if is_overlap(list, i, j, pair) {
            template_moved(macros, instances, positions, i as usize);
            template_moved(macros, instances, positions, j as usize);
            assert(stands_inside(positions[i], sizes[i], world));
            assert(stands_inside(positions[j], sizes[j], world));
            assert(sizes[i] == size_of_instance(macros, instances, i));
            assert(sizes[j] == size_of_instance(macros, instances, j));
            assert(list[i].min == positions[i]);
            assert(list[j].min == positions[j]);
            assert(boxes_overlap(sizes, positions, i, j));
            pairs_complete(sizes, positions, sizes.len(), sizes.len() + 1, i, j);
        }
    }
}

/// Whether the blocks of a macro stand inside its box.
pub open spec fn blocks_inside(template: MacroTemplate) -> bool {
    forall|i: int| 0 <= i < template.blocks@.len() ==> in_bounds(template.size, (#[trigger] template.blocks@[i]).0)
}

proof fn no_pairs(sizes: Seq<DimSize>, positions: Seq<Position>, low: nat, high: nat)
    requires
        low < sizes.len() && high <= sizes.len() || low == sizes.len() && high <= sizes.len() + 1,
        forall|i: int, j: int| 0 <= i < j < sizes.len() ==> !(#[trigger] boxes_overlap(sizes, positions, i, j)),
    ensures
        pairs_before(sizes, positions, low, high).len() == 0,
    decreases low, high,
{
    if high > low + 1 {
        no_pairs(sizes, positions, low, (high - 1) as nat);
    } else if low > 0 {
        no_pairs(sizes, positions, (low - 1) as nat, sizes.len());
    }
}

/// Where boxes stand inside the world and no footprints meet, the boxes stand
/// apart.
pub proof fn boxes_stay_apart(
    macros: Seq<MacroTemplate>,
    instances: Seq<MacroInstance>,
    positions: Seq<Position>,
    world: DimSize,
)
    requires
        is_numbered(instances),
        instances.len() <= usize::MAX,
        sizes_of(macros, instances, instances.len()) is Ok,
        all_inside(sizes_of(macros, instances, instances.len())->Ok_0, positions, world),
        forall|i: int, j: int, pair: (usize, usize)| !(#[trigger] is_overlap(
            footprints(macros, moved_to(instances, positions), moved_to(instances, positions).len()),
            i,
            j,
            pair,
        )),
    ensures
        all_pairs(sizes_of(macros, instances, instances.len())->Ok_0, positions).len() == 0,
        forall|i: int, j: int|
            0 <= i < j < positions.len() ==> #[trigger] stand_apart(
                positions[i],
                sizes_of(macros, instances, instances.len())->Ok_0[i],
                positions[j],
                sizes_of(macros, instances, instances.len())->Ok_0[j],
            ),
{
    let sizes = sizes_of(macros, instances, instances.len())->Ok_0;
    let placed = moved_to(instances, positions);
    sizes_are_sizes(macros, instances, instances.len());
    assert forall|i: int| 0 <= i < placed.len() implies #[trigger] has_template(macros, placed, i) by {
        assert(has_template(macros, instances, i));
        template_moved(macros, instances, positions, i as usize);
    }
    assert forall|i: int| 0 <= i < placed.len() implies (#[trigger] placed[i]).id == i by {
        assert(instances[i].id == i);
    }
    numbered_footprints(macros, placed, placed.len());
    let list = footprints(macros, placed, placed.len());
    assert forall|i: int, j: int| 0 <= i < j < sizes.len() implies !(#[trigger] boxes_overlap(
        sizes,
        positions,
        i,
        j,
    )) && stand_apart(positions[i], sizes[i], positions[j], sizes[j]) by {
        template_moved(macros, instances, positions, i as usize);
        template_moved(macros, instances, positions, j as usize);
        assert(stands_inside(positions[i], sizes[i], world));
        assert(stands_inside(positions[j], sizes[j], world));
        assert(sizes[i] == size_of_instance(macros, instances, i));
        assert(sizes[j] == size_of_instance(macros, instances, j));
        assert(list[i].min == positions[i]);
        assert(list[j].min == positions[j]);
        assert(!is_overlap(list, i, j, ordered_pair(i as usize, j as usize)));
    }
    assert forall|i: int, j: int| 0 <= i < j < positions.len() implies #[trigger] stand_apart(
        positions[i],
        sizes[i],
        positions[j],
        sizes[j],
    ) by {
        assert(!boxes_overlap(sizes, positions, i, j));
    }
    no_pairs(sizes, positions, sizes.len(), sizes.len() + 1);
}

/// Where the boxes of macros stand inside the world, and their blocks inside the
/// boxes, no block is outside the world.
pub proof fn blocks_stay_inside(
    macros: Seq<MacroTemplate>,
    instances: Seq<MacroInstance>,
    positions: Seq<Position>,
    world: DimSize,
)
    requires
        is_numbered(instances),
        instances.len() <= usize::MAX,
        sizes_of(macros, instances, instances.len()) is Ok,
        all_inside(sizes_of(macros, instances, instances.len())->Ok_0, positions, world),
        forall|i: int|
            0 <= i < instances.len() && #[trigger] has_template(macros, instances, i) ==> blocks_inside(
                template_of(macros, instances, i as usize)->Ok_0,
            ),
    ensures
        forall|i: int, k: int, cell: (usize, Position)| !(#[trigger] is_outside(
            macros,
            moved_to(instances, positions),
            world,
            i,
            k,
            cell,
        )),
{
    let sizes = sizes_of(macros, instances, instances.len())->Ok_0;
    let placed = moved_to(instances, positions);
    sizes_are_sizes(macros, instances, instances.len());
    assert forall|i: int, k: int, cell: (usize, Position)| !(#[trigger] is_outside(macros, placed, world, i, k, cell)) by {
        if is_outside(macros, placed, world, i, k, cell) {
            assert(instances[i].id == i);
            assert(placed[i].id == i);
            assert(has_template(macros, instances, i));
            template_moved(macros, instances, positions, i as usize);
            let template = template_of(macros, instances, i as usize)->Ok_0;
            assert(stands_inside(positions[i], sizes[i], world));
            assert(sizes[i] == size_of_instance(macros, instances, i));
            assert forall|b: int| 0 <= b < template.blocks@.len() implies shift_fits(
                positions[i],
                (#[trigger] template.blocks@[b]).0,
            ) by {
                assert(in_bounds(template.size, template.blocks@[b].0));
            }
            shifted_blocks_all(positions[i], template.blocks@, template.blocks@.len());
            assert(in_bounds(template.size, template.blocks@[k].0));
        }
    }
}

/// Macros whose blocks stand inside their boxes have no conflict where the boxes
/// stand inside the world and apart: no footprints meet, and no block is outside
/// the world.
pub proof fn places_apart_are_legal(
    macros: Seq<MacroTemplate>,
    instances: Seq<MacroInstance>,
    positions: Seq<Position>,
    world: DimSize,
    pairs: Seq<(usize, usize)>,
    cells: Seq<(usize, Position)>,
)
    requires
        is_numbered(instances),
        instances.len() <= usize::MAX,
        sizes_of(macros, instances, instances.len()) is Ok,
        ({
            let sizes = sizes_of(macros, instances, instances.len())->Ok_0;
            &&& all_inside(sizes, positions, world)
            &&& all_pairs(sizes, positions).len() == 0
        }),
        forall|i: int|
            0 <= i < instances.len() && #[trigger] has_template(macros, instances, i) ==> blocks_inside(
                template_of(macros, instances, i as usize)->Ok_0,
            ),
        ({
            let placed = moved_to(instances, positions);
            &&& lists_overlaps(pairs, footprints(macros, placed, placed.len()))
            &&& lists_outside(cells, macros, placed, world)
        }),
    ensures
        pairs.len() == 0,
        cells.len() == 0,
{
    footprints_stay_apart(macros, instances, positions, world);
    blocks_stay_inside(macros, instances, positions, world);
    if pairs.len() > 0 {
        assert(pairs.contains(pairs[0]));
    }
    if cells.len() > 0 {
        assert(cells.contains(cells[0]));
    }
}

/// An initial placement of macros whose blocks stand inside their boxes has no
/// conflict: no footprints that meet, and no block outside the world.
pub proof fn initial_placement_is_legal(
    macros: Seq<MacroTemplate>,
    instances: Seq<MacroInstance>,
    nets: Seq<PhysicalNet>,
    config: InitialPlacementConfig,
    pairs: Seq<(usize, usize)>,
    cells: Seq<(usize, Position)>,
)
    requires
        problem_fits(macros, nets, config),
        is_numbered(instances),
        instances.len() <= usize::MAX,
        initial_positions(macros, instances, nets, config) is Ok,
        forall|i: int|
            0 <= i < instances.len() && #[trigger] has_template(macros, instances, i) ==> blocks_inside(
                template_of(macros, instances, i as usize)->Ok_0,
            ),
        ({
            let placed = moved_to(instances, initial_positions(macros, instances, nets, config)->Ok_0);
            &&& lists_overlaps(pairs, footprints(macros, placed, placed.len()))
            &&& lists_outside(cells, macros, placed, config.world)
        }),
    ensures
        pairs.len() == 0,
        cells.len() == 0,
{
    let positions = initial_positions(macros, instances, nets, config)->Ok_0;
    initial_places_are_apart(macros, instances, nets, config);
    places_apart_are_legal(macros, instances, positions, config.world, pairs, cells);
}

} // verus!

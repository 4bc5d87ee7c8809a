//! The seed of a placement: macros in rows and layers, the most connected
//! first.

use crate::order::{
    distinct_covers, stable_order, stable_order_distinct, stable_order_exists, stable_order_is_unique, the_stable_order,
    RankKey,
};
use crate::transform::place_and_route::placement_error::{PlacementError, PlacementErrorView};
use crate::transform::place_and_route::placement_ir::{MacroInstance, MacroTemplate, PhysicalNet, PinRef};
use crate::transform::place_and_route::placement_problem::{instance_template, net_pins, template_of};
use crate::world::position::{DimSize, Position};
use vstd::prelude::*;

verus! {

/// How a placement is seeded, relaxed and repaired.
#[derive(Clone, Copy, Debug, PartialEq, Eq, Structural)]
pub struct InitialPlacementConfig {
    pub world: DimSize,
    /// The free cells between macros of the seed.
    pub spacing: usize,
    pub barycenter_iterations: usize,
    /// The farthest that relaxation moves a macro at once.
    pub max_step: usize,
    pub repair_iterations: usize,
}

impl Default for InitialPlacementConfig {
    fn default() -> (config: Self)
        ensures
            config == (InitialPlacementConfig {
                world: DimSize(64, 64, 8),
                spacing: 2,
                barycenter_iterations: 32,
                max_step: 4,
                repair_iterations: 64,
            }),
    {
        InitialPlacementConfig {
            world: DimSize(64, 64, 8),
            spacing: 2,
            barycenter_iterations: 32,
            max_step: 4,
            repair_iterations: 64,
        }
    }
}

/// How many of the first `count` pins belong to an instance.
pub open spec fn pins_on(pins: Seq<PinRef>, instance: usize, count: nat) -> nat
    decreases count,
{
    if count == 0 {
        0
    } else {
        pins_on(pins, instance, (count - 1) as nat) + if pins[count - 1].instance == instance {
            1nat
        } else {
            0
        }
    }
}

/// How many pins of the first `count` nets belong to an instance.
pub open spec fn degree(nets: Seq<PhysicalNet>, instance: usize, count: nat) -> nat
    decreases count,
{
    if count == 0 {
        0
    } else {
        degree(nets, instance, (count - 1) as nat) + pins_on(
            net_pins(nets[count - 1]),
            instance,
            net_pins(nets[count - 1]).len(),
        )
    }
}

/// How many pins the first `count` nets have.
pub open spec fn pin_total(nets: Seq<PhysicalNet>, count: nat) -> nat
    decreases count,
{
    if count == 0 {
        0
    } else {
        pin_total(nets, (count - 1) as nat) + net_pins(nets[count - 1]).len()
    }
}

pub proof fn pin_total_grows(nets: Seq<PhysicalNet>, low: nat, high: nat)
    requires
        low <= high <= nets.len(),
    ensures
        pin_total(nets, low) + (high - low) <= pin_total(nets, high),
    decreases high,
{
    if low < high {
        pin_total_grows(nets, low, (high - 1) as nat);
    }
}

proof fn pins_on_bound(pins: Seq<PinRef>, instance: usize, count: nat)
    ensures
        pins_on(pins, instance, count) <= count,
    decreases count,
{
    if count > 0 {
        pins_on_bound(pins, instance, (count - 1) as nat);
    }
}

proof fn degree_bound(nets: Seq<PhysicalNet>, instance: usize, count: nat)
    ensures
        degree(nets, instance, count) <= pin_total(nets, count),
    decreases count,
{
    if count > 0 {
        degree_bound(nets, instance, (count - 1) as nat);
        pins_on_bound(net_pins(nets[count - 1]), instance, net_pins(nets[count - 1]).len());
    }
}

/// How many pins of the nets belong to an instance.
pub fn instance_degree(nets: &Vec<PhysicalNet>, instance: usize) -> (count: usize)
    requires
        pin_total(nets@, nets@.len()) <= usize::MAX,
    ensures
        count == degree(nets@, instance, nets@.len()),
{
    let mut count: usize = 0;
    let mut index: usize = 0;
    while index < nets.len()
        invariant
            index <= nets.len(),
            pin_total(nets@, nets@.len()) <= usize::MAX,
            count == degree(nets@, instance, index as nat),
        decreases nets.len() - index,
    {
        let net = &nets[index];
        let ghost pins = net_pins(*net);
        let ghost so_far = degree(nets@, instance, index as nat);
        proof {
            pin_total_grows(nets@, (index + 1) as nat, nets@.len());
            degree_bound(nets@, instance, index as nat);
            reveal_with_fuel(pins_on, 2);
            assert(pins[0] == net.source);
            assert(pin_total(nets@, (index + 1) as nat) == pin_total(nets@, index as nat) + pins.len());
        }
        if net.source.instance == instance {
            count += 1;
        }
        let mut sink: usize = 0;
        while sink < net.sinks.len()
            invariant
                sink <= net.sinks.len(),
                pins == net_pins(*net),
                so_far + pins.len() <= usize::MAX,
                count == so_far + pins_on(pins, instance, (sink + 1) as nat),
            decreases net.sinks.len() - sink,
        {
            proof {
                assert(pins[sink + 1] == net.sinks@[sink as int]);
                pins_on_bound(pins, instance, (sink + 1) as nat);
            }
            if net.sinks[sink].instance == instance {
                count += 1;
            }
            sink += 1;
        }
        index += 1;
    }
    count
}

/// By what instances are ordered: the most connected first, then by number.
pub open spec fn seed_keys(nets: Seq<PhysicalNet>, instances: Seq<MacroInstance>) -> Seq<RankKey> {
    Seq::new(
        instances.len(),
        |i: int|
            RankKey(
                (usize::MAX - degree(nets, instances[i].id, nets.len())) as usize,
                instances[i].id,
                0,
                0,
                0,
            ),
    )
}

/// The order in which instances are seeded.
pub open spec fn seed_order(nets: Seq<PhysicalNet>, instances: Seq<MacroInstance>) -> Seq<usize> {
    the_stable_order(seed_keys(nets, instances))
}

/// Where the next macro goes, and how far the row and the layer reach.
#[derive(Clone, Copy, Debug, PartialEq, Eq, Structural)]
pub struct Shelf {
    pub cursor: Position,
    pub row_depth: usize,
    pub layer_height: usize,
}

/// The shelf in a new row where a macro does not fit into this one.
pub open spec fn next_row(shelf: Shelf, size: DimSize, world: DimSize, spacing: usize) -> Shelf {
    if shelf.cursor.0 + size.0 > world.0 {
        Shelf {
            cursor: Position(0, (shelf.cursor.1 + shelf.row_depth + spacing) as usize, shelf.cursor.2),
            row_depth: 0,
            layer_height: shelf.layer_height,
        }
    } else {
        shelf
    }
}

/// The shelf in a new layer where a macro does not fit into this one.
pub open spec fn next_layer(shelf: Shelf, size: DimSize, world: DimSize, spacing: usize) -> Shelf {
    if shelf.cursor.1 + size.1 > world.1 {
        Shelf {
            cursor: Position(shelf.cursor.0, 0, (shelf.cursor.2 + shelf.layer_height + spacing) as usize),
            row_depth: shelf.row_depth,
            layer_height: 0,
        }
    } else {
        shelf
    }
}

/// The shelf on which a macro is put.
pub open spec fn shelf_for(shelf: Shelf, size: DimSize, world: DimSize, spacing: usize) -> Shelf {
    next_layer(next_row(shelf, size, world, spacing), size, world, spacing)
}

/// The shelf behind a macro that was put on it.
pub open spec fn shelf_behind(shelf: Shelf, size: DimSize, spacing: usize) -> Shelf {
    Shelf {
        cursor: Position((shelf.cursor.0 + size.0 + spacing) as usize, shelf.cursor.1, shelf.cursor.2),
        row_depth: if size.1 > shelf.row_depth { size.1 } else { shelf.row_depth },
        layer_height: if size.2 > shelf.layer_height { size.2 } else { shelf.layer_height },
    }
}

/// Whether a macro is larger than the world.
pub open spec fn is_too_large(size: DimSize, world: DimSize) -> bool {
    size.0 > world.0 || size.1 > world.1 || size.2 > world.2
}

/// Where some instances stand.
pub open spec fn positions_of(instances: Seq<MacroInstance>) -> Seq<Position> {
    instances.map_values(|instance: MacroInstance| instance.position)
}

/// The shelf and the places after the first `count` instances of an order, or
/// the first instance that cannot be placed.
pub open spec fn seeded(
    macros: Seq<MacroTemplate>,
    instances: Seq<MacroInstance>,
    config: InitialPlacementConfig,
    order: Seq<usize>,
    count: nat,
) -> Result<(Shelf, Seq<Position>), PlacementErrorView>
    decreases count,
{
    if count == 0 {
        Ok((Shelf { cursor: Position(0, 0, 0), row_depth: 0, layer_height: 0 }, positions_of(instances)))
    } else {
        match seeded(macros, instances, config, order, (count - 1) as nat) {
            Err(error) => Err(error),
            Ok((shelf, positions)) => {
                let id = instances[order[count - 1] as int].id;
                match template_of(macros, instances, id) {
                    Err(error) => Err(error),
                    Ok(template) => {
                        let size = template.size;
                        let place = shelf_for(shelf, size, config.world, config.spacing);
                        if size.0 == 0 || size.1 == 0 || size.2 == 0 {
                            Err(PlacementErrorView::EmptyFootprint(id))
                        } else if is_too_large(size, config.world) {
                            Err(PlacementErrorView::TooLarge { instance: id, size, world: config.world })
                        } else if place.cursor.2 + size.2 > config.world.2 {
                            Err(
                                PlacementErrorView::WorldFull {
                                    count: instances.len() as usize,
                                    world: config.world,
                                },
                            )
                        } else {
                            Ok(
                                (
                                    shelf_behind(place, size, config.spacing),
                                    positions.update(id as int, place.cursor),
                                ),
                            )
                        }
                    },
                }
            },
        }
    }
}

/// The places of the seed.
pub open spec fn seed_positions(
    macros: Seq<MacroTemplate>,
    instances: Seq<MacroInstance>,
    nets: Seq<PhysicalNet>,
    config: InitialPlacementConfig,
) -> Result<Seq<Position>, PlacementErrorView> {
    match seeded(macros, instances, config, seed_order(nets, instances), instances.len()) {
        Err(error) => Err(error),
        Ok((_, positions)) => Ok(positions),
    }
}

proof fn seeded_fails(
    macros: Seq<MacroTemplate>,
    instances: Seq<MacroInstance>,
    config: InitialPlacementConfig,
    order: Seq<usize>,
    low: nat,
    high: nat,
)
    requires
        low <= high,
        seeded(macros, instances, config, order, low) is Err,
    ensures
        seeded(macros, instances, config, order, high) == seeded(macros, instances, config, order, low),
    decreases high,
{
    if low < high {
        seeded_fails(macros, instances, config, order, low, (high - 1) as nat);
    }
}

/// Whether rows and layers of a world stay in range.
pub open spec fn shelves_fit(config: InitialPlacementConfig) -> bool {
    &&& 3 * config.world.0 + config.spacing <= usize::MAX
    &&& 3 * config.world.1 + config.spacing <= usize::MAX
    &&& 3 * config.world.2 + config.spacing <= usize::MAX
}

/// Whether a shelf lies in the world.
pub open spec fn shelf_inside(shelf: Shelf, config: InitialPlacementConfig) -> bool {
    &&& shelf.cursor.0 <= config.world.0 + config.spacing
    &&& shelf.cursor.1 <= config.world.1
    &&& shelf.row_depth <= config.world.1
    &&& shelf.cursor.2 <= config.world.2
    &&& shelf.layer_height <= config.world.2
}

fn move_shelf(shelf: Shelf, size: DimSize, config: &InitialPlacementConfig) -> (place: Shelf)
    requires
        shelves_fit(*config),
        shelf_inside(shelf, *config),
        !is_too_large(size, config.world),
    ensures
        place == shelf_for(shelf, size, config.world, config.spacing),
        place.cursor.0 + size.0 <= config.world.0,
        place.cursor.1 + size.1 <= config.world.1,
        place.cursor.2 <= 2 * config.world.2 + config.spacing,
        place.row_depth <= config.world.1,
        place.layer_height <= config.world.2,
{
    let mut place = shelf;
    if place.cursor.0 + size.0 > config.world.0 {
        place = Shelf {
            cursor: Position(0, place.cursor.1 + place.row_depth + config.spacing, place.cursor.2),
            row_depth: 0,
            layer_height: place.layer_height,
        };
    }
    if place.cursor.1 + size.1 > config.world.1 {
        place = Shelf {
            cursor: Position(place.cursor.0, 0, place.cursor.2 + place.layer_height + config.spacing),
            row_depth: place.row_depth,
            layer_height: 0,
        };
    }
    place
}

/// The places of the seed.
pub fn seed_places(
    macros: &Vec<MacroTemplate>,
    instances: &Vec<MacroInstance>,
    nets: &Vec<PhysicalNet>,
    config: &InitialPlacementConfig,
) -> (result: Result<Vec<Position>, PlacementError>)
    requires
        shelves_fit(*config),
        pin_total(nets@, nets@.len()) <= usize::MAX,
    ensures
        match result {
            Ok(positions) => seed_positions(macros@, instances@, nets@, *config) == Ok::<
                Seq<Position>,
                PlacementErrorView,
            >(positions@),
            Err(error) => seed_positions(macros@, instances@, nets@, *config) == Err::<
                Seq<Position>,
                PlacementErrorView,
            >(error@),
        },
{
    let ghost m = macros@;
    let ghost n = instances@;
    let mut keys: Vec<RankKey> = Vec::new();
    let mut positions: Vec<Position> = Vec::new();
    let mut index: usize = 0;
    while index < instances.len()
        invariant
            index <= instances.len(),
            pin_total(nets@, nets@.len()) <= usize::MAX,
            n == instances@,
            keys.len() == index,
            positions.len() == index,
            forall|i: int| 0 <= i < index ==> #[trigger] keys[i] == seed_keys(nets@, n)[i],
            forall|i: int| 0 <= i < index ==> #[trigger] positions[i] == n[i].position,
        decreases instances.len() - index,
    {
        let id: usize = instances[index].id;
        let count: usize = instance_degree(nets, id);
        keys.push(RankKey(usize::MAX - count, id, 0, 0, 0));
        positions.push(instances[index].position);
        index += 1;
    }
    let order = stable_order(&keys);
    proof {
        assert(keys@ =~= seed_keys(nets@, n));
        stable_order_is_unique(keys@, order@);
        assert(positions@ =~= positions_of(n));
    }
    let mut shelf = Shelf { cursor: Position(0, 0, 0), row_depth: 0, layer_height: 0 };
    let mut index: usize = 0;
    while index < order.len()
        invariant
            index <= order.len(),
            m == macros@,
            n == instances@,
            order@ == seed_order(nets@, n),
            order.len() == n.len(),
            forall|i: int| 0 <= i < order.len() ==> #[trigger] order@[i] < n.len(),
            shelves_fit(*config),
            shelf_inside(shelf, *config),
            positions.len() == n.len(),
            seeded(m, n, *config, order@, index as nat) == Ok::<(Shelf, Seq<Position>), PlacementErrorView>(
                (shelf, positions@),
            ),
        decreases order.len() - index,
    {
        let ghost next = (index + 1) as nat;
        let slot: usize = order[index];
        assert(order@[index as int] < n.len());
        let id: usize = instances[slot].id;
        let size = match instance_template(macros, instances, id) {
            Err(error) => {
                proof {
                    seeded_fails(m, n, *config, order@, next, n.len());
                }
                return Err(error);
            },
            Ok(template) => template.size,
        };
        if size.0 == 0 || size.1 == 0 || size.2 == 0 {
            proof {
                seeded_fails(m, n, *config, order@, next, n.len());
            }
            return Err(PlacementError::EmptyFootprint(id));
        }
        if size.0 > config.world.0 || size.1 > config.world.1 || size.2 > config.world.2 {
            proof {
                seeded_fails(m, n, *config, order@, next, n.len());
            }
            return Err(PlacementError::TooLarge { instance: id, size, world: config.world });
        }
        let place = move_shelf(shelf, size, config);
        if place.cursor.2 + size.2 > config.world.2 {
            proof {
                seeded_fails(m, n, *config, order@, next, n.len());
            }
            return Err(PlacementError::WorldFull { count: instances.len(), world: config.world });
        }
        positions[id] = place.cursor;
        shelf = Shelf {
            cursor: Position(place.cursor.0 + size.0 + config.spacing, place.cursor.1, place.cursor.2),
            row_depth: if size.1 > place.row_depth {
                size.1
            } else {
                place.row_depth
            },
            layer_height: if size.2 > place.layer_height {
                size.2
            } else {
                place.layer_height
            },
        };
        index += 1;
    }
    Ok(positions)
}

// ---------------------------------------------------------------------------
// What a seed is
// ---------------------------------------------------------------------------
/// Whether every instance stands under its own number.
pub open spec fn is_numbered(instances: Seq<MacroInstance>) -> bool {
    forall|i: int| 0 <= i < instances.len() ==> (#[trigger] instances[i]).id == i
}

/// The size of the macro of an instance that has one.
pub open spec fn size_of_instance(macros: Seq<MacroTemplate>, instances: Seq<MacroInstance>, index: int) -> DimSize {
    template_of(macros, instances, index as usize)->Ok_0.size
}

/// Whether a box lies inside a world and has a cell.
pub open spec fn stands_inside(position: Position, size: DimSize, world: DimSize) -> bool {
    &&& size.0 > 0 && position.0 + size.0 <= world.0
    &&& size.1 > 0 && position.1 + size.1 <= world.1
    &&& size.2 > 0 && position.2 + size.2 <= world.2
}

/// Whether two boxes have no cell in common.
pub open spec fn stand_apart(left: Position, left_size: DimSize, right: Position, right_size: DimSize) -> bool {
    ||| left.0 + left_size.0 <= right.0
    ||| right.0 + right_size.0 <= left.0
    ||| left.1 + left_size.1 <= right.1
    ||| right.1 + right_size.1 <= left.1
    ||| left.2 + left_size.2 <= right.2
    ||| right.2 + right_size.2 <= left.2
}

/// Whether a box lies in an earlier layer, row or place than a shelf's next
/// macro.
pub open spec fn lies_behind(shelf: Shelf, position: Position, size: DimSize) -> bool {
    ||| position.2 + size.2 <= shelf.cursor.2
    ||| {
        &&& position.2 == shelf.cursor.2
        &&& size.2 <= shelf.layer_height
        &&& position.1 + size.1 <= shelf.cursor.1 || position.1 == shelf.cursor.1 && size.1 <= shelf.row_depth
            && position.0 + size.0 <= shelf.cursor.0
    }
}

pub open spec fn seed_holds(
    macros: Seq<MacroTemplate>,
    instances: Seq<MacroInstance>,
    world: DimSize,
    order: Seq<usize>,
    count: nat,
    positions: Seq<Position>,
    shelf: Shelf,
    k: int,
) -> bool {
    let id = order[k] as int;
    let size = size_of_instance(macros, instances, id);
    &&& template_of(macros, instances, id as usize) is Ok
    &&& stands_inside(positions[id], size, world)
    &&& lies_behind(shelf, positions[id], size)
    &&& forall|j: int|
        0 <= j < count && j != k ==> stand_apart(
            positions[id],
            size,
            positions[(#[trigger] order[j]) as int],
            size_of_instance(macros, instances, order[j] as int),
        )
}

pub proof fn seeding_keeps_apart(
    macros: Seq<MacroTemplate>,
    instances: Seq<MacroInstance>,
    config: InitialPlacementConfig,
    order: Seq<usize>,
    count: nat,
)
    requires
        shelves_fit(config),
        is_numbered(instances),
        count <= order.len() == instances.len(),
        forall|i: int| 0 <= i < order.len() ==> #[trigger] order[i] < instances.len(),
        order.no_duplicates(),
        seeded(macros, instances, config, order, count) is Ok,
    ensures
        ({
            let (shelf, positions) = seeded(macros, instances, config, order, count)->Ok_0;
            &&& positions.len() == instances.len()
            &&& shelf_inside(shelf, config)
            &&& forall|k: int|
                0 <= k < count ==> #[trigger] seed_holds(
                    macros,
                    instances,
                    config.world,
                    order,
                    count,
                    positions,
                    shelf,
                    k,
                )
        }),
    decreases count,
{
    if count > 0 {
        let last = count - 1;
        seeding_keeps_apart(macros, instances, config, order, last as nat);
        let (before, old_positions) = seeded(macros, instances, config, order, last as nat)->Ok_0;
        let (shelf, positions) = seeded(macros, instances, config, order, count)->Ok_0;
        let slot = order[last] as int;
        assert(order[last] < instances.len());
        assert(instances[slot].id == slot);
        let size = size_of_instance(macros, instances, slot);
        let place = shelf_for(before, size, config.world, config.spacing);
        assert(positions == old_positions.update(slot, place.cursor));
        assert forall|k: int| 0 <= k < last implies lies_behind(
            place,
            old_positions[(#[trigger] order[k]) as int],
            size_of_instance(macros, instances, order[k] as int),
        ) by {
            assert(seed_holds(macros, instances, config.world, order, last as nat, old_positions, before, k));
            let row = next_row(before, size, config.world, config.spacing);
            assert(lies_behind(row, old_positions[order[k] as int], size_of_instance(macros, instances, order[k] as int)));
        }
        assert forall|k: int| 0 <= k < count implies #[trigger] seed_holds(
            macros,
            instances,
            config.world,
            order,
            count,
            positions,
            shelf,
            k,
        ) by {
            let id = order[k] as int;
            if k < last {
                assert(seed_holds(macros, instances, config.world, order, last as nat, old_positions, before, k));
                assert(order[k] != order[last]);
                assert(positions[id] == old_positions[id]);
                assert(lies_behind(place, old_positions[order[k] as int], size_of_instance(macros, instances, id)));
                assert forall|j: int| 0 <= j < count && j != k implies stand_apart(
                    positions[id],
                    size_of_instance(macros, instances, id),
                    positions[(#[trigger] order[j]) as int],
                    size_of_instance(macros, instances, order[j] as int),
                ) by {
                    assert(j < last ==> order[j] != order[last]);
                }
            } else {
                assert forall|j: int| 0 <= j < count && j != k implies stand_apart(
                    positions[id],
                    size_of_instance(macros, instances, id),
                    positions[(#[trigger] order[j]) as int],
                    size_of_instance(macros, instances, order[j] as int),
                ) by {
                    assert(order[j] != order[last]);
                    assert(lies_behind(
                        place,
                        old_positions[order[j] as int],
                        size_of_instance(macros, instances, order[j] as int),
                    ));
                }
            }
        }
    }
}

/// A seed puts every instance inside the world, and no two of them have a cell
/// in common.
pub proof fn seed_is_legal(
    macros: Seq<MacroTemplate>,
    instances: Seq<MacroInstance>,
    nets: Seq<PhysicalNet>,
    config: InitialPlacementConfig,
    left: int,
    right: int,
)
    requires
        shelves_fit(config),
        is_numbered(instances),
        instances.len() <= usize::MAX,
        seed_positions(macros, instances, nets, config) is Ok,
        0 <= left < instances.len(),
        0 <= right < instances.len(),
    ensures
        ({
            let positions = seed_positions(macros, instances, nets, config)->Ok_0;
            let left_size = size_of_instance(macros, instances, left);
            let right_size = size_of_instance(macros, instances, right);
            &&& positions.len() == instances.len()
            &&& template_of(macros, instances, left as usize) is Ok
            &&& stands_inside(positions[left], left_size, config.world)
            &&& left != right ==> stand_apart(positions[left], left_size, positions[right], right_size)
        }),
{
    let order = seed_order(nets, instances);
    let keys = seed_keys(nets, instances);
    let _ = stable_order_exists(keys);
    stable_order_distinct(keys, order);
    seeding_keeps_apart(macros, instances, config, order, instances.len());
    distinct_covers(order, left as usize);
    distinct_covers(order, right as usize);
    let (shelf, positions) = seeded(macros, instances, config, order, instances.len())->Ok_0;
    let k = choose|k: int| 0 <= k < order.len() && order[k] == left as usize;
    let j = choose|j: int| 0 <= j < order.len() && order[j] == right as usize;
    assert(seed_holds(macros, instances, config.world, order, instances.len(), positions, shelf, k));
    assert(order[j] as int == right);
}

} // verus!

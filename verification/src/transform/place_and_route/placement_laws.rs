//! What holds of lengths and worlds of placements.

use super::placement_error::PlacementErrorView;
use super::placement_ir::{
    instantiated, pin_named, shift_fits, shifted, shifted_blocks, shifted_blocks_all, MacroInstance, MacroRotation,
    MacroTemplate, PhysicalNet, PinRef,
};
use super::placement_problem::{
    coordinate, extremes_bound, highest, lowest, net_length, net_pins, pin_place, pin_places, template_of,
    wire_length,
};
use super::placement_world::{composed, stamped};
use crate::world::block::Block;
use crate::world::grid::Placed;
use crate::world::position::{distance, in_bounds, DimSize, Position};
use vstd::prelude::*;

verus! {

// ---------------------------------------------------------------------------
// Half perimeters
// ---------------------------------------------------------------------------
proof fn places_of_pins(macros: Seq<MacroTemplate>, instances: Seq<MacroInstance>, pins: Seq<PinRef>, count: nat)
    requires
        count <= pins.len(),
    ensures
        pin_places(macros, instances, pins, count) is Ok <==> forall|i: int|
            0 <= i < count ==> (#[trigger] pin_place(macros, instances, pins[i])) is Ok,
        pin_places(macros, instances, pins, count) matches Ok(places) ==> places.len() == count && forall|i: int|
            0 <= i < count ==> #[trigger] places[i] == pin_place(macros, instances, pins[i])->Ok_0,
    decreases count,
{
    if count > 0 {
        places_of_pins(macros, instances, pins, (count - 1) as nat);
        if pin_places(macros, instances, pins, count) is Ok {
            assert forall|i: int| 0 <= i < count implies (#[trigger] pin_place(macros, instances, pins[i])) is Ok by {
                assert(i < count - 1 || i == count - 1);
            }
        } else if pin_places(macros, instances, pins, (count - 1) as nat) is Ok {
            assert(pin_place(macros, instances, pins[count - 1]) is Err);
        }
    }
}

proof fn extremes_reached(cells: Seq<Position>, axis: int)
    requires
        cells.len() > 0,
    ensures
        exists|i: int| 0 <= i < cells.len() && coordinate(#[trigger] cells[i], axis) == highest(cells, axis),
        exists|i: int| 0 <= i < cells.len() && coordinate(#[trigger] cells[i], axis) == lowest(cells, axis),
    decreases cells.len(),
{
    let rest = cells.drop_last();
    let last = cells.len() - 1;
    if rest.len() > 0 {
        extremes_reached(rest, axis);
        let high = choose|i: int| 0 <= i < rest.len() && coordinate(#[trigger] rest[i], axis) == highest(rest, axis);
        let low = choose|i: int| 0 <= i < rest.len() && coordinate(#[trigger] rest[i], axis) == lowest(rest, axis);
        assert(cells[high] == rest[high]);
        assert(cells[low] == rest[low]);
    }
    assert(cells[last] == cells.last());
    if rest.len() == 0 {
        assert(highest(rest, axis) == 0);
        assert(lowest(rest, axis) == usize::MAX);
        assert(coordinate(cells[last], axis) == highest(cells, axis));
        assert(coordinate(cells[last], axis) == lowest(cells, axis));
    }
}

proof fn extremes_within(left: Seq<Position>, right: Seq<Position>, axis: int)
    requires
        left.len() > 0,
        forall|i: int| 0 <= i < left.len() ==> right.contains(#[trigger] left[i]),
    ensures
        highest(left, axis) <= highest(right, axis),
        lowest(left, axis) >= lowest(right, axis),
{
    extremes_reached(left, axis);
    let high = choose|i: int| 0 <= i < left.len() && coordinate(#[trigger] left[i], axis) == highest(left, axis);
    let low = choose|i: int| 0 <= i < left.len() && coordinate(#[trigger] left[i], axis) == lowest(left, axis);
    assert(right.contains(left[high]));
    assert(right.contains(left[low]));
    let above = choose|j: int| 0 <= j < right.len() && right[j] == left[high];
    let below = choose|j: int| 0 <= j < right.len() && right[j] == left[low];
    extremes_bound(right, axis, above);
    extremes_bound(right, axis, below);
}

/// Whether two references are to one pin.
pub open spec fn same_pin(left: PinRef, right: PinRef) -> bool {
    left.instance == right.instance && left.pin@ == right.pin@
}

/// Whether every pin of a net is one of another.
pub open spec fn pins_among(left: PhysicalNet, right: PhysicalNet) -> bool {
    forall|i: int| 0 <= i < net_pins(left).len() ==> has_pin(right, #[trigger] net_pins(left)[i])
}

/// Whether a pin is one of a net.
pub open spec fn has_pin(net: PhysicalNet, pin: PinRef) -> bool {
    exists|j: int| 0 <= j < net_pins(net).len() && same_pin(pin, #[trigger] net_pins(net)[j])
}

proof fn places_among(
    macros: Seq<MacroTemplate>,
    instances: Seq<MacroInstance>,
    left: PhysicalNet,
    right: PhysicalNet,
)
    requires
        pins_among(left, right),
        net_length(macros, instances, right) is Ok,
    ensures
        net_length(macros, instances, left) is Ok,
        forall|axis: int| #[trigger]
            highest(pin_places(macros, instances, net_pins(left), net_pins(left).len())->Ok_0, axis) <= highest(
                pin_places(macros, instances, net_pins(right), net_pins(right).len())->Ok_0,
                axis,
            ),
        forall|axis: int| #[trigger]
            lowest(pin_places(macros, instances, net_pins(left), net_pins(left).len())->Ok_0, axis) >= lowest(
                pin_places(macros, instances, net_pins(right), net_pins(right).len())->Ok_0,
                axis,
            ),
{
    let (pins, others) = (net_pins(left), net_pins(right));
    places_of_pins(macros, instances, pins, pins.len());
    places_of_pins(macros, instances, others, others.len());
    assert forall|i: int| 0 <= i < pins.len() implies (#[trigger] pin_place(macros, instances, pins[i])) is Ok by {
        assert(has_pin(right, pins[i]));
        let j = choose|j: int| 0 <= j < others.len() && same_pin(pins[i], #[trigger] others[j]);
        assert(pin_place(macros, instances, others[j]) is Ok);
    }
    let places = pin_places(macros, instances, pins, pins.len())->Ok_0;
    let cells = pin_places(macros, instances, others, others.len())->Ok_0;
    assert forall|i: int| 0 <= i < places.len() implies cells.contains(#[trigger] places[i]) by {
        assert(has_pin(right, pins[i]));
        let j = choose|j: int| 0 <= j < others.len() && same_pin(pins[i], #[trigger] others[j]);
        assert(cells[j] == places[i]);
    }
    assert forall|axis: int| #[trigger] highest(places, axis) <= highest(cells, axis) by {
        extremes_within(places, cells, axis);
    }
    assert forall|axis: int| #[trigger] lowest(places, axis) >= lowest(cells, axis) by {
        extremes_within(places, cells, axis);
    }
}

/// The length of a net depends on which pins it has, not on their order or on which
/// of them drives it.
pub proof fn half_perimeter_ignores_order(
    macros: Seq<MacroTemplate>,
    instances: Seq<MacroInstance>,
    left: PhysicalNet,
    right: PhysicalNet,
)
    requires
        pins_among(left, right),
        pins_among(right, left),
    ensures
        net_length(macros, instances, left) is Ok <==> net_length(macros, instances, right) is Ok,
        net_length(macros, instances, left) is Ok ==> net_length(macros, instances, left) == net_length(
            macros,
            instances,
            right,
        ),
{
    if net_length(macros, instances, right) is Ok {
        places_among(macros, instances, left, right);
    }
    if net_length(macros, instances, left) is Ok {
        places_among(macros, instances, right, left);
        let places = pin_places(macros, instances, net_pins(left), net_pins(left).len())->Ok_0;
        let cells = pin_places(macros, instances, net_pins(right), net_pins(right).len())->Ok_0;
        assert forall|axis: int| 0 <= axis < 3 implies #[trigger] highest(places, axis) == highest(cells, axis)
            && lowest(places, axis) == lowest(cells, axis) by {
            assert(lowest(places, axis) >= lowest(cells, axis));
            assert(highest(cells, axis) <= highest(places, axis));
            assert(lowest(cells, axis) >= lowest(places, axis));
        }
        assert(highest(places, 0) == highest(cells, 0));
        assert(highest(places, 1) == highest(cells, 1));
        assert(highest(places, 2) == highest(cells, 2));
    }
}

/// A net has a length where all its pins are found, and only there.
pub proof fn half_perimeter_needs_all_pins(macros: Seq<MacroTemplate>, instances: Seq<MacroInstance>, net: PhysicalNet)
    ensures
        net_length(macros, instances, net) is Ok <==> forall|i: int|
            0 <= i < net_pins(net).len() ==> (#[trigger] pin_place(macros, instances, net_pins(net)[i])) is Ok,
{
    places_of_pins(macros, instances, net_pins(net), net_pins(net).len());
}

/// A net with one sink is as long as its two pins are apart.
pub proof fn half_perimeter_of_two_pins(macros: Seq<MacroTemplate>, instances: Seq<MacroInstance>, net: PhysicalNet)
    requires
        net.sinks@.len() == 1,
        pin_place(macros, instances, net.source) is Ok,
        pin_place(macros, instances, net.sinks@[0]) is Ok,
    ensures
        net_length(macros, instances, net) == Ok::<int, PlacementErrorView>(
            distance(
                pin_place(macros, instances, net.source)->Ok_0,
                pin_place(macros, instances, net.sinks@[0])->Ok_0,
            ) as int,
        ),
{
    let pins = net_pins(net);
    assert(pins.len() == 2 && pins[0] == net.source && pins[1] == net.sinks@[0]);
    places_of_pins(macros, instances, pins, 2);
    let places = pin_places(macros, instances, pins, 2)->Ok_0;
    assert forall|axis: int| 0 <= axis < 3 implies #[trigger] highest(places, axis) - lowest(places, axis) == (
    if coordinate(places[0], axis) < coordinate(places[1], axis) {
        coordinate(places[1], axis) - coordinate(places[0], axis)
    } else {
        coordinate(places[0], axis) - coordinate(places[1], axis)
    }) by {
        extremes_reached(places, axis);
        extremes_bound(places, axis, 0);
        extremes_bound(places, axis, 1);
    }
    assert(highest(places, 0) - lowest(places, 0) >= 0);
    assert(highest(places, 1) - lowest(places, 1) >= 0);
    assert(highest(places, 2) - lowest(places, 2) >= 0);
}

/// Instances that are all moved by the same distance.
pub open spec fn moved_by(instances: Seq<MacroInstance>, step: Position) -> Seq<MacroInstance> {
    instances.map_values(
        |instance: MacroInstance| MacroInstance { position: shifted(instance.position, step), ..instance },
    )
}

/// Whether a net is in range before and after its instances are moved.
pub open spec fn move_fits(
    macros: Seq<MacroTemplate>,
    instances: Seq<MacroInstance>,
    net: PhysicalNet,
    step: Position,
) -> bool {
    forall|i: int|
        0 <= i < net_pins(net).len() ==> pin_move_fits(macros, instances, #[trigger] net_pins(net)[i], step)
}

/// Whether a pin is in range before and after its instance is moved.
pub open spec fn pin_move_fits(
    macros: Seq<MacroTemplate>,
    instances: Seq<MacroInstance>,
    pin: PinRef,
    step: Position,
) -> bool {
    template_of(macros, instances, pin.instance) matches Ok(template) ==> {
        let origin = instances[pin.instance as int].position;
        pin_named(template, pin.pin@) matches Some(own) ==> {
            &&& shift_fits(origin, own.position)
            &&& shift_fits(shifted(origin, own.position), step)
        }
    }
}

proof fn extremes_move(cells: Seq<Position>, moved: Seq<Position>, step: Position, axis: int)
    requires
        0 <= axis < 3,
        cells.len() > 0,
        cells.len() == moved.len(),
        forall|i: int|
            0 <= i < cells.len() ==> shift_fits(#[trigger] cells[i], step) && moved[i] == shifted(cells[i], step),
    ensures
        highest(moved, axis) == highest(cells, axis) + coordinate(step, axis),
        lowest(moved, axis) == lowest(cells, axis) + coordinate(step, axis),
{
    extremes_reached(cells, axis);
    extremes_reached(moved, axis);
    let high = choose|i: int| 0 <= i < cells.len() && coordinate(#[trigger] cells[i], axis) == highest(cells, axis);
    let low = choose|i: int| 0 <= i < cells.len() && coordinate(#[trigger] cells[i], axis) == lowest(cells, axis);
    let top = choose|i: int| 0 <= i < moved.len() && coordinate(#[trigger] moved[i], axis) == highest(moved, axis);
    let bottom = choose|i: int| 0 <= i < moved.len() && coordinate(#[trigger] moved[i], axis) == lowest(moved, axis);
    extremes_bound(moved, axis, high);
    extremes_bound(moved, axis, low);
    extremes_bound(cells, axis, top);
    extremes_bound(cells, axis, bottom);
    assert(shift_fits(cells[high], step) && shift_fits(cells[low], step));
    assert(shift_fits(cells[top], step) && shift_fits(cells[bottom], step));
}

/// Moving all instances by the same distance leaves the length of a net as it is.
pub proof fn half_perimeter_ignores_moves(
    macros: Seq<MacroTemplate>,
    instances: Seq<MacroInstance>,
    net: PhysicalNet,
    step: Position,
)
    requires
        move_fits(macros, instances, net, step),
    ensures
        net_length(macros, moved_by(instances, step), net) is Ok <==> net_length(macros, instances, net) is Ok,
        net_length(macros, instances, net) is Ok ==> net_length(macros, moved_by(instances, step), net) == net_length(
            macros,
            instances,
            net,
        ),
{
    let pins = net_pins(net);
    let moved = moved_by(instances, step);
    places_of_pins(macros, instances, pins, pins.len());
    places_of_pins(macros, moved, pins, pins.len());
    assert forall|i: int| 0 <= i < pins.len() implies match #[trigger] pin_place(macros, instances, pins[i]) {
        Ok(place) => shift_fits(place, step) && pin_place(macros, moved, pins[i]) == Ok::<Position, PlacementErrorView>(
            shifted(place, step),
        ),
        Err(_) => pin_place(macros, moved, pins[i]) is Err,
    } by {
        assert(pin_move_fits(macros, instances, pins[i], step));
        assert(template_of(macros, moved, pins[i].instance) == template_of(macros, instances, pins[i].instance));
    }
    if net_length(macros, instances, net) is Ok {
        let cells = pin_places(macros, instances, pins, pins.len())->Ok_0;
        assert forall|i: int| 0 <= i < pins.len() implies (#[trigger] pin_place(macros, moved, pins[i])) is Ok by {
            assert(pin_place(macros, instances, pins[i]) is Ok);
        }
        let places = pin_places(macros, moved, pins, pins.len())->Ok_0;
        assert forall|i: int| 0 <= i < cells.len() implies shift_fits(#[trigger] cells[i], step) && places[i] == shifted(
            cells[i],
            step,
        ) by {
            assert(cells[i] == pin_place(macros, instances, pins[i])->Ok_0);
            assert(places[i] == pin_place(macros, moved, pins[i])->Ok_0);
            assert(pin_place(macros, instances, pins[i]) is Ok);
        }
        extremes_move(cells, places, step, 0);
        extremes_move(cells, places, step, 1);
        extremes_move(cells, places, step, 2);
    } else if net_length(macros, moved, net) is Ok {
        assert forall|i: int| 0 <= i < pins.len() implies (#[trigger] pin_place(macros, instances, pins[i])) is Ok by {
            assert(pin_place(macros, moved, pins[i]) is Ok);
        }
    }
}

// ---------------------------------------------------------------------------
// Wire lengths
// ---------------------------------------------------------------------------
proof fn wire_length_of_prefix(
    macros: Seq<MacroTemplate>,
    instances: Seq<MacroInstance>,
    left: Seq<PhysicalNet>,
    right: Seq<PhysicalNet>,
    count: nat,
)
    requires
        count <= left.len(),
        count <= right.len(),
        forall|i: int| 0 <= i < count ==> left[i] == right[i],
    ensures
        wire_length(macros, instances, left, count) == wire_length(macros, instances, right, count),
    decreases count,
{
    if count > 0 {
        wire_length_of_prefix(macros, instances, left, right, (count - 1) as nat);
    }
}

/// No nets have no length, and one more net adds its own.
pub proof fn wire_length_adds_up(
    macros: Seq<MacroTemplate>,
    instances: Seq<MacroInstance>,
    nets: Seq<PhysicalNet>,
    net: PhysicalNet,
)
    ensures
        wire_length(macros, instances, Seq::empty(), 0) == Ok::<int, PlacementErrorView>(0),
        wire_length(macros, instances, nets.push(net), nets.len() + 1) == (match (
            wire_length(macros, instances, nets, nets.len()),
            net_length(macros, instances, net),
        ) {
            (Ok(total), Ok(length)) => Ok(total + length),
            (Err(error), _) => Err(error),
            (_, Err(error)) => Err(error),
        }),
{
    wire_length_of_prefix(macros, instances, nets, nets.push(net), nets.len());
}

proof fn wire_length_without(
    macros: Seq<MacroTemplate>,
    instances: Seq<MacroInstance>,
    nets: Seq<PhysicalNet>,
    index: int,
)
    requires
        0 <= index < nets.len(),
    ensures
        wire_length(macros, instances, nets, nets.len()) is Ok <==> wire_length(
            macros,
            instances,
            nets.remove(index),
            (nets.len() - 1) as nat,
        ) is Ok && net_length(macros, instances, nets[index]) is Ok,
        wire_length(macros, instances, nets, nets.len()) is Ok ==> wire_length(macros, instances, nets, nets.len())->Ok_0
            == wire_length(macros, instances, nets.remove(index), (nets.len() - 1) as nat)->Ok_0 + net_length(
            macros,
            instances,
            nets[index],
        )->Ok_0,
    decreases nets.len(),
{
    let shorter = nets.drop_last();
    let less = (nets.len() - 1) as nat;
    wire_length_of_prefix(macros, instances, nets, shorter, less);
    if index == nets.len() - 1 {
        assert(nets.remove(index) =~= shorter);
    } else {
        wire_length_without(macros, instances, shorter, index);
        let rest = nets.remove(index);
        assert(rest.drop_last() =~= shorter.remove(index));
        wire_length_of_prefix(macros, instances, rest, shorter.remove(index), (less - 1) as nat);
        assert(rest[less - 1] == nets[less as int]);
    }
}

/// The length of nets does not depend on their order.
pub proof fn wire_length_ignores_order(
    macros: Seq<MacroTemplate>,
    instances: Seq<MacroInstance>,
    left: Seq<PhysicalNet>,
    right: Seq<PhysicalNet>,
)
    requires
        left.to_multiset() == right.to_multiset(),
    ensures
        wire_length(macros, instances, left, left.len()) is Ok <==> wire_length(
            macros,
            instances,
            right,
            right.len(),
        ) is Ok,
        wire_length(macros, instances, left, left.len()) is Ok ==> wire_length(macros, instances, left, left.len())
            == wire_length(macros, instances, right, right.len()),
    decreases left.len(),
{
    left.to_multiset_ensures();
    right.to_multiset_ensures();
    assert(left.len() == right.len());
    if left.len() > 0 {
        let last = left.len() - 1;
        let net = left[last];
        assert(left.contains(net));
        assert(right.to_multiset().count(net) > 0);
        assert(right.contains(net));
        let index = choose|j: int| 0 <= j < right.len() && right[j] == net;
        assert(left.remove(last).to_multiset() =~= left.to_multiset().remove(net));
        assert(right.remove(index).to_multiset() =~= right.to_multiset().remove(net));
        wire_length_ignores_order(macros, instances, left.remove(last), right.remove(index));
        wire_length_without(macros, instances, left, last);
        wire_length_without(macros, instances, right, index);
    }
}

// ---------------------------------------------------------------------------
// Worlds
// ---------------------------------------------------------------------------
/// The blocks of an instance where it stands, or why it has none.
pub open spec fn standing(
    macros: Seq<MacroTemplate>,
    instances: Seq<MacroInstance>,
    index: int,
) -> Result<Seq<Placed>, PlacementErrorView> {
    match template_of(macros, instances, instances[index].id) {
        Err(error) => Err(error),
        Ok(template) => instantiated(template, instances[index].position, instances[index].rotation),
    }
}

/// Whether a block takes a cell.
pub open spec fn takes(placed: Placed, cell: Position) -> bool {
    placed.0 == cell && !(placed.1.kind is Air)
}

/// Whether the first `count` instances have macros, stand unrotated, and have all
/// blocks in range.
pub open spec fn all_stand(macros: Seq<MacroTemplate>, instances: Seq<MacroInstance>, count: nat) -> bool {
    forall|i: int| 0 <= i < count ==> (#[trigger] standing(macros, instances, i)) is Ok
}

/// Whether all blocks of the first `count` instances are inside a world.
pub open spec fn all_in_bounds(
    macros: Seq<MacroTemplate>,
    instances: Seq<MacroInstance>,
    size: DimSize,
    count: nat,
) -> bool {
    forall|i: int, k: int|
        0 <= i < count && 0 <= k < standing(macros, instances, i)->Ok_0.len() ==> in_bounds(
            size,
            (#[trigger] standing(macros, instances, i)->Ok_0[k]).0,
        )
}

/// Whether no block of the first `count` instances stands in a cell that an earlier
/// block takes.
pub open spec fn none_shared(macros: Seq<MacroTemplate>, instances: Seq<MacroInstance>, count: nat) -> bool {
    forall|i: int, k: int, j: int, l: int|
        {
            &&& 0 <= j < count
            &&& 0 <= l < standing(macros, instances, j)->Ok_0.len()
            &&& 0 <= i < j || i == j && k < l
            &&& 0 <= k < standing(macros, instances, i)->Ok_0.len()
        } ==> !takes(
            #[trigger] standing(macros, instances, i)->Ok_0[k],
            (#[trigger] standing(macros, instances, j)->Ok_0[l]).0,
        )
}

/// Whether a block is one of the first `count` instances.
pub open spec fn stands_at(
    macros: Seq<MacroTemplate>,
    instances: Seq<MacroInstance>,
    count: nat,
    cell: Position,
    block: Block,
) -> bool {
    exists|i: int, k: int|
        {
            &&& 0 <= i < count
            &&& 0 <= k < standing(macros, instances, i)->Ok_0.len()
            &&& #[trigger] standing(macros, instances, i)->Ok_0[k] == (cell, block)
        }
}

/// Whether cells are those that the first `count` instances take.
pub open spec fn is_union(
    macros: Seq<MacroTemplate>,
    instances: Seq<MacroInstance>,
    count: nat,
    cells: Map<Position, Block>,
) -> bool {
    forall|cell: Position, block: Block|
        (#[trigger] stands_at(macros, instances, count, cell, block) && !(block.kind is Air)) <==> (
        #[trigger] cells.contains_key(cell) && cells[cell] == block)
}

spec fn stamps_fit(cells: Map<Position, Block>, size: DimSize, blocks: Seq<Placed>, count: nat) -> bool {
    &&& forall|l: int|
        0 <= l < count ==> in_bounds(size, (#[trigger] blocks[l]).0) && !cells.contains_key(blocks[l].0)
    &&& forall|k: int, l: int| 0 <= k < l < count ==> !takes(#[trigger] blocks[k], (#[trigger] blocks[l]).0)
}

proof fn stamping_is_exact(
    cells: Map<Position, Block>,
    size: DimSize,
    instance: usize,
    blocks: Seq<Placed>,
    count: nat,
)
    requires
        count <= blocks.len(),
    ensures
        stamped(cells, size, instance, blocks, count) is Ok <==> stamps_fit(cells, size, blocks, count),
        stamped(cells, size, instance, blocks, count) matches Ok(after) ==> forall|cell: Position| #[trigger]
            after.contains_key(cell) <==> cells.contains_key(cell) || exists|k: int|
                0 <= k < count && takes(#[trigger] blocks[k], cell),
        stamped(cells, size, instance, blocks, count) matches Ok(after) ==> forall|k: int|
            0 <= k < count && !((#[trigger] blocks[k]).1.kind is Air) ==> after[blocks[k].0] == blocks[k].1,
        stamped(cells, size, instance, blocks, count) matches Ok(after) ==> forall|cell: Position| #[trigger]
            cells.contains_key(cell) ==> after[cell] == cells[cell],
    decreases count,
{
    if count > 0 {
        let less = (count - 1) as nat;
        stamping_is_exact(cells, size, instance, blocks, less);
        let last = blocks[count - 1];
        if let Ok(before) = stamped(cells, size, instance, blocks, less) {
            if let Ok(after) = stamped(cells, size, instance, blocks, count) {
                assert(!before.contains_key(last.0));
                assert forall|k: int, l: int| 0 <= k < l < count implies !takes(
                    #[trigger] blocks[k],
                    (#[trigger] blocks[l]).0,
                ) by {
                    if l == less && takes(blocks[k], last.0) {
                        assert(before.contains_key(last.0));
                    }
                }
                assert forall|cell: Position| #[trigger] after.contains_key(cell) <==> cells.contains_key(cell)
                    || exists|k: int| 0 <= k < count && takes(#[trigger] blocks[k], cell) by {
                    if after.contains_key(cell) && !before.contains_key(cell) {
                        assert(takes(blocks[count - 1], cell));
                    }
                    if exists|k: int| 0 <= k < count && takes(#[trigger] blocks[k], cell) {
                        let k = choose|k: int| 0 <= k < count && takes(#[trigger] blocks[k], cell);
                        if k < less {
                            assert(before.contains_key(cell));
                        }
                    }
                }
                assert forall|k: int| 0 <= k < count && !((#[trigger] blocks[k]).1.kind is Air) implies after[blocks[k].0]
                    == blocks[k].1 by {
                    if k < less {
                        assert(takes(blocks[k], blocks[k].0));
                        assert(before.contains_key(blocks[k].0));
                    }
                }
                assert forall|cell: Position| #[trigger] cells.contains_key(cell) implies after[cell] == cells[cell] by {
                    assert(before.contains_key(cell));
                }
            } else if stamps_fit(cells, size, blocks, count) {
                assert(in_bounds(size, blocks[count - 1].0));
                if before.contains_key(last.0) {
                    let k = choose|k: int| 0 <= k < less && takes(#[trigger] blocks[k], last.0);
                    assert(!takes(blocks[k], blocks[count - 1].0));
                }
            }
        }
    }
}

proof fn composing_is_exact(macros: Seq<MacroTemplate>, instances: Seq<MacroInstance>, size: DimSize, count: nat)
    requires
        count <= instances.len(),
    ensures
        composed(macros, instances, size, count) is Ok <==> all_stand(macros, instances, count) && all_in_bounds(
            macros,
            instances,
            size,
            count,
        ) && none_shared(macros, instances, count),
        composed(macros, instances, size, count) matches Ok(cells) ==> is_union(macros, instances, count, cells),
    decreases count,
{
    if count == 0 {
        assert(is_union(macros, instances, 0, Map::empty()));
    } else {
        let less = (count - 1) as nat;
        let last = count - 1;
        composing_is_exact(macros, instances, size, less);
        if let Ok(cells) = composed(macros, instances, size, less) {
            if let Ok(blocks) = standing(macros, instances, last) {
                stamping_is_exact(cells, size, instances[last].id, blocks, blocks.len());
                if let Ok(after) = composed(macros, instances, size, count) {
                    assert forall|i: int, k: int, j: int, l: int|
                        {
                            &&& 0 <= j < count
                            &&& 0 <= l < standing(macros, instances, j)->Ok_0.len()
                            &&& 0 <= i < j || i == j && k < l
                            &&& 0 <= k < standing(macros, instances, i)->Ok_0.len()
                        } implies !takes(
                        #[trigger] standing(macros, instances, i)->Ok_0[k],
                        (#[trigger] standing(macros, instances, j)->Ok_0[l]).0,
                    ) by {
                        if j == last && i < j {
                            let own = standing(macros, instances, i)->Ok_0[k];
                            if takes(own, blocks[l].0) {
                                assert(stands_at(macros, instances, less, own.0, own.1));
                                assert(cells.contains_key(blocks[l].0));
                            }
                        }
                    }
                    assert forall|cell: Position, block: Block|
                        (#[trigger] stands_at(macros, instances, count, cell, block) && !(block.kind is Air)) <==> (
                        #[trigger] after.contains_key(cell) && after[cell] == block) by {
                        if stands_at(macros, instances, count, cell, block) && !(block.kind is Air) {
                            let (i, k) = choose|i: int, k: int|
                                {
                                    &&& 0 <= i < count
                                    &&& 0 <= k < standing(macros, instances, i)->Ok_0.len()
                                    &&& #[trigger] standing(macros, instances, i)->Ok_0[k] == (cell, block)
                                };
                            if i < less {
                                assert(stands_at(macros, instances, less, cell, block));
                                assert(cells.contains_key(cell));
                            } else {
                                assert(takes(blocks[k], cell));
                            }
                        }
                        if after.contains_key(cell) && after[cell] == block {
                            if cells.contains_key(cell) {
                                assert(stands_at(macros, instances, less, cell, cells[cell]));
                                let (i, k) = choose|i: int, k: int|
                                    {
                                        &&& 0 <= i < less
                                        &&& 0 <= k < standing(macros, instances, i)->Ok_0.len()
                                        &&& #[trigger] standing(macros, instances, i)->Ok_0[k] == (cell, block)
                                    };
                                assert(standing(macros, instances, i)->Ok_0[k] == (cell, block));
                            } else {
                                let k = choose|k: int| 0 <= k < blocks.len() && takes(#[trigger] blocks[k], cell);
                                assert(standing(macros, instances, last)->Ok_0[k] == (cell, block));
                            }
                        }
                    }
                } else if all_in_bounds(macros, instances, size, count) && none_shared(macros, instances, count) {
                    assert forall|l: int| 0 <= l < blocks.len() implies in_bounds(size, (#[trigger] blocks[l]).0)
                        && !cells.contains_key(blocks[l].0) by {
                        assert(standing(macros, instances, last)->Ok_0[l] == blocks[l]);
                        if cells.contains_key(blocks[l].0) {
                            let block = cells[blocks[l].0];
                            assert(stands_at(macros, instances, less, blocks[l].0, block));
                            let (i, k) = choose|i: int, k: int|
                                {
                                    &&& 0 <= i < less
                                    &&& 0 <= k < standing(macros, instances, i)->Ok_0.len()
                                    &&& #[trigger] standing(macros, instances, i)->Ok_0[k] == (blocks[l].0, block)
                                };
                            assert(takes(standing(macros, instances, i)->Ok_0[k], standing(macros, instances, last)->Ok_0[l].0));
                        }
                    }
                    assert forall|k: int, l: int| 0 <= k < l < blocks.len() implies !takes(
                        #[trigger] blocks[k],
                        (#[trigger] blocks[l]).0,
                    ) by {
                        assert(!takes(
                            standing(macros, instances, last)->Ok_0[k],
                            standing(macros, instances, last)->Ok_0[l].0,
                        ));
                    }
                }
            } else {
                assert(!all_stand(macros, instances, count));
            }
        } else {
            if all_stand(macros, instances, count) {
                assert(all_stand(macros, instances, less));
            }
            if all_in_bounds(macros, instances, size, count) {
                assert(all_in_bounds(macros, instances, size, less));
            }
            if none_shared(macros, instances, count) {
                assert(none_shared(macros, instances, less));
            }
        }
    }
}

/// A placement has a world where every instance stands unrotated with its blocks in
/// range, inside the world, and in no cell that an earlier block takes; and only
/// there. The world then holds the blocks of all instances and nothing else.
pub proof fn world_is_union_of_blocks(macros: Seq<MacroTemplate>, instances: Seq<MacroInstance>, size: DimSize)
    ensures
        composed(macros, instances, size, instances.len()) is Ok <==> all_stand(macros, instances, instances.len())
            && all_in_bounds(macros, instances, size, instances.len()) && none_shared(
            macros,
            instances,
            instances.len(),
        ),
        composed(macros, instances, size, instances.len()) matches Ok(cells) ==> is_union(
            macros,
            instances,
            instances.len(),
            cells,
        ),
{
    composing_is_exact(macros, instances, size, instances.len());
}

/// An instance stands where it has a macro, is not rotated, and no block leaves the
/// range of coordinates; and only there. Its blocks are those of the macro, moved.
pub proof fn standing_is_exact(macros: Seq<MacroTemplate>, instances: Seq<MacroInstance>, index: int)
    requires
        0 <= index < instances.len(),
    ensures
        standing(macros, instances, index) is Ok <==> {
            &&& template_of(macros, instances, instances[index].id) is Ok
            &&& instances[index].rotation == MacroRotation::Unrotated
            &&& forall|k: int|
                0 <= k < template_of(macros, instances, instances[index].id)->Ok_0.blocks@.len() ==> shift_fits(
                    instances[index].position,
                    (#[trigger] template_of(macros, instances, instances[index].id)->Ok_0.blocks@[k]).0,
                )
        },
        standing(macros, instances, index) matches Ok(blocks) ==> {
            let template = template_of(macros, instances, instances[index].id)->Ok_0;
            &&& blocks.len() == template.blocks@.len()
            &&& forall|k: int|
                0 <= k < blocks.len() ==> #[trigger] blocks[k] == (
                    shifted(instances[index].position, template.blocks@[k].0),
                    template.blocks@[k].1,
                )
        },
{
    if let Ok(template) = template_of(macros, instances, instances[index].id) {
        shifted_blocks_need_room(instances[index].position, template.blocks@, template.blocks@.len());
        if shifted_blocks(instances[index].position, template.blocks@, template.blocks@.len()) is Ok {
            shifted_blocks_all(instances[index].position, template.blocks@, template.blocks@.len());
        }
    }
}

proof fn shifted_blocks_need_room(origin: Position, blocks: Seq<Placed>, count: nat)
    requires
        count <= blocks.len(),
    ensures
        shifted_blocks(origin, blocks, count) is Ok <==> forall|k: int|
            0 <= k < count ==> shift_fits(origin, (#[trigger] blocks[k]).0),
    decreases count,
{
    if count > 0 {
        shifted_blocks_need_room(origin, blocks, (count - 1) as nat);
        if shifted_blocks(origin, blocks, count) is Ok {
            assert forall|k: int| 0 <= k < count implies shift_fits(origin, (#[trigger] blocks[k]).0) by {
                assert(k < count - 1 || k == count - 1);
            }
        } else if shifted_blocks(origin, blocks, (count - 1) as nat) is Ok {
            assert(!shift_fits(origin, blocks[count - 1].0));
        }
    }
}

} // verus!

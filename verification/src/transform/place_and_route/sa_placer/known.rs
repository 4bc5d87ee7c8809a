//! What a placement is made of is known or not wherever its instances stand:
//! errors do not depend on places.

use super::initial::{has_template, moved_to, sizes_are_sizes, sizes_of};
use super::measure::{aabb, aabbs, blocked_pins, measured};
use super::moves::{crowd_around, draw, other_index, proposal};
use super::seed::{is_numbered, InitialPlacementConfig};
use crate::transform::place_and_route::placement_ir::{MacroInstance, MacroTemplate, PhysicalNet, PinRef};
use crate::transform::place_and_route::placement_problem::{
    net_length, net_pins, pin_place, pin_places, template_of, wire_length,
};
use crate::world::position::{DimSize, Position};
use vstd::prelude::*;

verus! {

proof fn pins_fail_alike(
    macros: Seq<MacroTemplate>,
    library: Seq<MacroInstance>,
    left: Seq<Position>,
    right: Seq<Position>,
    pins: Seq<PinRef>,
    count: nat,
)
    ensures
        pin_places(macros, moved_to(library, left), pins, count) is Err ==> pin_places(
            macros,
            moved_to(library, right),
            pins,
            count,
        ) is Err && pin_places(macros, moved_to(library, left), pins, count)->Err_0 == pin_places(
            macros,
            moved_to(library, right),
            pins,
            count,
        )->Err_0,
        pin_places(macros, moved_to(library, left), pins, count) is Ok ==> pin_places(
            macros,
            moved_to(library, right),
            pins,
            count,
        ) is Ok,
    decreases count,
{
    if count > 0 {
        pins_fail_alike(macros, library, left, right, pins, (count - 1) as nat);
        let pin = pins[count - 1];
        assert(template_of(macros, moved_to(library, left), pin.instance) == template_of(
            macros,
            moved_to(library, right),
            pin.instance,
        ));
        assert(pin_place(macros, moved_to(library, left), pin) is Err == pin_place(
            macros,
            moved_to(library, right),
            pin,
        ) is Err);
    }
}

/// The wires of a placement have the same error wherever its instances stand, or
/// none.
pub proof fn wires_fail_alike(
    macros: Seq<MacroTemplate>,
    library: Seq<MacroInstance>,
    left: Seq<Position>,
    right: Seq<Position>,
    nets: Seq<PhysicalNet>,
    count: nat,
)
    ensures
        wire_length(macros, moved_to(library, left), nets, count) is Ok ==> wire_length(
            macros,
            moved_to(library, right),
            nets,
            count,
        ) is Ok,
        wire_length(macros, moved_to(library, left), nets, count) is Err ==> wire_length(
            macros,
            moved_to(library, right),
            nets,
            count,
        ) is Err && wire_length(macros, moved_to(library, left), nets, count)->Err_0 == wire_length(
            macros,
            moved_to(library, right),
            nets,
            count,
        )->Err_0,
    decreases count,
{
    if count > 0 {
        wires_fail_alike(macros, library, left, right, nets, (count - 1) as nat);
        let pins = net_pins(nets[count - 1]);
        pins_fail_alike(macros, library, left, right, pins, pins.len());
        assert(net_length(macros, moved_to(library, left), nets[count - 1]) is Err == net_length(
            macros,
            moved_to(library, right),
            nets[count - 1],
        ) is Err);
    }
}

proof fn blocked_is_known(
    macros: Seq<MacroTemplate>,
    library: Seq<MacroInstance>,
    positions: Seq<Position>,
    world: DimSize,
    count: nat,
)
    requires
        is_numbered(library),
        library.len() <= usize::MAX,
        forall|i: int| 0 <= i < library.len() ==> #[trigger] has_template(macros, library, i),
        count <= library.len(),
    ensures
        blocked_pins(macros, library, moved_to(library, positions), world, count) is Ok,
        aabbs(macros, library, moved_to(library, positions), count) is Ok,
    decreases count,
{
    if count > 0 {
        blocked_is_known(macros, library, positions, world, (count - 1) as nat);
        assert(library[count - 1].id == count - 1);
        assert(has_template(macros, library, count - 1));
        assert(aabb(macros, library, moved_to(library, positions)[count - 1]) is Ok);
    }
}

/// A placement of known macros is measured wherever its instances stand, where
/// its wires have no error.
pub proof fn measure_is_known(
    macros: Seq<MacroTemplate>,
    library: Seq<MacroInstance>,
    nets: Seq<PhysicalNet>,
    positions: Seq<Position>,
    spacing: usize,
    world: DimSize,
)
    requires
        is_numbered(library),
        library.len() <= usize::MAX,
        sizes_of(macros, library, library.len()) is Ok,
        wire_length(macros, moved_to(library, positions), nets, nets.len()) is Ok,
    ensures
        measured(macros, library, nets, moved_to(library, positions), spacing, world) is Ok,
{
    sizes_are_sizes(macros, library, library.len());
    blocked_is_known(macros, library, positions, world, library.len());
}

proof fn crowd_is_known(
    macros: Seq<MacroTemplate>,
    library: Seq<MacroInstance>,
    positions: Seq<Position>,
    spacing: usize,
    index: int,
    size: DimSize,
    count: nat,
)
    requires
        library.len() <= usize::MAX,
        forall|i: int| 0 <= i < library.len() ==> #[trigger] has_template(macros, library, i),
        count <= library.len(),
    ensures
        crowd_around(macros, library, positions, spacing, index, size, count) is Ok,
    decreases count,
{
    if count > 0 {
        crowd_is_known(macros, library, positions, spacing, index, size, (count - 1) as nat);
        assert(has_template(macros, library, count - 1));
    }
}

/// A move of known macros can always be proposed.
pub proof fn proposal_is_known(
    macros: Seq<MacroTemplate>,
    library: Seq<MacroInstance>,
    positions: Seq<Position>,
    config: InitialPlacementConfig,
    max_step: usize,
    state: u64,
)
    requires
        library.len() <= usize::MAX,
        positions.len() == library.len(),
        sizes_of(macros, library, library.len()) is Ok,
    ensures
        proposal(macros, library, positions, config, max_step, state) is Ok,
{
    sizes_are_sizes(macros, library, library.len());
    if positions.len() > 0 {
        let index = draw(state, 2, positions.len() as int);
        assert(0 <= index < positions.len());
        assert(has_template(macros, library, index));
        let size = template_of(macros, library, index as usize)->Ok_0.size;
        crowd_is_known(macros, library, positions, config.spacing, index, size, positions.len());
        if positions.len() >= 2 {
            let picked = draw(state, 3, positions.len() - 1);
            assert(0 <= picked < positions.len() - 1);
            let second = other_index(index, picked);
            assert(has_template(macros, library, second));
        }
    }
}

} // verus!

//! Moving macros towards the pins that they are connected to.

use super::repair::{clamp_origin, clamped};
use super::seed::{pin_total, InitialPlacementConfig};
use crate::transform::place_and_route::placement_error::{agrees, PlacementError, PlacementErrorView};
use crate::transform::place_and_route::placement_ir::{
    pin_from, pin_named, placed_pin, placed_pin_fits, MacroInstance, MacroTemplate, PhysicalNet, PinRef,
};
use crate::transform::place_and_route::placement_problem::{
    coordinate, instance_template, macro_from, net_pins, template_of,
};
use crate::world::position::{DimSize, Position};
use vstd::prelude::*;

verus! {

/// Whether one of some pins belongs to an instance.
pub open spec fn touches(pins: Seq<PinRef>, instance: usize) -> bool {
    exists|i: int| 0 <= i < pins.len() && (#[trigger] pins[i]).instance == instance
}

/// The pins of those of the first `count` nets that reach an instance.
pub open spec fn touching_pins(nets: Seq<PhysicalNet>, instance: usize, count: nat) -> Seq<PinRef>
    decreases count,
{
    if count == 0 {
        Seq::empty()
    } else {
        let rest = touching_pins(nets, instance, (count - 1) as nat);
        let pins = net_pins(nets[count - 1]);
        if touches(pins, instance) {
            rest + pins
        } else {
            rest
        }
    }
}

proof fn touching_pins_bound(nets: Seq<PhysicalNet>, instance: usize, count: nat)
    ensures
        touching_pins(nets, instance, count).len() <= pin_total(nets, count),
    decreases count,
{
    if count > 0 {
        touching_pins_bound(nets, instance, (count - 1) as nat);
    }
}

fn copy_pin(pin: &PinRef) -> (copy: PinRef)
    ensures
        copy == *pin,
{
    PinRef { instance: pin.instance, pin: pin.pin.clone() }
}

fn collect_touching(nets: &Vec<PhysicalNet>, instance: usize) -> (pins: Vec<PinRef>)
    ensures
        pins@ == touching_pins(nets@, instance, nets@.len()),
{
    let mut pins: Vec<PinRef> = Vec::new();
    let mut index: usize = 0;
    while index < nets.len()
        invariant
            index <= nets.len(),
            pins@ == touching_pins(nets@, instance, index as nat),
        decreases nets.len() - index,
    {
        let net = &nets[index];
        let ghost own = net_pins(*net);
        let mut found = net.source.instance == instance;
        proof {
            assert(own[0] == net.source);
        }
        let mut sink: usize = 0;
        while sink < net.sinks.len()
            invariant
                sink <= net.sinks.len(),
                own == net_pins(*net),
                found ==> touches(own, instance),
                !found ==> forall|i: int| 0 <= i < sink + 1 ==> (#[trigger] own[i]).instance != instance,
            decreases net.sinks.len() - sink,
        {
            assert(own[sink + 1] == net.sinks@[sink as int]);
            if net.sinks[sink].instance == instance {
                found = true;
            }
            sink += 1;
        }
        if found {
            let ghost before = pins@;
            pins.push(copy_pin(&net.source));
            let mut sink: usize = 0;
            while sink < net.sinks.len()
                invariant
                    sink <= net.sinks.len(),
                    own == net_pins(*net),
                    pins@ == before + own.take(sink + 1),
                decreases net.sinks.len() - sink,
            {
                assert(own[sink + 1] == net.sinks@[sink as int]);
                assert(own.take(sink + 2) =~= own.take(sink + 1).push(own[sink + 1]));
                pins.push(copy_pin(&net.sinks[sink]));
                assert(pins@ =~= before + own.take(sink + 2));
                sink += 1;
            }
            assert(own.take(sink + 1) =~= own);
        }
        index += 1;
    }
    pins
}

/// Where a pin is when instances stand at other places.
pub open spec fn pin_at(
    macros: Seq<MacroTemplate>,
    instances: Seq<MacroInstance>,
    positions: Seq<Position>,
    reference: PinRef,
) -> Result<Position, PlacementErrorView> {
    if reference.instance >= positions.len() {
        Err(PlacementErrorView::UnknownInstance(reference.instance))
    } else {
        match template_of(macros, instances, reference.instance) {
            Err(error) => Err(error),
            Ok(template) => placed_pin(template, positions[reference.instance as int], reference.pin@),
        }
    }
}

/// Where the first `count` pins are, or the first error.
pub open spec fn pins_at(
    macros: Seq<MacroTemplate>,
    instances: Seq<MacroInstance>,
    positions: Seq<Position>,
    pins: Seq<PinRef>,
    count: nat,
) -> Result<Seq<Position>, PlacementErrorView>
    decreases count,
{
    if count == 0 {
        Ok(Seq::empty())
    } else {
        match pins_at(macros, instances, positions, pins, (count - 1) as nat) {
            Err(error) => Err(error),
            Ok(places) => match pin_at(macros, instances, positions, pins[count - 1]) {
                Err(error) => Err(error),
                Ok(place) => Ok(places.push(place)),
            },
        }
    }
}

proof fn pins_at_fails(
    macros: Seq<MacroTemplate>,
    instances: Seq<MacroInstance>,
    positions: Seq<Position>,
    pins: Seq<PinRef>,
    low: nat,
    high: nat,
)
    requires
        low <= high,
        pins_at(macros, instances, positions, pins, low) is Err,
    ensures
        pins_at(macros, instances, positions, pins, high) == pins_at(macros, instances, positions, pins, low),
    decreases high,
{
    if low < high {
        pins_at_fails(macros, instances, positions, pins, low, (high - 1) as nat);
    }
}

/// How many of the first `count` pins belong to an instance, or to others.
pub open spec fn tally(pins: Seq<PinRef>, instance: usize, own: bool, count: nat) -> nat
    decreases count,
{
    if count == 0 {
        0
    } else {
        tally(pins, instance, own, (count - 1) as nat) + if (pins[count - 1].instance == instance) == own {
            1nat
        } else {
            0
        }
    }
}

/// The coordinates, added up, of those of the first `count` pins that belong to
/// an instance, or to others.
pub open spec fn coordinate_sum(
    pins: Seq<PinRef>,
    places: Seq<Position>,
    instance: usize,
    own: bool,
    axis: int,
    count: nat,
) -> nat
    decreases count,
{
    if count == 0 {
        0
    } else {
        coordinate_sum(pins, places, instance, own, axis, (count - 1) as nat) + if (pins[count - 1].instance
            == instance) == own {
            coordinate(places[count - 1], axis) as nat
        } else {
            0
        }
    }
}

/// A distance cut to a limit in both directions.
pub open spec fn cut(delta: int, limit: int) -> int {
    if delta < -limit {
        -limit
    } else if delta > limit {
        limit
    } else {
        delta
    }
}

/// How far, along an axis, the mean of the other pins lies from the mean of the
/// own ones, cut to a limit.
pub open spec fn pull_along(
    pins: Seq<PinRef>,
    places: Seq<Position>,
    instance: usize,
    limit: int,
    axis: int,
) -> int {
    let own = coordinate_sum(pins, places, instance, true, axis, pins.len()) / tally(pins, instance, true, pins.len());
    let other = coordinate_sum(pins, places, instance, false, axis, pins.len()) / tally(
        pins,
        instance,
        false,
        pins.len(),
    );
    cut(other - own, limit)
}

/// The step of an instance towards the pins that it is connected to, if it has
/// any and is not there yet.
pub open spec fn pull(
    macros: Seq<MacroTemplate>,
    instances: Seq<MacroInstance>,
    nets: Seq<PhysicalNet>,
    positions: Seq<Position>,
    index: usize,
    limit: int,
) -> Result<Option<(int, int, int)>, PlacementErrorView> {
    let pins = touching_pins(nets, index, nets.len());
    match pins_at(macros, instances, positions, pins, pins.len()) {
        Err(error) => Err(error),
        Ok(places) => if tally(pins, index, true, pins.len()) == 0 || tally(pins, index, false, pins.len()) == 0 {
            Ok(None)
        } else {
            let step = (
                pull_along(pins, places, index, limit, 0),
                pull_along(pins, places, index, limit, 1),
                pull_along(pins, places, index, limit, 2),
            );
            if step == (0int, 0int, 0int) {
                Ok(None)
            } else {
                Ok(Some(step))
            }
        },
    }
}

// ---------------------------------------------------------------------------
// Ranges
// ---------------------------------------------------------------------------
/// Whether no coordinate of a cell exceeds a bound.
pub open spec fn cell_within(position: Position, bound: int) -> bool {
    position.0 <= bound && position.1 <= bound && position.2 <= bound
}

/// Whether no pin of any macro lies beyond a bound.
pub open spec fn pins_within(macros: Seq<MacroTemplate>, bound: int) -> bool {
    forall|i: int, j: int|
        0 <= i < macros.len() && 0 <= j < macros[i].pins@.len() ==> cell_within(
            (#[trigger] macros[i].pins@[j]).position,
            bound,
        )
}

/// Whether all places lie within a bound.
pub open spec fn places_within(positions: Seq<Position>, bound: int) -> bool {
    forall|i: int| 0 <= i < positions.len() ==> cell_within(#[trigger] positions[i], bound)
}

/// Whether sums of pin coordinates stay in range.
pub open spec fn is_bound(macros: Seq<MacroTemplate>, nets: Seq<PhysicalNet>, world: DimSize, bound: int) -> bool {
    &&& bound >= 1
    &&& cell_within(Position(world.0, world.1, world.2), bound)
    &&& pins_within(macros, bound)
    &&& 8 * ((pin_total(nets, nets.len()) + 1) * bound) <= usize::MAX
    &&& 8 * ((pin_total(nets, nets.len()) + 1) * bound) <= i64::MAX
}

pub proof fn bound_is_small(macros: Seq<MacroTemplate>, nets: Seq<PhysicalNet>, world: DimSize, bound: int)
    requires
        is_bound(macros, nets, world, bound),
    ensures
        8 * bound <= usize::MAX,
        8 * bound <= i64::MAX,
        pin_total(nets, nets.len()) <= usize::MAX,
{
    let total = pin_total(nets, nets.len());
    assert((total + 1) * bound >= bound) by (nonlinear_arith)
        requires
            total >= 0,
            bound >= 1,
    ;
    assert((total + 1) * bound >= total) by (nonlinear_arith)
        requires
            total >= 0,
            bound >= 1,
    ;
}

proof fn found_macro(macros: Seq<MacroTemplate>, name: Seq<char>, start: nat) -> (index: int)
    requires
        macro_from(macros, name, start) is Some,
    ensures
        0 <= index < macros.len(),
        macro_from(macros, name, start) == Some(macros[index]),
    decreases macros.len() - start,
{
    if macros[start as int].name@ == name {
        start as int
    } else {
        found_macro(macros, name, start + 1)
    }
}

proof fn found_pin(template: MacroTemplate, name: Seq<char>, start: nat) -> (index: int)
    requires
        pin_from(template.pins@, name, start) is Some,
    ensures
        0 <= index < template.pins@.len(),
        pin_from(template.pins@, name, start) == Some(template.pins@[index]),
    decreases template.pins@.len() - start,
{
    if template.pins@[start as int].name@ == name {
        start as int
    } else {
        found_pin(template, name, start + 1)
    }
}

/// A pin of a macro within a bound that stands within a bound is in range.
pub proof fn pin_within(
    macros: Seq<MacroTemplate>,
    instances: Seq<MacroInstance>,
    instance: usize,
    origin: Position,
    name: Seq<char>,
    bound: int,
)
    requires
        pins_within(macros, bound),
        cell_within(origin, bound),
        2 * bound <= usize::MAX,
        template_of(macros, instances, instance) is Ok,
    ensures
        placed_pin_fits(template_of(macros, instances, instance)->Ok_0, origin, name),
        placed_pin(template_of(macros, instances, instance)->Ok_0, origin, name) matches Ok(place) ==> cell_within(
            place,
            2 * bound,
        ),
{
    let wanted = instances[instance as int].macro_name@;
    let template = template_of(macros, instances, instance)->Ok_0;
    let i = found_macro(macros, wanted, 0);
    assert(template == macros[i]);
    if pin_named(template, name) is Some {
        let j = found_pin(template, name, 0);
        assert(cell_within(macros[i].pins@[j].position, bound));
    }
}

fn pin_position_with(
    macros: &Vec<MacroTemplate>,
    instances: &Vec<MacroInstance>,
    positions: &Vec<Position>,
    reference: &PinRef,
    Ghost(bound): Ghost<int>,
) -> (result: Result<Position, PlacementError>)
    requires
        pins_within(macros@, bound),
        places_within(positions@, bound),
        2 * bound <= usize::MAX,
    ensures
        agrees(result, pin_at(macros@, instances@, positions@, *reference)),
        result matches Ok(place) ==> cell_within(place, 2 * bound),
{
    if reference.instance >= positions.len() {
        return Err(PlacementError::UnknownInstance(reference.instance));
    }
    match instance_template(macros, instances, reference.instance) {
        Err(error) => Err(error),
        Ok(template) => {
            let origin = positions[reference.instance];
            proof {
                assert(cell_within(positions@[reference.instance as int], bound));
                pin_within(macros@, instances@, reference.instance, origin, reference.pin@, bound);
            }
            template.pin_position(origin, reference.pin.as_str())
        },
    }
}

fn cut_delta(delta: i64, limit: usize) -> (step: i64)
    requires
        limit <= i64::MAX,
    ensures
        step == cut(delta as int, limit as int),
{
    let limit: i64 = limit as i64;
    if delta < -limit {
        -limit
    } else if delta > limit {
        limit
    } else {
        delta
    }
}

/// A mean does not exceed what all values stay below.
proof fn mean_bound(sum: nat, count: nat, bound: int)
    requires
        count > 0,
        sum <= count * bound,
    ensures
        0 <= sum as int / count as int <= bound,
{
    assert(0 <= sum as int / count as int <= bound) by (nonlinear_arith)
        requires
            count > 0,
            0 <= sum <= count * bound,
    ;
}

/// The step along one axis.
fn mean_step(own_sum: usize, own_count: usize, other_sum: usize, other_count: usize, limit: usize, Ghost(bound): Ghost<int>) -> (step:
    i64)
    requires
        own_count > 0,
        other_count > 0,
        own_sum <= own_count * bound,
        other_sum <= other_count * bound,
        bound <= i64::MAX,
        limit <= i64::MAX,
    ensures
        step == cut(other_sum as int / other_count as int - own_sum as int / own_count as int, limit as int),
        -bound <= step <= bound,
{
    proof {
        mean_bound(own_sum as nat, own_count as nat, bound);
        mean_bound(other_sum as nat, other_count as nat, bound);
    }
    let own: i64 = (own_sum / own_count) as i64;
    let other: i64 = (other_sum / other_count) as i64;
    cut_delta(other - own, limit)
}

/// Sums and counts of pins do not exceed what their places stay below.
proof fn sums_bound(
    pins: Seq<PinRef>,
    places: Seq<Position>,
    instance: usize,
    own: bool,
    axis: int,
    count: nat,
    bound: int,
)
    requires
        places_within(places, bound),
        count <= places.len(),
    ensures
        coordinate_sum(pins, places, instance, own, axis, count) <= tally(pins, instance, own, count) * bound,
        tally(pins, instance, own, count) <= count,
    decreases count,
{
    if count > 0 {
        sums_bound(pins, places, instance, own, axis, (count - 1) as nat, bound);
        assert(cell_within(places[count - 1], bound));
        let few = tally(pins, instance, own, (count - 1) as nat);
        assert((few + 1) * bound == few * bound + bound) by (nonlinear_arith);
    } else {
        assert(0 * bound == 0);
    }
}

/// The sums and counts of own and other pins.
#[derive(Clone, Copy)]
struct PinSums {
    own: Position,
    own_count: usize,
    other: Position,
    other_count: usize,
}

spec fn sums_are(sums: PinSums, pins: Seq<PinRef>, places: Seq<Position>, instance: usize, count: nat) -> bool {
    &&& sums.own_count == tally(pins, instance, true, count)
    &&& sums.other_count == tally(pins, instance, false, count)
    &&& sums.own.0 == coordinate_sum(pins, places, instance, true, 0, count)
    &&& sums.own.1 == coordinate_sum(pins, places, instance, true, 1, count)
    &&& sums.own.2 == coordinate_sum(pins, places, instance, true, 2, count)
    &&& sums.other.0 == coordinate_sum(pins, places, instance, false, 0, count)
    &&& sums.other.1 == coordinate_sum(pins, places, instance, false, 1, count)
    &&& sums.other.2 == coordinate_sum(pins, places, instance, false, 2, count)
}

fn sum_pins(pins: &Vec<PinRef>, places: &Vec<Position>, instance: usize, Ghost(bound): Ghost<int>) -> (sums: PinSums)
    requires
        pins.len() == places.len(),
        bound >= 1,
        places_within(places@, bound),
        pins.len() * bound <= usize::MAX,
    ensures
        sums_are(sums, pins@, places@, instance, pins@.len()),
{
    let mut own = Position(0, 0, 0);
    let mut own_count: usize = 0;
    let mut other = Position(0, 0, 0);
    let mut other_count: usize = 0;
    let mut index: usize = 0;
    while index < pins.len()
        invariant
            index <= pins.len(),
            pins.len() == places.len(),
            bound >= 1,
            places_within(places@, bound),
            pins.len() * bound <= usize::MAX,
            sums_are(PinSums { own, own_count, other, other_count }, pins@, places@, instance, index as nat),
        decreases pins.len() - index,
    {
        let place = places[index];
        proof {
            let count = (index + 1) as nat;
            let p = pins@;
            let q = places@;
            sums_bound(p, q, instance, true, 0, count, bound);
            sums_bound(p, q, instance, true, 1, count, bound);
            sums_bound(p, q, instance, true, 2, count, bound);
            sums_bound(p, q, instance, false, 0, count, bound);
            sums_bound(p, q, instance, false, 1, count, bound);
            sums_bound(p, q, instance, false, 2, count, bound);
            let mine = tally(p, instance, true, count);
            let theirs = tally(p, instance, false, count);
            assert(mine * bound <= p.len() * bound) by (nonlinear_arith)
                requires
                    mine <= p.len(),
                    bound >= 1,
            ;
            assert(theirs * bound <= p.len() * bound) by (nonlinear_arith)
                requires
                    theirs <= p.len(),
                    bound >= 1,
            ;
        }
        if pins[index].instance == instance {
            own = Position(own.0 + place.0, own.1 + place.1, own.2 + place.2);
            own_count += 1;
        } else {
            other = Position(other.0 + place.0, other.1 + place.1, other.2 + place.2);
            other_count += 1;
        }
        index += 1;
    }
    PinSums { own, own_count, other, other_count }
}

/// The step of an instance towards the pins that it is connected to.
fn barycenter_step(
    macros: &Vec<MacroTemplate>,
    instances: &Vec<MacroInstance>,
    nets: &Vec<PhysicalNet>,
    positions: &Vec<Position>,
    index: usize,
    config: &InitialPlacementConfig,
    Ghost(bound): Ghost<int>,
) -> (result: Result<Option<(i64, i64, i64)>, PlacementError>)
    requires
        is_bound(macros@, nets@, config.world, bound),
        places_within(positions@, bound),
        config.max_step <= i64::MAX,
    ensures
        match result {
            Err(error) => pull(macros@, instances@, nets@, positions@, index, config.max_step as int) == Err::<
                Option<(int, int, int)>,
                PlacementErrorView,
            >(error@),
            Ok(None) => pull(macros@, instances@, nets@, positions@, index, config.max_step as int) == Ok::<
                Option<(int, int, int)>,
                PlacementErrorView,
            >(None),
            Ok(Some(step)) => {
                &&& pull(macros@, instances@, nets@, positions@, index, config.max_step as int) == Ok::<
                    Option<(int, int, int)>,
                    PlacementErrorView,
                >(Some((step.0 as int, step.1 as int, step.2 as int)))
                &&& -2 * bound <= step.0 <= 2 * bound
                &&& -2 * bound <= step.1 <= 2 * bound
                &&& -2 * bound <= step.2 <= 2 * bound
            },
        },
{
    let ghost m = macros@;
    let ghost n = instances@;
    let ghost p = positions@;
    let pins = collect_touching(nets, index);
    proof {
        bound_is_small(m, nets@, config.world, bound);
        touching_pins_bound(nets@, index, nets@.len());
    }
    let mut places: Vec<Position> = Vec::new();
    let mut next: usize = 0;
    while next < pins.len()
        invariant
            next <= pins.len(),
            m == macros@,
            n == instances@,
            p == positions@,
            pins@ == touching_pins(nets@, index, nets@.len()),
            is_bound(m, nets@, config.world, bound),
            2 * bound <= usize::MAX,
            places_within(p, bound),
            places.len() == next,
            places_within(places@, 2 * bound),
            pins_at(m, n, p, pins@, next as nat) == Ok::<Seq<Position>, PlacementErrorView>(places@),
        decreases pins.len() - next,
    {
        match pin_position_with(macros, instances, positions, &pins[next], Ghost(bound)) {
            Err(error) => {
                proof {
                    pins_at_fails(m, n, p, pins@, (next + 1) as nat, pins@.len());
                }
                return Err(error);
            },
            Ok(place) => {
                let ghost before = places@;
                places.push(place);
                proof {
                    assert forall|i: int| 0 <= i < places.len() implies cell_within(
                        #[trigger] places@[i],
                        2 * bound,
                    ) by {
                        if i < next {
                            assert(places@[i] == before[i]);
                        }
                    }
                }
            },
        }
        next += 1;
    }
    proof {
        let total = pin_total(nets@, nets@.len());
        assert(pins.len() * (2 * bound) <= 8 * ((total + 1) * bound)) by (nonlinear_arith)
            requires
                pins.len() <= total,
                bound >= 1,
        ;
    }
    let sums = sum_pins(&pins, &places, index, Ghost(2 * bound));
    if sums.own_count == 0 || sums.other_count == 0 {
        return Ok(None);
    }
    proof {
        sums_bound(pins@, places@, index, true, 0, pins@.len(), 2 * bound);
        sums_bound(pins@, places@, index, true, 1, pins@.len(), 2 * bound);
        sums_bound(pins@, places@, index, true, 2, pins@.len(), 2 * bound);
        sums_bound(pins@, places@, index, false, 0, pins@.len(), 2 * bound);
        sums_bound(pins@, places@, index, false, 1, pins@.len(), 2 * bound);
        sums_bound(pins@, places@, index, false, 2, pins@.len(), 2 * bound);
    }
    let limit: usize = config.max_step;
    let x: i64 = mean_step(sums.own.0, sums.own_count, sums.other.0, sums.other_count, limit, Ghost(2 * bound));
    let y: i64 = mean_step(sums.own.1, sums.own_count, sums.other.1, sums.other_count, limit, Ghost(2 * bound));
    let z: i64 = mean_step(sums.own.2, sums.own_count, sums.other.2, sums.other_count, limit, Ghost(2 * bound));
    if x == 0 && y == 0 && z == 0 {
        Ok(None)
    } else {
        Ok(Some((x, y, z)))
    }
}

// ---------------------------------------------------------------------------
// Passes
// ---------------------------------------------------------------------------
/// A coordinate after a step, no smaller than zero.
pub open spec fn nudged_along(origin: usize, step: int) -> usize {
    if origin + step < 0 {
        0
    } else {
        (origin + step) as usize
    }
}

/// A cell after a step, with no coordinate smaller than zero.
pub open spec fn nudged(origin: Position, step: (int, int, int)) -> Position {
    Position(nudged_along(origin.0, step.0), nudged_along(origin.1, step.1), nudged_along(origin.2, step.2))
}

/// Whether a step from a coordinate stays in range.
pub open spec fn step_fits(origin: usize, step: i64) -> bool {
    origin <= i64::MAX && i64::MIN <= origin + step <= i64::MAX && origin + step <= usize::MAX
}

fn nudge_along(origin: usize, step: i64) -> (place: usize)
    requires
        step_fits(origin, step),
    ensures
        place == nudged_along(origin, step as int),
{
    let moved: i64 = origin as i64 + step;
    if moved < 0 {
        0
    } else {
        moved as usize
    }
}

/// A cell after a step, with no coordinate smaller than zero.
pub fn apply_delta(origin: Position, delta: (i64, i64, i64)) -> (place: Position)
    requires
        step_fits(origin.0, delta.0),
        step_fits(origin.1, delta.1),
        step_fits(origin.2, delta.2),
    ensures
        place == nudged(origin, (delta.0 as int, delta.1 as int, delta.2 as int)),
{
    Position(nudge_along(origin.0, delta.0), nudge_along(origin.1, delta.1), nudge_along(origin.2, delta.2))
}

/// The places after the first `count` instances took their steps, and whether
/// one of them moved.
pub open spec fn relaxed(
    macros: Seq<MacroTemplate>,
    instances: Seq<MacroInstance>,
    nets: Seq<PhysicalNet>,
    positions: Seq<Position>,
    config: InitialPlacementConfig,
    count: nat,
) -> Result<(Seq<Position>, bool), PlacementErrorView>
    decreases count,
{
    if count == 0 {
        Ok((positions, false))
    } else {
        match relaxed(macros, instances, nets, positions, config, (count - 1) as nat) {
            Err(error) => Err(error),
            Ok((before, moved)) => {
                let index = (count - 1) as usize;
                match pull(macros, instances, nets, before, index, config.max_step as int) {
                    Err(error) => Err(error),
                    Ok(None) => Ok((before, moved)),
                    Ok(Some(step)) => match template_of(macros, instances, index) {
                        Err(error) => Err(error),
                        Ok(template) => {
                            let next = clamped(nudged(before[index as int], step), template.size, config.world);
                            Ok((before.update(index as int, next), moved || next != before[index as int]))
                        },
                    },
                }
            },
        }
    }
}

proof fn relaxed_fails(
    macros: Seq<MacroTemplate>,
    instances: Seq<MacroInstance>,
    nets: Seq<PhysicalNet>,
    positions: Seq<Position>,
    config: InitialPlacementConfig,
    low: nat,
    high: nat,
)
    requires
        low <= high,
        relaxed(macros, instances, nets, positions, config, low) is Err,
    ensures
        relaxed(macros, instances, nets, positions, config, high) == relaxed(
            macros,
            instances,
            nets,
            positions,
            config,
            low,
        ),
    decreases high,
{
    if low < high {
        relaxed_fails(macros, instances, nets, positions, config, low, (high - 1) as nat);
    }
}

/// Lets every instance take its step, one after the other, and tells whether
/// one of them moved.
fn barycenter_pass(
    macros: &Vec<MacroTemplate>,
    instances: &Vec<MacroInstance>,
    nets: &Vec<PhysicalNet>,
    positions: &mut Vec<Position>,
    config: &InitialPlacementConfig,
    Ghost(bound): Ghost<int>,
) -> (result: Result<bool, PlacementError>)
    requires
        is_bound(macros@, nets@, config.world, bound),
        places_within(old(positions)@, bound),
        config.max_step <= i64::MAX,
    ensures
        final(positions)@.len() == old(positions)@.len(),
        places_within(final(positions)@, bound),
        match result {
            Ok(moved) => relaxed(macros@, instances@, nets@, old(positions)@, *config, old(positions)@.len()) == Ok::<
                (Seq<Position>, bool),
                PlacementErrorView,
            >((final(positions)@, moved)),
            Err(error) => relaxed(macros@, instances@, nets@, old(positions)@, *config, old(positions)@.len())
                == Err::<(Seq<Position>, bool), PlacementErrorView>(error@),
        },
{
    let ghost m = macros@;
    let ghost n = instances@;
    let ghost start = positions@;
    let count: usize = positions.len();
    let mut moved = false;
    let mut index: usize = 0;
    while index < count
        invariant
            index <= count,
            m == macros@,
            n == instances@,
            start == old(positions)@,
            count == start.len(),
            positions.len() == count,
            is_bound(m, nets@, config.world, bound),
            config.max_step <= i64::MAX,
            places_within(positions@, bound),
            relaxed(m, n, nets@, start, *config, index as nat) == Ok::<(Seq<Position>, bool), PlacementErrorView>(
                (positions@, moved),
            ),
        decreases count - index,
    {
        let ghost next_count = (index + 1) as nat;
        match barycenter_step(macros, instances, nets, positions, index, config, Ghost(bound)) {
            Err(error) => {
                proof {
                    relaxed_fails(m, n, nets@, start, *config, next_count, start.len());
                }
                return Err(error);
            },
            Ok(None) => {},
            Ok(Some(step)) => {
                let size = match instance_template(macros, instances, index) {
                    Err(error) => {
                        proof {
                            relaxed_fails(m, n, nets@, start, *config, next_count, start.len());
                        }
                        return Err(error);
                    },
                    Ok(template) => template.size,
                };
                let origin = positions[index];
                proof {
                    assert(cell_within(positions@[index as int], bound));
                    bound_is_small(m, nets@, config.world, bound);
                }
                let next = clamp_origin(apply_delta(origin, step), size, config.world);
                let ghost before = positions@;
                if next != origin {
                    positions[index] = next;
                    moved = true;
                }
                proof {
                    assert(positions@ =~= before.update(index as int, next));
                    assert forall|i: int| 0 <= i < positions.len() implies cell_within(
                        #[trigger] positions@[i],
                        bound,
                    ) by {
                        assert(cell_within(before[i], bound));
                    }
                }
            },
        }
        index += 1;
    }
    Ok(moved)
}

/// The places after a number of passes, or fewer when one of them moved
/// nothing.
pub open spec fn relaxed_passes(
    macros: Seq<MacroTemplate>,
    instances: Seq<MacroInstance>,
    nets: Seq<PhysicalNet>,
    positions: Seq<Position>,
    config: InitialPlacementConfig,
    passes: nat,
) -> Result<Seq<Position>, PlacementErrorView>
    decreases passes,
{
    if passes == 0 {
        Ok(positions)
    } else {
        match relaxed(macros, instances, nets, positions, config, positions.len()) {
            Err(error) => Err(error),
            Ok((after, moved)) => if moved {
                relaxed_passes(macros, instances, nets, after, config, (passes - 1) as nat)
            } else {
                Ok(after)
            },
        }
    }
}

/// Lets instances take steps until none moves or the passes are used up.
pub fn relax_places(
    macros: &Vec<MacroTemplate>,
    instances: &Vec<MacroInstance>,
    nets: &Vec<PhysicalNet>,
    positions: &mut Vec<Position>,
    config: &InitialPlacementConfig,
    Ghost(bound): Ghost<int>,
) -> (result: Result<(), PlacementError>)
    requires
        is_bound(macros@, nets@, config.world, bound),
        places_within(old(positions)@, bound),
        config.max_step <= i64::MAX,
    ensures
        final(positions)@.len() == old(positions)@.len(),
        places_within(final(positions)@, bound),
        match result {
            Ok(_) => relaxed_passes(
                macros@,
                instances@,
                nets@,
                old(positions)@,
                *config,
                config.barycenter_iterations as nat,
            ) == Ok::<Seq<Position>, PlacementErrorView>(final(positions)@),
            Err(error) => relaxed_passes(
                macros@,
                instances@,
                nets@,
                old(positions)@,
                *config,
                config.barycenter_iterations as nat,
            ) == Err::<Seq<Position>, PlacementErrorView>(error@),
        },
{
    let ghost start = positions@;
    let passes: usize = config.barycenter_iterations;
    let mut pass: usize = 0;
    while pass < passes
        invariant
            pass <= passes,
            passes == config.barycenter_iterations,
            start == old(positions)@,
            positions.len() == start.len(),
            is_bound(macros@, nets@, config.world, bound),
            config.max_step <= i64::MAX,
            places_within(positions@, bound),
            relaxed_passes(macros@, instances@, nets@, start, *config, passes as nat) == relaxed_passes(
                macros@,
                instances@,
                nets@,
                positions@,
                *config,
                (passes - pass) as nat,
            ),
        decreases passes - pass,
    {
        match barycenter_pass(macros, instances, nets, positions, config, Ghost(bound)) {
            Err(error) => {
                return Err(error);
            },
            Ok(moved) => {
                if !moved {
                    return Ok(());
                }
            },
        }
        pass += 1;
    }
    Ok(())
}

} // verus!

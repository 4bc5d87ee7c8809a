//! A placement problem: macros, instances of them, and the nets between their
//! pins.

use super::placement_error::{agrees, PlacementError, PlacementErrorView};
use super::placement_ir::{placed_pin, placed_pin_fits, MacroInstance, MacroTemplate, PhysicalNet, PinRef};
use crate::order::{insert_ascending, is_ascending};
use crate::text::same_text;
use crate::world::position::Position;
use vstd::prelude::*;

verus! {

/// Macros, instances of them, and nets.
#[derive(Clone, Debug)]
pub struct PlacementProblem {
    /// The macros, of which no two have one name.
    pub macros: Vec<MacroTemplate>,
    pub instances: Vec<MacroInstance>,
    pub nets: Vec<PhysicalNet>,
}

/// The first macro of a name from `start` on.
pub open spec fn macro_from(macros: Seq<MacroTemplate>, name: Seq<char>, start: nat) -> Option<MacroTemplate>
    decreases macros.len() - start,
{
    if start >= macros.len() {
        None
    } else if macros[start as int].name@ == name {
        Some(macros[start as int])
    } else {
        macro_from(macros, name, start + 1)
    }
}

/// The macro of a name.
pub open spec fn macro_named(macros: Seq<MacroTemplate>, name: Seq<char>) -> Option<MacroTemplate> {
    macro_from(macros, name, 0)
}

/// The macro of an instance.
pub open spec fn template_of(
    macros: Seq<MacroTemplate>,
    instances: Seq<MacroInstance>,
    instance: usize,
) -> Result<MacroTemplate, PlacementErrorView> {
    if instance >= instances.len() {
        Err(PlacementErrorView::UnknownInstance(instance))
    } else {
        let name = instances[instance as int].macro_name@;
        match macro_named(macros, name) {
            Some(template) => Ok(template),
            None => Err(PlacementErrorView::MissingMacro(name)),
        }
    }
}

pub fn find_macro<'a>(macros: &'a Vec<MacroTemplate>, name: &str) -> (found: Option<&'a MacroTemplate>)
    ensures
        match found {
            Some(template) => macro_named(macros@, name@) == Some(*template),
            None => macro_named(macros@, name@) is None,
        },
{
    let mut index: usize = 0;
    while index < macros.len()
        invariant
            index <= macros.len(),
            macro_named(macros@, name@) == macro_from(macros@, name@, index as nat),
        decreases macros.len() - index,
    {
        if same_text(macros[index].name.as_str(), name) {
            return Some(&macros[index]);
        }
        index += 1;
    }
    None
}

/// The macro of an instance.
pub fn instance_template<'a>(
    macros: &'a Vec<MacroTemplate>,
    instances: &Vec<MacroInstance>,
    instance: usize,
) -> (result: Result<&'a MacroTemplate, PlacementError>)
    ensures
        match result {
            Ok(template) => template_of(macros@, instances@, instance) == Ok::<MacroTemplate, PlacementErrorView>(
                *template,
            ),
            Err(error) => template_of(macros@, instances@, instance) == Err::<MacroTemplate, PlacementErrorView>(
                error@,
            ),
        },
{
    if instance >= instances.len() {
        return Err(PlacementError::UnknownInstance(instance));
    }
    match find_macro(macros, instances[instance].macro_name.as_str()) {
        Some(template) => Ok(template),
        None => Err(PlacementError::MissingMacro(instances[instance].macro_name.clone())),
    }
}

// ---------------------------------------------------------------------------
// Pins
// ---------------------------------------------------------------------------
/// Where a pin of an instance is.
pub open spec fn pin_place(
    macros: Seq<MacroTemplate>,
    instances: Seq<MacroInstance>,
    reference: PinRef,
) -> Result<Position, PlacementErrorView> {
    match template_of(macros, instances, reference.instance) {
        Err(error) => Err(error),
        Ok(template) => placed_pin(template, instances[reference.instance as int].position, reference.pin@),
    }
}

/// Whether a pin of an instance is in range, if there is such a pin.
pub open spec fn pin_place_fits(
    macros: Seq<MacroTemplate>,
    instances: Seq<MacroInstance>,
    reference: PinRef,
) -> bool {
    template_of(macros, instances, reference.instance) matches Ok(template) ==> placed_pin_fits(
        template,
        instances[reference.instance as int].position,
        reference.pin@,
    )
}

/// Where a pin of an instance is.
pub fn instance_pin_position(
    macros: &Vec<MacroTemplate>,
    instances: &Vec<MacroInstance>,
    reference: &PinRef,
) -> (result: Result<Position, PlacementError>)
    requires
        pin_place_fits(macros@, instances@, *reference),
    ensures
        agrees(result, pin_place(macros@, instances@, *reference)),
{
    match instance_template(macros, instances, reference.instance) {
        Err(error) => Err(error),
        Ok(template) => template.pin_position(instances[reference.instance].position, reference.pin.as_str()),
    }
}

/// The pins of a net: the driver, then the sinks.
pub open spec fn net_pins(net: PhysicalNet) -> Seq<PinRef> {
    seq![net.source] + net.sinks@
}

/// Where the first `count` pins of a net are, or the first error.
pub open spec fn pin_places(
    macros: Seq<MacroTemplate>,
    instances: Seq<MacroInstance>,
    pins: Seq<PinRef>,
    count: nat,
) -> Result<Seq<Position>, PlacementErrorView>
    decreases count,
{
    if count == 0 {
        Ok(Seq::empty())
    } else {
        match pin_places(macros, instances, pins, (count - 1) as nat) {
            Err(error) => Err(error),
            Ok(places) => match pin_place(macros, instances, pins[count - 1]) {
                Err(error) => Err(error),
                Ok(place) => Ok(places.push(place)),
            },
        }
    }
}

proof fn pin_places_fail(
    macros: Seq<MacroTemplate>,
    instances: Seq<MacroInstance>,
    pins: Seq<PinRef>,
    low: nat,
    high: nat,
)
    requires
        low <= high <= pins.len(),
        pin_places(macros, instances, pins, low) is Err,
    ensures
        pin_places(macros, instances, pins, high) == pin_places(macros, instances, pins, low),
    decreases high,
{
    if low < high {
        pin_places_fail(macros, instances, pins, low, (high - 1) as nat);
    }
}

// ---------------------------------------------------------------------------
// Extents
// ---------------------------------------------------------------------------
/// A coordinate of a cell: x, y or height.
pub open spec fn coordinate(position: Position, axis: int) -> usize {
    if axis == 0 {
        position.0
    } else if axis == 1 {
        position.1
    } else {
        position.2
    }
}

/// The least coordinate of some cells along an axis.
pub open spec fn lowest(cells: Seq<Position>, axis: int) -> usize
    decreases cells.len(),
{
    if cells.len() == 0 {
        usize::MAX
    } else {
        let rest = lowest(cells.drop_last(), axis);
        let last = coordinate(cells.last(), axis);
        if last < rest {
            last
        } else {
            rest
        }
    }
}

/// The greatest coordinate of some cells along an axis.
pub open spec fn highest(cells: Seq<Position>, axis: int) -> usize
    decreases cells.len(),
{
    if cells.len() == 0 {
        0
    } else {
        let rest = highest(cells.drop_last(), axis);
        let last = coordinate(cells.last(), axis);
        if last > rest {
            last
        } else {
            rest
        }
    }
}

/// The cells of a list lie between its least and greatest coordinates.
pub proof fn extremes_bound(cells: Seq<Position>, axis: int, index: int)
    requires
        0 <= index < cells.len(),
    ensures
        lowest(cells, axis) <= coordinate(cells[index], axis) <= highest(cells, axis),
    decreases cells.len(),
{
    if index < cells.len() - 1 {
        extremes_bound(cells.drop_last(), axis, index);
    }
}

/// Half the perimeter of the smallest box around some cells.
pub open spec fn half_perimeter_of(cells: Seq<Position>) -> int {
    (highest(cells, 0) - lowest(cells, 0)) + (highest(cells, 1) - lowest(cells, 1)) + (highest(cells, 2) - lowest(
        cells,
        2,
    ))
}

fn lower(left: usize, right: usize) -> (low: usize)
    ensures
        low == if right < left { right } else { left },
{
    if right < left {
        right
    } else {
        left
    }
}

fn upper(left: usize, right: usize) -> (high: usize)
    ensures
        high == if right > left { right } else { left },
{
    if right > left {
        right
    } else {
        left
    }
}

/// Widens the box of some cells by a cell.
fn widen(low: Position, high: Position, first: Position, last: Position) -> (wider: (Position, Position))
    ensures
        forall|axis: int| #[trigger]
            coordinate(wider.0, axis) == (if coordinate(first, axis) < coordinate(low, axis) {
                coordinate(first, axis)
            } else {
                coordinate(low, axis)
            }),
        forall|axis: int| #[trigger]
            coordinate(wider.1, axis) == (if coordinate(last, axis) > coordinate(high, axis) {
                coordinate(last, axis)
            } else {
                coordinate(high, axis)
            }),
{
    (
        Position(lower(low.0, first.0), lower(low.1, first.1), lower(low.2, first.2)),
        Position(upper(high.0, last.0), upper(high.1, last.1), upper(high.2, last.2)),
    )
}

/// Half the perimeter of the smallest box around some cells.
pub fn half_perimeter(positions: &Vec<Position>) -> (steps: usize)
    requires
        positions.len() > 0,
        half_perimeter_of(positions@) <= usize::MAX,
    ensures
        steps == half_perimeter_of(positions@),
{
    let mut low = Position(usize::MAX, usize::MAX, usize::MAX);
    let mut high = Position(0, 0, 0);
    let mut index: usize = 0;
    while index < positions.len()
        invariant
            index <= positions.len(),
            forall|axis: int| #[trigger] coordinate(low, axis) == lowest(positions@.take(index as int), axis),
            forall|axis: int| #[trigger] coordinate(high, axis) == highest(positions@.take(index as int), axis),
        decreases positions.len() - index,
    {
        let cell = positions[index];
        proof {
            assert(positions@.take(index + 1).drop_last() =~= positions@.take(index as int));
            assert(positions@.take(index + 1).last() == cell);
        }
        let (next_low, next_high) = widen(low, high, cell, cell);
        low = next_low;
        high = next_high;
        index += 1;
    }
    proof {
        assert(positions@.take(index as int) =~= positions@);
        extremes_bound(positions@, 0, 0);
        extremes_bound(positions@, 1, 0);
        extremes_bound(positions@, 2, 0);
        assert(coordinate(low, 0) == low.0 && coordinate(low, 1) == low.1 && coordinate(low, 2) == low.2);
        assert(coordinate(high, 0) == high.0 && coordinate(high, 1) == high.1 && coordinate(high, 2) == high.2);
    }
    (high.0 - low.0) + (high.1 - low.1) + (high.2 - low.2)
}

// ---------------------------------------------------------------------------
// Wire length
// ---------------------------------------------------------------------------
/// Half the perimeter of the box around the pins of a net.
pub open spec fn net_length(
    macros: Seq<MacroTemplate>,
    instances: Seq<MacroInstance>,
    net: PhysicalNet,
) -> Result<int, PlacementErrorView> {
    match pin_places(macros, instances, net_pins(net), net_pins(net).len()) {
        Err(error) => Err(error),
        Ok(places) => Ok(half_perimeter_of(places)),
    }
}

/// Whether the pins of a net are in range, and its length is.
pub open spec fn net_fits(macros: Seq<MacroTemplate>, instances: Seq<MacroInstance>, net: PhysicalNet) -> bool {
    &&& forall|i: int|
        0 <= i < net_pins(net).len() ==> pin_place_fits(macros, instances, #[trigger] net_pins(net)[i])
    &&& net_length(macros, instances, net) matches Ok(length) ==> length <= usize::MAX
}

/// Whether a result is the expected number, or an error with the expected
/// contents.
pub open spec fn agrees_on_number(
    result: Result<usize, PlacementError>,
    expected: Result<int, PlacementErrorView>,
) -> bool {
    match result {
        Ok(number) => expected == Ok::<int, PlacementErrorView>(number as int),
        Err(error) => expected == Err::<int, PlacementErrorView>(error@),
    }
}

pub fn net_half_perimeter_of(
    macros: &Vec<MacroTemplate>,
    instances: &Vec<MacroInstance>,
    net: &PhysicalNet,
) -> (result: Result<usize, PlacementError>)
    requires
        net_fits(macros@, instances@, *net),
    ensures
        agrees_on_number(result, net_length(macros@, instances@, *net)),
{
    let ghost pins = net_pins(*net);
    assert(pins[0] == net.source);
    let mut positions: Vec<Position> = Vec::new();
    proof {
        reveal_with_fuel(pin_places, 2);
    }
    match instance_pin_position(macros, instances, &net.source) {
        Err(error) => {
            proof {
                pin_places_fail(macros@, instances@, pins, 1, pins.len());
            }
            return Err(error);
        },
        Ok(position) => {
            positions.push(position);
            assert(positions@ =~= Seq::<Position>::empty().push(position));
        },
    }
    let mut index: usize = 0;
    while index < net.sinks.len()
        invariant
            index <= net.sinks.len(),
            pins == net_pins(*net),
            net_fits(macros@, instances@, *net),
            positions.len() == index + 1,
            pin_places(macros@, instances@, pins, (index + 1) as nat) == Ok::<Seq<Position>, PlacementErrorView>(
                positions@,
            ),
        decreases net.sinks.len() - index,
    {
        assert(pins[index + 1] == net.sinks@[index as int]);
        match instance_pin_position(macros, instances, &net.sinks[index]) {
            Err(error) => {
                proof {
                    pin_places_fail(macros@, instances@, pins, (index + 2) as nat, pins.len());
                }
                return Err(error);
            },
            Ok(position) => {
                positions.push(position);
            },
        }
        index += 1;
    }
    Ok(half_perimeter(&positions))
}

/// The length of the first `count` nets, or the first error.
pub open spec fn wire_length(
    macros: Seq<MacroTemplate>,
    instances: Seq<MacroInstance>,
    nets: Seq<PhysicalNet>,
    count: nat,
) -> Result<int, PlacementErrorView>
    decreases count,
{
    if count == 0 {
        Ok(0)
    } else {
        match wire_length(macros, instances, nets, (count - 1) as nat) {
            Err(error) => Err(error),
            Ok(total) => match net_length(macros, instances, nets[count - 1]) {
                Err(error) => Err(error),
                Ok(length) => Ok(total + length),
            },
        }
    }
}

proof fn net_length_natural(macros: Seq<MacroTemplate>, instances: Seq<MacroInstance>, net: PhysicalNet)
    ensures
        net_length(macros, instances, net) matches Ok(length) ==> length >= 0,
{
    let pins = net_pins(net);
    if net_length(macros, instances, net) is Ok {
        let places = pin_places(macros, instances, pins, pins.len())->Ok_0;
        pin_places_count(macros, instances, pins, pins.len());
        extremes_bound(places, 0, 0);
        extremes_bound(places, 1, 0);
        extremes_bound(places, 2, 0);
    }
}

proof fn pin_places_count(
    macros: Seq<MacroTemplate>,
    instances: Seq<MacroInstance>,
    pins: Seq<PinRef>,
    count: nat,
)
    ensures
        pin_places(macros, instances, pins, count) matches Ok(places) ==> places.len() == count,
    decreases count,
{
    if count > 0 {
        pin_places_count(macros, instances, pins, (count - 1) as nat);
    }
}

/// The length of nets only grows, and a failure stays one.
proof fn wire_length_grows(
    macros: Seq<MacroTemplate>,
    instances: Seq<MacroInstance>,
    nets: Seq<PhysicalNet>,
    low: nat,
    high: nat,
)
    requires
        low <= high <= nets.len(),
    ensures
        match wire_length(macros, instances, nets, low) {
            Err(error) => wire_length(macros, instances, nets, high) == Err::<int, PlacementErrorView>(error),
            Ok(total) => wire_length(macros, instances, nets, high) matches Ok(all) ==> total <= all,
        },
    decreases high,
{
    if low < high {
        wire_length_grows(macros, instances, nets, low, (high - 1) as nat);
        net_length_natural(macros, instances, nets[high - 1]);
    }
}

/// The length of the nets up to the first that fails.
pub open spec fn length_so_far(
    macros: Seq<MacroTemplate>,
    instances: Seq<MacroInstance>,
    nets: Seq<PhysicalNet>,
    count: nat,
) -> bool {
    wire_length(macros, instances, nets, count) matches Ok(total) ==> total <= usize::MAX
}

/// Whether the nets are in range, and their lengths added up are.
pub open spec fn nets_fit(
    macros: Seq<MacroTemplate>,
    instances: Seq<MacroInstance>,
    nets: Seq<PhysicalNet>,
) -> bool {
    &&& forall|i: int| 0 <= i < nets.len() ==> net_fits(macros, instances, #[trigger] nets[i])
    &&& forall|count: nat| count <= nets.len() ==> #[trigger] length_so_far(macros, instances, nets, count)
}

/// The length of all nets.
pub fn wire_length_of(
    macros: &Vec<MacroTemplate>,
    instances: &Vec<MacroInstance>,
    nets: &Vec<PhysicalNet>,
) -> (result: Result<usize, PlacementError>)
    requires
        nets_fit(macros@, instances@, nets@),
    ensures
        agrees_on_number(result, wire_length(macros@, instances@, nets@, nets@.len())),
{
    let mut total: usize = 0;
    let mut index: usize = 0;
    while index < nets.len()
        invariant
            index <= nets.len(),
            nets_fit(macros@, instances@, nets@),
            wire_length(macros@, instances@, nets@, index as nat) == Ok::<int, PlacementErrorView>(total as int),
        decreases nets.len() - index,
    {
        assert(net_fits(macros@, instances@, nets@[index as int]));
        assert(length_so_far(macros@, instances@, nets@, (index + 1) as nat));
        match net_half_perimeter_of(macros, instances, &nets[index]) {
            Err(error) => {
                proof {
                    wire_length_grows(macros@, instances@, nets@, (index + 1) as nat, nets@.len());
                }
                return Err(error);
            },
            Ok(length) => {
                total += length;
            },
        }
        index += 1;
    }
    Ok(total)
}

// ---------------------------------------------------------------------------
// Footprints
// ---------------------------------------------------------------------------
/// The box of an instance, under the instance's number.
#[derive(Clone, Copy, Debug, PartialEq, Eq, Structural)]
pub struct Footprint {
    pub id: usize,
    pub min: Position,
    pub max: Position,
}

/// The last cell along an axis of a macro with that many cells.
pub open spec fn reach(size: usize) -> int {
    if size == 0 {
        0
    } else {
        size - 1
    }
}

/// Whether the box of a macro is in range.
pub open spec fn footprint_fits(template: MacroTemplate, origin: Position) -> bool {
    &&& origin.0 + reach(template.size.0) <= usize::MAX
    &&& origin.1 + reach(template.size.1) <= usize::MAX
    &&& origin.2 + reach(template.size.2) <= usize::MAX
}

/// The last cell of a macro that stands at an origin.
pub open spec fn far_corner(template: MacroTemplate, origin: Position) -> Position {
    Position(
        (origin.0 + reach(template.size.0)) as usize,
        (origin.1 + reach(template.size.1)) as usize,
        (origin.2 + reach(template.size.2)) as usize,
    )
}

fn last_of(origin: usize, size: usize) -> (last: usize)
    requires
        origin + reach(size) <= usize::MAX,
    ensures
        last == origin + reach(size),
{
    if size == 0 {
        origin
    } else {
        origin + (size - 1)
    }
}

/// The last cell of a macro that stands at an origin.
pub fn corner_of(template: &MacroTemplate, origin: Position) -> (corner: Position)
    requires
        footprint_fits(*template, origin),
    ensures
        corner == far_corner(*template, origin),
{
    Position(
        last_of(origin.0, template.size.0),
        last_of(origin.1, template.size.1),
        last_of(origin.2, template.size.2),
    )
}

/// The footprints of the first `count` instances that have a macro.
pub open spec fn footprints(
    macros: Seq<MacroTemplate>,
    instances: Seq<MacroInstance>,
    count: nat,
) -> Seq<Footprint>
    decreases count,
{
    if count == 0 {
        Seq::empty()
    } else {
        let rest = footprints(macros, instances, (count - 1) as nat);
        let instance = instances[count - 1];
        match template_of(macros, instances, instance.id) {
            Ok(template) => rest.push(
                Footprint { id: instance.id, min: instance.position, max: far_corner(template, instance.position) },
            ),
            Err(_) => rest,
        }
    }
}

/// Whether the boxes of all instances are in range.
pub open spec fn footprints_fit(macros: Seq<MacroTemplate>, instances: Seq<MacroInstance>) -> bool {
    forall|i: int|
        0 <= i < instances.len() ==> match template_of(macros, instances, (#[trigger] instances[i]).id) {
            Ok(template) => footprint_fits(template, instances[i].position),
            Err(_) => true,
        }
}

fn collect_footprints(macros: &Vec<MacroTemplate>, instances: &Vec<MacroInstance>) -> (list: Vec<Footprint>)
    requires
        footprints_fit(macros@, instances@),
    ensures
        list@ == footprints(macros@, instances@, instances@.len()),
{
    let mut list: Vec<Footprint> = Vec::new();
    let mut index: usize = 0;
    while index < instances.len()
        invariant
            index <= instances.len(),
            footprints_fit(macros@, instances@),
            list@ == footprints(macros@, instances@, index as nat),
        decreases instances.len() - index,
    {
        let id: usize = instances[index].id;
        let origin = instances[index].position;
        assert(instances@[index as int].id == id);
        match instance_template(macros, instances, id) {
            Ok(template) => {
                list.push(Footprint { id, min: origin, max: corner_of(template, origin) });
            },
            Err(_) => {},
        }
        index += 1;
    }
    list
}

/// Whether two boxes have a cell in common.
pub open spec fn boxes_meet(first_min: Position, first_max: Position, second_min: Position, second_max: Position) -> bool {
    &&& first_min.0 <= second_max.0
    &&& second_min.0 <= first_max.0
    &&& first_min.1 <= second_max.1
    &&& second_min.1 <= first_max.1
    &&& first_min.2 <= second_max.2
    &&& second_min.2 <= first_max.2
}

/// Whether two boxes have a cell in common.
pub fn aabb_intersects(first: (Position, Position), second: (Position, Position)) -> (meet: bool)
    ensures
        meet == boxes_meet(first.0, first.1, second.0, second.1),
{
    first.0.0 <= second.1.0 && second.0.0 <= first.1.0 && first.0.1 <= second.1.1 && second.0.1 <= first.1.1
        && first.0.2 <= second.1.2 && second.0.2 <= first.1.2
}

/// Two numbers, the smaller first.
pub open spec fn ordered_pair(left: usize, right: usize) -> (usize, usize) {
    if left <= right {
        (left, right)
    } else {
        (right, left)
    }
}

/// Whether footprints `i` and `j` meet and carry the numbers of a pair.
pub open spec fn is_overlap(list: Seq<Footprint>, i: int, j: int, pair: (usize, usize)) -> bool {
    &&& 0 <= i < j < list.len()
    &&& boxes_meet(list[i].min, list[i].max, list[j].min, list[j].max)
    &&& pair == ordered_pair(list[i].id, list[j].id)
}

/// Whether pairs of numbers are those of the footprints that meet, in order and
/// each once.
pub open spec fn lists_overlaps(pairs: Seq<(usize, usize)>, list: Seq<Footprint>) -> bool {
    &&& is_ascending(pairs)
    &&& forall|pair: (usize, usize)| #[trigger]
        pairs.contains(pair) <==> exists|i: int, j: int| #[trigger] is_overlap(list, i, j, pair)
}

/// Whether the pair is of two footprints that come, as a pair, before `(first,
/// second)`.
spec fn overlap_seen(list: Seq<Footprint>, first: int, second: int, pair: (usize, usize)) -> bool {
    exists|i: int, j: int| #[trigger] is_overlap(list, i, j, pair) && (i < first || i == first && j < second)
}

/// The pairs of instances whose footprints intersect.
pub fn overlaps_of(macros: &Vec<MacroTemplate>, instances: &Vec<MacroInstance>) -> (pairs: Vec<(usize, usize)>)
    requires
        footprints_fit(macros@, instances@),
    ensures
        lists_overlaps(pairs@, footprints(macros@, instances@, instances@.len())),
{
    let bounds = collect_footprints(macros, instances);
    let ghost list = bounds@;
    let mut pairs: Vec<(usize, usize)> = Vec::new();
    let mut first: usize = 0;
    while first < bounds.len()
        invariant
            list == bounds@,
            first <= bounds.len(),
            is_ascending(pairs@),
            forall|pair: (usize, usize)| #[trigger] pairs@.contains(pair) <==> overlap_seen(list, first as int, 0, pair),
        decreases bounds.len() - first,
    {
        let mut second: usize = first + 1;
        proof {
            assert forall|pair: (usize, usize)| #[trigger] pairs@.contains(pair) <==> overlap_seen(
                list,
                first as int,
                second as int,
                pair,
            ) by {
                if overlap_seen(list, first as int, second as int, pair) {
                    let (i, j) = choose|i: int, j: int| #[trigger]
                        is_overlap(list, i, j, pair) && (i < first || i == first && j < second);
                    assert(is_overlap(list, i, j, pair));
                }
                if overlap_seen(list, first as int, 0, pair) {
                    let (i, j) = choose|i: int, j: int| #[trigger]
                        is_overlap(list, i, j, pair) && (i < first || i == first && j < 0);
                    assert(is_overlap(list, i, j, pair));
                }
            }
        }
        while second < bounds.len()
            invariant
                list == bounds@,
                first < second <= bounds.len(),
                is_ascending(pairs@),
                forall|pair: (usize, usize)| #[trigger]
                    pairs@.contains(pair) <==> overlap_seen(list, first as int, second as int, pair),
            decreases bounds.len() - second,
        {
            let left = bounds[first];
            let right = bounds[second];
            let ghost before = pairs@;
            let meet = aabb_intersects((left.min, left.max), (right.min, right.max));
            let pair = if left.id <= right.id {
                (left.id, right.id)
            } else {
                (right.id, left.id)
            };
            if meet {
                insert_ascending(&mut pairs, pair);
            }
            proof {
                let now = (first as int, second as int);
                assert forall|other: (usize, usize)| #[trigger] pairs@.contains(other) <==> overlap_seen(
                    list,
                    first as int,
                    second + 1,
                    other,
                ) by {
                    assert(before.contains(other) <==> overlap_seen(list, first as int, second as int, other));
                    if overlap_seen(list, first as int, second as int, other) {
                        let (i, j) = choose|i: int, j: int| #[trigger]
                            is_overlap(list, i, j, other) && (i < first || i == first && j < second);
                        assert(is_overlap(list, i, j, other));
                    }
                    if meet && other == pair {
                        assert(is_overlap(list, now.0, now.1, other));
                    }
                    if overlap_seen(list, first as int, second + 1, other) {
                        let (i, j) = choose|i: int, j: int| #[trigger]
                            is_overlap(list, i, j, other) && (i < first || i == first && j < second + 1);
                        assert(is_overlap(list, i, j, other));
                        if i == first && j == second {
                            assert(meet && other == pair);
                        }
                    }
                }
            }
            second += 1;
        }
        proof {
            assert forall|pair: (usize, usize)| #[trigger] pairs@.contains(pair) <==> overlap_seen(
                list,
                first + 1,
                0,
                pair,
            ) by {
                if overlap_seen(list, first as int, second as int, pair) {
                    let (i, j) = choose|i: int, j: int| #[trigger]
                        is_overlap(list, i, j, pair) && (i < first || i == first && j < second);
                    assert(is_overlap(list, i, j, pair));
                }
                if overlap_seen(list, first + 1, 0, pair) {
                    let (i, j) = choose|i: int, j: int| #[trigger]
                        is_overlap(list, i, j, pair) && (i < first + 1 || i == first + 1 && j < 0);
                    assert(is_overlap(list, i, j, pair));
                }
            }
        }
        first += 1;
    }
    proof {
        assert forall|pair: (usize, usize)| #[trigger] pairs@.contains(pair) <==> exists|i: int, j: int| #[trigger]
            is_overlap(list, i, j, pair) by {
            assert(pairs@.contains(pair) <==> overlap_seen(list, first as int, 0, pair));
            if exists|i: int, j: int| #[trigger] is_overlap(list, i, j, pair) {
                let (i, j) = choose|i: int, j: int| #[trigger] is_overlap(list, i, j, pair);
                assert(is_overlap(list, i, j, pair) && i < first);
            }
        }
    }
    pairs
}

/// The smallest box around some footprints.
pub open spec fn footprint_box(list: Seq<Footprint>) -> Option<(Position, Position)> {
    if list.len() == 0 {
        None
    } else {
        let mins = list.map_values(|footprint: Footprint| footprint.min);
        let maxes = list.map_values(|footprint: Footprint| footprint.max);
        Some(
            (
                Position(lowest(mins, 0), lowest(mins, 1), lowest(mins, 2)),
                Position(highest(maxes, 0), highest(maxes, 1), highest(maxes, 2)),
            ),
        )
    }
}

/// The smallest box around the footprints of all instances.
pub fn bounding_box_of(macros: &Vec<MacroTemplate>, instances: &Vec<MacroInstance>) -> (bbox: Option<
    (Position, Position),
>)
    requires
        footprints_fit(macros@, instances@),
    ensures
        bbox == footprint_box(footprints(macros@, instances@, instances@.len())),
{
    let bounds = collect_footprints(macros, instances);
    let ghost mins = bounds@.map_values(|footprint: Footprint| footprint.min);
    let ghost maxes = bounds@.map_values(|footprint: Footprint| footprint.max);
    let mut low = Position(usize::MAX, usize::MAX, usize::MAX);
    let mut high = Position(0, 0, 0);
    let mut index: usize = 0;
    while index < bounds.len()
        invariant
            index <= bounds.len(),
            mins == bounds@.map_values(|footprint: Footprint| footprint.min),
            maxes == bounds@.map_values(|footprint: Footprint| footprint.max),
            forall|axis: int| #[trigger] coordinate(low, axis) == lowest(mins.take(index as int), axis),
            forall|axis: int| #[trigger] coordinate(high, axis) == highest(maxes.take(index as int), axis),
        decreases bounds.len() - index,
    {
        let footprint = bounds[index];
        proof {
            assert(mins.take(index + 1).drop_last() =~= mins.take(index as int));
            assert(maxes.take(index + 1).drop_last() =~= maxes.take(index as int));
            assert(mins.take(index + 1).last() == footprint.min);
            assert(maxes.take(index + 1).last() == footprint.max);
        }
        let (next_low, next_high) = widen(low, high, footprint.min, footprint.max);
        low = next_low;
        high = next_high;
        index += 1;
    }
    proof {
        assert(mins.take(index as int) =~= mins);
        assert(maxes.take(index as int) =~= maxes);
        assert(coordinate(low, 0) == low.0 && coordinate(low, 1) == low.1 && coordinate(low, 2) == low.2);
        assert(coordinate(high, 0) == high.0 && coordinate(high, 1) == high.1 && coordinate(high, 2) == high.2);
    }
    if bounds.len() == 0 {
        None
    } else {
        Some((low, high))
    }
}

} // verus!

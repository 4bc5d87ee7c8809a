//! Macros, their instances and nets, with coordinates.

use super::global_pnr::ir::{LayoutCandidate, PhysicalPort, PhysicalPortDirection, PortConnection};
use super::placement_error::{agrees, Axis, PlacementError, PlacementErrorView};
use crate::order::{is_text_order, text_order};
use crate::text::{same_text, texts};
use crate::world::grid::{box_extent, box_wf, BoundingBox, Placed};
use crate::world::position::{
    distance, is_sorted, position_before, sorted_cells, step_towards, DimSize, Direction, Position,
};
use crate::order::SortKey;
use vstd::prelude::*;

verus! {

/// How an instance is turned. Redstone does not work the same in every
/// direction, so only the identity can be placed.
#[derive(Clone, Copy, Debug, PartialEq, Eq, PartialOrd, Ord, Hash, Structural)]
pub enum MacroRotation {
    Unrotated,
    Yaw90,
    Yaw180,
    Yaw270,
}

impl MacroRotation {
    pub fn is_identity(self) -> (identity: bool)
        ensures
            identity == (self == MacroRotation::Unrotated),
    {
        matches!(self, MacroRotation::Unrotated)
    }
}

/// One public pin of a macro, in coordinates of the macro.
#[derive(Clone, Debug)]
pub struct MacroPin {
    pub name: String,
    pub position: Position,
    pub direction: PhysicalPortDirection,
    pub connection: PortConnection,
    /// The direction in which the signal leaves or enters the macro.
    pub facing: Direction,
    /// The cells from which a route may start.
    pub escape: Vec<Position>,
}

/// A reusable layout with its pins.
#[derive(Clone, Debug)]
pub struct MacroTemplate {
    pub name: String,
    /// The implementation variant of this template.
    pub variant: String,
    pub size: DimSize,
    /// Blocks in coordinates of the macro, whose origin is the first cell.
    pub blocks: Vec<Placed>,
    /// Cells that routing must not occupy.
    pub forbidden_routing_cells: Vec<Position>,
    pub pins: Vec<MacroPin>,
    /// How many cells around the macro stay free.
    pub halo: usize,
    pub allowed_rotations: Vec<MacroRotation>,
    /// Whether the template came from a validated layout.
    pub verified: bool,
}

/// A placed macro.
#[derive(Clone, Debug)]
pub struct MacroInstance {
    pub id: usize,
    pub macro_name: String,
    pub position: Position,
    pub rotation: MacroRotation,
}

/// One pin of one instance.
#[derive(Clone, Debug)]
pub struct PinRef {
    pub instance: usize,
    pub pin: String,
}

/// The hard conflicts of a placement.
#[derive(Clone, Debug)]
pub struct PlacementLegality {
    /// Pairs of instances whose footprints intersect.
    pub overlaps: Vec<(usize, usize)>,
    /// Instances with a block cell outside the world.
    pub out_of_bounds: Vec<(usize, Position)>,
}

impl PlacementLegality {
    pub fn is_legal(&self) -> (legal: bool)
        ensures
            legal == (self.overlaps@.len() == 0 && self.out_of_bounds@.len() == 0),
    {
        self.overlaps.len() == 0 && self.out_of_bounds.len() == 0
    }
}

impl Default for PlacementLegality {
    fn default() -> (legality: Self)
        ensures
            legality.overlaps@.len() == 0,
            legality.out_of_bounds@.len() == 0,
    {
        PlacementLegality { overlaps: Vec::new(), out_of_bounds: Vec::new() }
    }
}

/// A net: one driver and any number of sinks.
#[derive(Clone, Debug)]
pub struct PhysicalNet {
    pub name: String,
    pub source: PinRef,
    pub sinks: Vec<PinRef>,
    /// The route, once there is one.
    pub route: Option<Vec<Position>>,
    /// The regions that the route passes, once they are known.
    pub region_sequence: Option<Vec<usize>>,
    /// Congestion met while routing this net.
    pub congestion: usize,
}

// ---------------------------------------------------------------------------
// Facings
// ---------------------------------------------------------------------------
/// Whether escape cell `left` is preferred to `right` as seen from a pin: it is
/// nearer, or as near and first in cell order.
pub open spec fn escapes_before(position: Position, left: Position, right: Position) -> bool {
    if distance(left, position) != distance(right, position) {
        distance(left, position) < distance(right, position)
    } else {
        position_before(left, right)
    }
}

/// Whether a cell is the preferred one of the escape cells other than the pin
/// itself.
pub open spec fn is_nearest_escape(position: Position, escape: Seq<Position>, cell: Position) -> bool {
    &&& escape.contains(cell)
    &&& cell != position
    &&& forall|i: int|
        0 <= i < escape.len() && #[trigger] escape[i] != position ==> !escapes_before(position, escape[i], cell)
}

/// The first side, in the order west, east, south, north, bottom, top, of a box
/// at which a cell lies.
pub open spec fn side_of(position: Position, size: DimSize) -> Direction {
    if position.0 == 0 {
        Direction::West
    } else if position.0 + 1 >= size.0 {
        Direction::East
    } else if position.1 == 0 {
        Direction::South
    } else if position.1 + 1 >= size.1 {
        Direction::North
    } else if position.2 == 0 {
        Direction::Bottom
    } else if position.2 + 1 >= size.2 {
        Direction::Top
    } else {
        Direction::Unset
    }
}

/// Whether a pin faces its nearest escape cell, or else the side that it lies
/// at.
pub open spec fn is_facing(position: Position, size: DimSize, escape: Seq<Position>, facing: Direction) -> bool {
    if exists|i: int| 0 <= i < escape.len() && #[trigger] escape[i] != position {
        exists|cell: Position| #[trigger]
            is_nearest_escape(position, escape, cell) && facing == step_towards(position, cell)
    } else {
        facing == side_of(position, size)
    }
}

/// The direction that a pin faces.
pub fn derive_facing(position: Position, size: DimSize, escape: &Vec<Position>) -> (facing: Direction)
    requires
        forall|i: int| 0 <= i < escape.len() ==> distance(#[trigger] escape[i], position) <= usize::MAX,
    ensures
        is_facing(position, size, escape@, facing),
{
    let mut best: Option<Position> = None;
    let mut index: usize = 0;
    while index < escape.len()
        invariant
            index <= escape.len(),
            forall|i: int| 0 <= i < escape.len() ==> distance(#[trigger] escape[i], position) <= usize::MAX,
            match best {
                Some(cell) => is_nearest_escape(position, escape@.take(index as int), cell),
                None => forall|i: int| 0 <= i < index ==> #[trigger] escape[i] == position,
            },
        decreases escape.len() - index,
    {
        let cell = escape[index];
        let ghost seen = escape@.take(index as int);
        let ghost now = escape@.take(index + 1);
        proof {
            assert(now =~= seen.push(cell));
            assert(now[index as int] == cell);
            assert forall|other: Position| #[trigger] seen.contains(other) implies now.contains(other) by {
                let i = choose|i: int| 0 <= i < seen.len() && seen[i] == other;
                assert(now[i] == other);
            }
            assert forall|i: int| 0 <= i < index implies #[trigger] now[i] == escape[i] by {}
        }
        if cell != position {
            let nearer = match best {
                Some(known) => {
                    proof {
                        let k = choose|k: int| 0 <= k < seen.len() && seen[k] == known;
                        assert(escape[k] == known);
                    }
                    let near: usize = cell.manhattan_distance(&position);
                    let far: usize = known.manhattan_distance(&position);
                    if near != far {
                        near < far
                    } else {
                        cell.is_before(&known)
                    }
                },
                None => true,
            };
            if nearer {
                proof {
                    assert forall|i: int| 0 <= i < now.len() && #[trigger] now[i] != position implies !escapes_before(
                        position,
                        now[i],
                        cell,
                    ) by {
                        if i < index {
                            assert(seen[i] == now[i]);
                            assert(best is Some);
                            assert(!escapes_before(position, seen[i], best->0));
                        }
                    }
                }
                best = Some(cell);
            } else {
                proof {
                    assert forall|i: int| 0 <= i < now.len() && #[trigger] now[i] != position implies !escapes_before(
                        position,
                        now[i],
                        best->0,
                    ) by {
                        if i < index {
                            assert(seen[i] == now[i]);
                        }
                    }
                }
            }
        } else {
            proof {
                if best is Some {
                    assert forall|i: int| 0 <= i < now.len() && #[trigger] now[i] != position implies !escapes_before(
                        position,
                        now[i],
                        best->0,
                    ) by {
                        if i < index {
                            assert(seen[i] == now[i]);
                        }
                    }
                }
            }
        }
        index += 1;
    }
    assert(escape@.take(index as int) =~= escape@);
    match best {
        Some(cell) => {
            proof {
                let i = choose|i: int| 0 <= i < escape.len() && escape@[i] == cell;
                assert(escape@[i] != position);
            }
            position.diff(cell)
        },
        None => boundary_facing(position, size),
    }
}

/// The side that a cell lies at.
fn boundary_facing(position: Position, size: DimSize) -> (facing: Direction)
    ensures
        facing == side_of(position, size),
{
    if position.0 == 0 {
        Direction::West
    } else if size.0 == 0 || position.0 >= size.0 - 1 {
        Direction::East
    } else if position.1 == 0 {
        Direction::South
    } else if size.1 == 0 || position.1 >= size.1 - 1 {
        Direction::North
    } else if position.2 == 0 {
        Direction::Bottom
    } else if size.2 == 0 || position.2 >= size.2 - 1 {
        Direction::Top
    } else {
        Direction::Unset
    }
}

// ---------------------------------------------------------------------------
// Templates
// ---------------------------------------------------------------------------
/// Whether no coordinate of a cell is smaller than that of an origin.
pub open spec fn is_above(origin: Position, position: Position) -> bool {
    origin.0 <= position.0 && origin.1 <= position.1 && origin.2 <= position.2
}

/// A cell as seen from an origin.
pub open spec fn local(origin: Position, position: Position) -> Position {
    Position(
        (position.0 - origin.0) as usize,
        (position.1 - origin.1) as usize,
        (position.2 - origin.2) as usize,
    )
}

fn local_cell(origin: Position, position: Position) -> (cell: Position)
    requires
        is_above(origin, position),
    ensures
        cell == local(origin, position),
{
    Position(position.0 - origin.0, position.1 - origin.1, position.2 - origin.2)
}

/// Whether a cell of a macro stays in range when the macro stands at an origin.
pub open spec fn shift_fits(origin: Position, cell: Position) -> bool {
    &&& origin.0 + cell.0 <= usize::MAX
    &&& origin.1 + cell.1 <= usize::MAX
    &&& origin.2 + cell.2 <= usize::MAX
}

/// A cell of a macro that stands at an origin.
pub open spec fn shifted(origin: Position, cell: Position) -> Position {
    Position((origin.0 + cell.0) as usize, (origin.1 + cell.1) as usize, (origin.2 + cell.2) as usize)
}

/// A cell of a macro that stands at an origin.
pub fn shift_cell(origin: Position, cell: Position) -> (position: Position)
    requires
        shift_fits(origin, cell),
    ensures
        position == shifted(origin, cell),
{
    Position(origin.0 + cell.0, origin.1 + cell.1, origin.2 + cell.2)
}

/// The cells of a list as seen from an origin.
pub open spec fn local_cells(origin: Position, cells: Seq<Position>) -> Seq<Position> {
    cells.map_values(|cell: Position| local(origin, cell))
}

/// Whether a list holds the same cells as another, in order and each once.
pub open spec fn lists_sorted(sorted: Seq<Position>, cells: Seq<Position>) -> bool {
    &&& is_sorted(sorted)
    &&& forall|cell: Position| #[trigger] sorted.contains(cell) <==> cells.contains(cell)
}

/// Whether a pin is the port of a layout as seen from an origin.
pub open spec fn is_pin_of(pin: MacroPin, port: PhysicalPort, origin: Position, size: DimSize) -> bool {
    &&& pin.name@ == port.name@
    &&& pin.position == local(origin, port.position)
    &&& pin.direction == port.direction
    &&& pin.connection == port.connection
    &&& lists_sorted(pin.escape@, local_cells(origin, port.access_points@))
    &&& is_facing(pin.position, size, pin.escape@, pin.facing)
}

/// The names of some ports.
pub open spec fn port_names(ports: Seq<PhysicalPort>) -> Seq<Seq<char>> {
    ports.map_values(|port: PhysicalPort| port.name@)
}

/// Whether pins are the ports of a layout as seen from an origin, by name.
pub open spec fn are_pins_of(pins: Seq<MacroPin>, ports: Seq<PhysicalPort>, origin: Position, size: DimSize) -> bool {
    exists|order: Seq<usize>| #[trigger]
        is_text_order(port_names(ports), order) && pins.len() == ports.len() && forall|i: int|
            0 <= i < pins.len() ==> is_pin_of(#[trigger] pins[i], ports[order[i] as int], origin, size)
}

/// The size of a box.
pub open spec fn box_size(bbox: BoundingBox) -> DimSize {
    let extent = box_extent(bbox);
    DimSize(extent.0 as usize, extent.1 as usize, extent.2 as usize)
}

/// Whether a layout's box lies below all that belongs to the layout.
pub open spec fn candidate_fits(candidate: LayoutCandidate) -> bool {
    let origin = candidate.bbox.min;
    &&& box_wf(candidate.bbox)
    &&& forall|i: int|
        0 <= i < candidate.world.listed().len() ==> is_above(origin, (#[trigger] candidate.world.listed()[i]).0)
    &&& forall|i: int|
        0 <= i < candidate.blocked_cells@.len() ==> is_above(origin, #[trigger] candidate.blocked_cells@[i])
    &&& forall|i: int|
        0 <= i < candidate.ports@.len() ==> port_fits(origin, #[trigger] candidate.ports@[i])
}

pub open spec fn port_fits(origin: Position, port: PhysicalPort) -> bool {
    &&& is_above(origin, port.position)
    &&& forall|i: int|
        0 <= i < port.access_points@.len() ==> is_above(origin, #[trigger] port.access_points@[i]) && distance(
            port.access_points@[i],
            port.position,
        ) <= usize::MAX
}

/// Whether a template is a layout moved to the origin.
pub open spec fn is_template_of(template: MacroTemplate, candidate: LayoutCandidate, variant: Seq<char>) -> bool {
    let origin = candidate.bbox.min;
    &&& template.name@ == candidate.module_name@
    &&& template.variant@ == variant
    &&& template.size == box_size(candidate.bbox)
    &&& template.blocks@ == candidate.world.listed().map_values(|placed: Placed| (local(origin, placed.0), placed.1))
    &&& are_pins_of(template.pins@, candidate.ports@, origin, template.size)
    &&& lists_sorted(template.forbidden_routing_cells@, local_cells(origin, candidate.blocked_cells@))
    &&& template.halo == candidate.halo
    &&& template.allowed_rotations@ == seq![MacroRotation::Unrotated]
    &&& template.verified
}

fn localize(origin: Position, cells: &Vec<Position>) -> (sorted: Vec<Position>)
    requires
        forall|i: int| 0 <= i < cells.len() ==> is_above(origin, #[trigger] cells[i]),
    ensures
        lists_sorted(sorted@, local_cells(origin, cells@)),
{
    let mut moved: Vec<Position> = Vec::new();
    let mut index: usize = 0;
    while index < cells.len()
        invariant
            index <= cells.len(),
            forall|i: int| 0 <= i < cells.len() ==> is_above(origin, #[trigger] cells[i]),
            moved.len() == index,
            forall|i: int| 0 <= i < index ==> #[trigger] moved[i] == local(origin, cells[i]),
        decreases cells.len() - index,
    {
        moved.push(local_cell(origin, cells[index]));
        index += 1;
    }
    assert(moved@ =~= local_cells(origin, cells@));
    sorted_cells(&moved)
}

fn pin_of(port: &PhysicalPort, origin: Position, size: DimSize) -> (pin: MacroPin)
    requires
        port_fits(origin, *port),
    ensures
        is_pin_of(pin, *port, origin, size),
{
    let escape = localize(origin, &port.access_points);
    let position = local_cell(origin, port.position);
    proof {
        let moved = local_cells(origin, port.access_points@);
        assert forall|i: int| 0 <= i < escape.len() implies distance(#[trigger] escape[i], position) <= usize::MAX by {
            assert(escape@.contains(escape[i]));
            let k = choose|k: int| 0 <= k < moved.len() && moved[k] == escape[i];
            let access = port.access_points@[k];
            assert(distance(local(origin, access), position) == distance(access, port.position));
        }
    }
    let facing = derive_facing(position, size, &escape);
    MacroPin {
        name: port.name.clone(),
        position,
        direction: port.direction,
        connection: port.connection,
        facing,
        escape,
    }
}

/// The first pin of a name from pin `start` on.
pub open spec fn pin_from(pins: Seq<MacroPin>, name: Seq<char>, start: nat) -> Option<MacroPin>
    decreases pins.len() - start,
{
    if start >= pins.len() {
        None
    } else if pins[start as int].name@ == name {
        Some(pins[start as int])
    } else {
        pin_from(pins, name, start + 1)
    }
}

/// The pin of a name.
pub open spec fn pin_named(template: MacroTemplate, name: Seq<char>) -> Option<MacroPin> {
    pin_from(template.pins@, name, 0)
}

/// The axis along which a block of a macro leaves the range of coordinates.
pub open spec fn overflow_axis(origin: Position, cell: Position) -> Axis {
    if origin.0 + cell.0 > usize::MAX {
        Axis::X
    } else if origin.1 + cell.1 > usize::MAX {
        Axis::Y
    } else {
        Axis::Z
    }
}

/// The first `count` blocks of a macro that stands at an origin, or the axis of
/// the first one that leaves the range of coordinates.
pub open spec fn shifted_blocks(origin: Position, blocks: Seq<Placed>, count: nat) -> Result<Seq<Placed>, Axis>
    decreases count,
{
    if count == 0 {
        Ok(Seq::empty())
    } else {
        match shifted_blocks(origin, blocks, (count - 1) as nat) {
            Err(axis) => Err(axis),
            Ok(placed) => {
                let block = blocks[count - 1];
                if shift_fits(origin, block.0) {
                    Ok(placed.push((shifted(origin, block.0), block.1)))
                } else {
                    Err(overflow_axis(origin, block.0))
                }
            },
        }
    }
}

/// The blocks of a macro that is placed.
pub open spec fn instantiated(
    template: MacroTemplate,
    origin: Position,
    rotation: MacroRotation,
) -> Result<Seq<Placed>, PlacementErrorView> {
    if rotation != MacroRotation::Unrotated {
        Err(PlacementErrorView::UnsupportedRotation { template: template.name@, rotation })
    } else {
        match shifted_blocks(origin, template.blocks@, template.blocks@.len()) {
            Ok(placed) => Ok(placed),
            Err(axis) => Err(PlacementErrorView::BlockOverflow(axis)),
        }
    }
}

/// A failure stays one.
proof fn shifted_blocks_fail(origin: Position, blocks: Seq<Placed>, low: nat, high: nat)
    requires
        low <= high <= blocks.len(),
        shifted_blocks(origin, blocks, low) is Err,
    ensures
        shifted_blocks(origin, blocks, high) == shifted_blocks(origin, blocks, low),
    decreases high,
{
    if low < high {
        shifted_blocks_fail(origin, blocks, low, (high - 1) as nat);
    }
}

/// Blocks that stay in range are all placed.
pub proof fn shifted_blocks_all(origin: Position, blocks: Seq<Placed>, count: nat)
    requires
        count <= blocks.len(),
        forall|i: int| 0 <= i < count ==> shift_fits(origin, (#[trigger] blocks[i]).0),
    ensures
        shifted_blocks(origin, blocks, count) is Ok,
        shifted_blocks(origin, blocks, count)->Ok_0.len() == count,
        forall|i: int|
            0 <= i < count ==> #[trigger] shifted_blocks(origin, blocks, count)->Ok_0[i] == (
                shifted(origin, blocks[i].0),
                blocks[i].1,
            ),
    decreases count,
{
    if count > 0 {
        shifted_blocks_all(origin, blocks, (count - 1) as nat);
    }
}

/// Whether a result holds the blocks that are expected, or an error with the
/// expected contents.
pub open spec fn agrees_on_blocks(
    result: Result<Vec<Placed>, PlacementError>,
    expected: Result<Seq<Placed>, PlacementErrorView>,
) -> bool {
    match result {
        Ok(placed) => expected == Ok::<Seq<Placed>, PlacementErrorView>(placed@),
        Err(error) => expected == Err::<Seq<Placed>, PlacementErrorView>(error@),
    }
}

/// Where a pin of a macro that stands at an origin is.
pub open spec fn placed_pin(
    template: MacroTemplate,
    origin: Position,
    name: Seq<char>,
) -> Result<Position, PlacementErrorView> {
    match pin_named(template, name) {
        Some(pin) => Ok(shifted(origin, pin.position)),
        None => Err(PlacementErrorView::MissingPin { template: template.name@, pin: name }),
    }
}

/// Whether a pin of a macro that stands at an origin is in range.
pub open spec fn placed_pin_fits(template: MacroTemplate, origin: Position, name: Seq<char>) -> bool {
    pin_named(template, name) matches Some(pin) ==> shift_fits(origin, pin.position)
}

impl MacroTemplate {
    /// The template of a layout: blocks, pins, access points and blocked cells
    /// as seen from the first cell of the layout's box.
    pub fn from_candidate(candidate: &LayoutCandidate, variant: &str) -> (template: Self)
        requires
            candidate_fits(*candidate),
        ensures
            is_template_of(template, *candidate, variant@),
    {
        let origin = candidate.bbox.min;
        let size = DimSize(candidate.bbox.width(), candidate.bbox.depth(), candidate.bbox.height());
        let listed = candidate.world.iter_block();
        let mut blocks: Vec<Placed> = Vec::new();
        let mut index: usize = 0;
        while index < listed.len()
            invariant
                index <= listed.len(),
                listed@ == candidate.world.listed(),
                origin == candidate.bbox.min,
                candidate_fits(*candidate),
                blocks.len() == index,
                forall|i: int|
                    0 <= i < index ==> #[trigger] blocks[i] == (local(origin, listed[i].0), listed[i].1),
            decreases listed.len() - index,
        {
            assert(is_above(origin, candidate.world.listed()[index as int].0));
            blocks.push((local_cell(origin, listed[index].0), listed[index].1));
            index += 1;
        }
        assert(blocks@ =~= candidate.world.listed().map_values(
            |placed: Placed| (local(origin, placed.0), placed.1),
        ));
        let mut names: Vec<String> = Vec::new();
        let mut index: usize = 0;
        while index < candidate.ports.len()
            invariant
                index <= candidate.ports.len(),
                names.len() == index,
                forall|i: int| 0 <= i < index ==> (#[trigger] names[i])@ == candidate.ports[i].name@,
            decreases candidate.ports.len() - index,
        {
            names.push(candidate.ports[index].name.clone());
            index += 1;
        }
        let order = text_order(&names);
        assert(texts(names@) =~= port_names(candidate.ports@));
        let mut pins: Vec<MacroPin> = Vec::new();
        let mut index: usize = 0;
        while index < order.len()
            invariant
                index <= order.len(),
                is_text_order(port_names(candidate.ports@), order@),
                candidate_fits(*candidate),
                origin == candidate.bbox.min,
                pins.len() == index,
                forall|i: int|
                    0 <= i < index ==> is_pin_of(#[trigger] pins[i], candidate.ports@[order[i] as int], origin, size),
            decreases order.len() - index,
        {
            let place: usize = order[index];
            assert(order@[index as int] < candidate.ports@.len());
            assert(port_fits(origin, candidate.ports@[place as int]));
            let pin = pin_of(&candidate.ports[place], origin, size);
            pins.push(pin);
            index += 1;
        }
        let forbidden_routing_cells = localize(origin, &candidate.blocked_cells);
        let allowed_rotations = vec![MacroRotation::Unrotated];
        assert(allowed_rotations@ =~= seq![MacroRotation::Unrotated]);
        assert(are_pins_of(pins@, candidate.ports@, origin, size));
        MacroTemplate {
            name: candidate.module_name.clone(),
            variant: variant.to_string(),
            size,
            blocks,
            forbidden_routing_cells,
            pins,
            halo: candidate.halo,
            allowed_rotations,
            verified: true,
        }
    }

    /// The pin of a name.
    pub fn pin(&self, name: &str) -> (pin: Option<&MacroPin>)
        ensures
            match pin {
                Some(pin) => pin_named(*self, name@) == Some(*pin),
                None => pin_named(*self, name@) is None,
            },
    {
        let mut index: usize = 0;
        while index < self.pins.len()
            invariant
                index <= self.pins.len(),
                pin_named(*self, name@) == pin_from(self.pins@, name@, index as nat),
            decreases self.pins.len() - index,
        {
            if same_text(self.pins[index].name.as_str(), name) {
                return Some(&self.pins[index]);
            }
            index += 1;
        }
        None
    }

    /// The blocks of an instance of this macro.
    pub fn instantiate(&self, origin: Position, rotation: MacroRotation) -> (result: Result<
        Vec<Placed>,
        PlacementError,
    >)
        ensures
            agrees_on_blocks(result, instantiated(*self, origin, rotation)),
    {
        if !rotation.is_identity() {
            return Err(PlacementError::UnsupportedRotation { template: self.name.clone(), rotation });
        }
        let mut placed: Vec<Placed> = Vec::new();
        let mut index: usize = 0;
        while index < self.blocks.len()
            invariant
                index <= self.blocks.len(),
                rotation == MacroRotation::Unrotated,
                shifted_blocks(origin, self.blocks@, index as nat) == Ok::<Seq<Placed>, Axis>(placed@),
            decreases self.blocks.len() - index,
        {
            let cell = self.blocks[index].0;
            let ghost next = (index + 1) as nat;
            if origin.0 > usize::MAX - cell.0 {
                proof {
                    shifted_blocks_fail(origin, self.blocks@, next, self.blocks@.len());
                }
                return Err(PlacementError::BlockOverflow(Axis::X));
            }
            if origin.1 > usize::MAX - cell.1 {
                proof {
                    shifted_blocks_fail(origin, self.blocks@, next, self.blocks@.len());
                }
                return Err(PlacementError::BlockOverflow(Axis::Y));
            }
            if origin.2 > usize::MAX - cell.2 {
                proof {
                    shifted_blocks_fail(origin, self.blocks@, next, self.blocks@.len());
                }
                return Err(PlacementError::BlockOverflow(Axis::Z));
            }
            placed.push((shift_cell(origin, cell), self.blocks[index].1));
            index += 1;
        }
        Ok(placed)
    }

    /// Where a pin of an instance is.
    pub fn pin_position(&self, origin: Position, pin: &str) -> (result: Result<Position, PlacementError>)
        requires
            placed_pin_fits(*self, origin, pin@),
        ensures
            agrees(result, placed_pin(*self, origin, pin@)),
    {
        match self.pin(pin) {
            Some(found) => Ok(shift_cell(origin, found.position)),
            None => Err(
                PlacementError::MissingPin { template: self.name.clone(), pin: pin.to_string() },
            ),
        }
    }
}

/// A template of a layout, placed where the layout's box begins, gives back the
/// layout's blocks.
pub proof fn template_restores_layout(template: MacroTemplate, candidate: LayoutCandidate, variant: Seq<char>)
    requires
        candidate_fits(candidate),
        is_template_of(template, candidate, variant),
    ensures
        instantiated(template, candidate.bbox.min, MacroRotation::Unrotated) == Ok::<Seq<Placed>, PlacementErrorView>(
            candidate.world.listed(),
        ),
{
    let origin = candidate.bbox.min;
    let listed = candidate.world.listed();
    assert forall|i: int| 0 <= i < template.blocks@.len() implies shift_fits(
        origin,
        (#[trigger] template.blocks@[i]).0,
    ) && shifted(origin, template.blocks@[i].0) == listed[i].0 by {
        assert(is_above(origin, listed[i].0));
    }
    shifted_blocks_all(origin, template.blocks@, template.blocks@.len());
    assert(shifted_blocks(origin, template.blocks@, template.blocks@.len())->Ok_0 =~= listed);
}

} // verus!

//! The blocks of a placement, and the world that they make up.

use super::placement_error::{agrees, PlacementError, PlacementErrorView};
use super::placement_ir::{
    agrees_on_blocks, instantiated, pin_named, shift_fits, shifted, shifted_blocks_all, MacroInstance, MacroRotation,
    MacroTemplate, PhysicalNet, PinRef, PlacementLegality,
};
use super::placement_problem::{
    agrees_on_number, bounding_box_of, boxes_meet, far_corner, find_macro, footprint_box, footprint_fits, footprints,
    footprints_fit, instance_pin_position, instance_template, is_overlap, lists_overlaps, macro_from, macro_named,
    net_fits, net_half_perimeter_of, net_length, nets_fit, ordered_pair, overlaps_of, pin_place, pin_place_fits, template_of,
    wire_length, wire_length_of, Footprint, PlacementProblem,
};
use crate::order::{insert_ascending, is_ascending};
use crate::text::same_text;
use crate::world::block::{air, Block};
use crate::world::grid::{Placed, World3D};
use crate::world::position::{in_bounds, DimSize, Direction, Position};
use vstd::prelude::*;

verus! {

/// The blocks of an instance.
pub open spec fn blocks_of(
    macros: Seq<MacroTemplate>,
    instances: Seq<MacroInstance>,
    instance: usize,
) -> Result<Seq<Placed>, PlacementErrorView> {
    if instance >= instances.len() {
        Err(PlacementErrorView::UnknownInstance(instance))
    } else {
        let placed = instances[instance as int];
        match template_of(macros, instances, placed.id) {
            Err(error) => Err(error),
            Ok(template) => instantiated(template, placed.position, placed.rotation),
        }
    }
}

fn instance_blocks_of(
    macros: &Vec<MacroTemplate>,
    instances: &Vec<MacroInstance>,
    instance: usize,
) -> (result: Result<Vec<Placed>, PlacementError>)
    ensures
        agrees_on_blocks(result, blocks_of(macros@, instances@, instance)),
{
    if instance >= instances.len() {
        return Err(PlacementError::UnknownInstance(instance));
    }
    let placed = &instances[instance];
    match instance_template(macros, instances, placed.id) {
        Err(error) => Err(error),
        Ok(template) => template.instantiate(placed.position, placed.rotation),
    }
}

// ---------------------------------------------------------------------------
// Bounds
// ---------------------------------------------------------------------------
/// Whether block `k` of instance `i` lies outside a world.
pub open spec fn is_outside(
    macros: Seq<MacroTemplate>,
    instances: Seq<MacroInstance>,
    size: DimSize,
    i: int,
    k: int,
    cell: (usize, Position),
) -> bool {
    &&& 0 <= i < instances.len()
    &&& cell.0 == instances[i].id
    &&& blocks_of(macros, instances, cell.0) matches Ok(blocks) && 0 <= k < blocks.len() && blocks[k].0 == cell.1
    &&& !in_bounds(size, cell.1)
}

/// Whether cells are the ones of blocks outside a world, in order and each once.
pub open spec fn lists_outside(
    cells: Seq<(usize, Position)>,
    macros: Seq<MacroTemplate>,
    instances: Seq<MacroInstance>,
    size: DimSize,
) -> bool {
    &&& is_ascending(cells)
    &&& forall|cell: (usize, Position)| #[trigger]
        cells.contains(cell) <==> exists|i: int, k: int| #[trigger] is_outside(macros, instances, size, i, k, cell)
}

spec fn outside_seen(
    macros: Seq<MacroTemplate>,
    instances: Seq<MacroInstance>,
    size: DimSize,
    index: int,
    part: int,
    cell: (usize, Position),
) -> bool {
    exists|i: int, k: int| #[trigger]
        is_outside(macros, instances, size, i, k, cell) && (i < index || i == index && k < part)
}

proof fn outside_seen_all(
    macros: Seq<MacroTemplate>,
    instances: Seq<MacroInstance>,
    size: DimSize,
    index: int,
    count: int,
    cell: (usize, Position),
)
    requires
        0 <= index < instances.len(),
        match blocks_of(macros, instances, instances[index].id) {
            Ok(blocks) => count == blocks.len(),
            Err(_) => count == 0,
        },
    ensures
        outside_seen(macros, instances, size, index, count, cell) == outside_seen(
            macros,
            instances,
            size,
            index + 1,
            0,
            cell,
        ),
{
    if outside_seen(macros, instances, size, index, count, cell) {
        let (i, k) = choose|i: int, k: int| #[trigger]
            is_outside(macros, instances, size, i, k, cell) && (i < index || i == index && k < count);
        assert(is_outside(macros, instances, size, i, k, cell));
    }
    if outside_seen(macros, instances, size, index + 1, 0, cell) {
        let (i, k) = choose|i: int, k: int| #[trigger]
            is_outside(macros, instances, size, i, k, cell) && (i < index + 1 || i == index + 1 && k < 0);
        assert(is_outside(macros, instances, size, i, k, cell));
    }
}

fn out_of_bounds_of(
    macros: &Vec<MacroTemplate>,
    instances: &Vec<MacroInstance>,
    size: DimSize,
) -> (cells: Vec<(usize, Position)>)
    ensures
        lists_outside(cells@, macros@, instances@, size),
{
    let ghost m = macros@;
    let ghost n = instances@;
    let mut cells: Vec<(usize, Position)> = Vec::new();
    let mut index: usize = 0;
    while index < instances.len()
        invariant
            m == macros@,
            n == instances@,
            index <= instances.len(),
            is_ascending(cells@),
            forall|cell: (usize, Position)| #[trigger]
                cells@.contains(cell) <==> outside_seen(m, n, size, index as int, 0, cell),
        decreases instances.len() - index,
    {
        let id: usize = instances[index].id;
        match instance_blocks_of(macros, instances, id) {
            Err(_) => {
                proof {
                    assert forall|cell: (usize, Position)| #[trigger] cells@.contains(cell) <==> outside_seen(
                        m,
                        n,
                        size,
                        index + 1,
                        0,
                        cell,
                    ) by {
                        outside_seen_all(m, n, size, index as int, 0, cell);
                    }
                }
            },
            Ok(blocks) => {
                let mut part: usize = 0;
                while part < blocks.len()
                    invariant
                        m == macros@,
                        n == instances@,
                        index < instances.len(),
                        id == n[index as int].id,
                        blocks_of(m, n, id) == Ok::<Seq<Placed>, PlacementErrorView>(blocks@),
                        part <= blocks.len(),
                        is_ascending(cells@),
                        forall|cell: (usize, Position)| #[trigger]
                            cells@.contains(cell) <==> outside_seen(m, n, size, index as int, part as int, cell),
                    decreases blocks.len() - part,
                {
                    let position = blocks[part].0;
                    let outside = !size.bound_on(position);
                    let ghost before = cells@;
                    if outside {
                        insert_ascending(&mut cells, (id, position));
                    }
                    proof {
                        let now = (id, position);
                        assert forall|cell: (usize, Position)| #[trigger] cells@.contains(cell) <==> outside_seen(
                            m,
                            n,
                            size,
                            index as int,
                            part + 1,
                            cell,
                        ) by {
                            assert(before.contains(cell) <==> outside_seen(m, n, size, index as int, part as int, cell));
                            if outside_seen(m, n, size, index as int, part as int, cell) {
                                let (i, k) = choose|i: int, k: int| #[trigger]
                                    is_outside(m, n, size, i, k, cell) && (i < index || i == index && k < part);
                                assert(is_outside(m, n, size, i, k, cell));
                            }
                            if outside && cell == now {
                                assert(is_outside(m, n, size, index as int, part as int, cell));
                            }
                            if outside_seen(m, n, size, index as int, part + 1, cell) {
                                let (i, k) = choose|i: int, k: int| #[trigger]
                                    is_outside(m, n, size, i, k, cell) && (i < index || i == index && k < part + 1);
                                assert(is_outside(m, n, size, i, k, cell));
                            }
                        }
                    }
                    part += 1;
                }
                proof {
                    assert forall|cell: (usize, Position)| #[trigger] cells@.contains(cell) <==> outside_seen(
                        m,
                        n,
                        size,
                        index + 1,
                        0,
                        cell,
                    ) by {
                        outside_seen_all(m, n, size, index as int, part as int, cell);
                    }
                }
            },
        }
        index += 1;
    }
    proof {
        assert forall|cell: (usize, Position)| #[trigger] cells@.contains(cell) <==> exists|i: int, k: int| #[trigger]
            is_outside(m, n, size, i, k, cell) by {
            assert(cells@.contains(cell) <==> outside_seen(m, n, size, index as int, 0, cell));
            if exists|i: int, k: int| #[trigger] is_outside(m, n, size, i, k, cell) {
                let (i, k) = choose|i: int, k: int| #[trigger] is_outside(m, n, size, i, k, cell);
                assert(is_outside(m, n, size, i, k, cell) && i < index);
            }
        }
    }
    cells
}

/// The conflicts of a placement in a world.
pub fn legality_of(macros: &Vec<MacroTemplate>, instances: &Vec<MacroInstance>, size: DimSize) -> (legality:
    PlacementLegality)
    requires
        footprints_fit(macros@, instances@),
    ensures
        lists_overlaps(legality.overlaps@, footprints(macros@, instances@, instances@.len())),
        lists_outside(legality.out_of_bounds@, macros@, instances@, size),
{
    PlacementLegality {
        overlaps: overlaps_of(macros, instances),
        out_of_bounds: out_of_bounds_of(macros, instances, size),
    }
}

// ---------------------------------------------------------------------------
// Worlds
// ---------------------------------------------------------------------------
/// The cells of a world after the first `count` blocks of an instance, or the
/// first block that does not fit.
pub open spec fn stamped(
    cells: Map<Position, Block>,
    size: DimSize,
    instance: usize,
    blocks: Seq<Placed>,
    count: nat,
) -> Result<Map<Position, Block>, PlacementErrorView>
    decreases count,
{
    if count == 0 {
        Ok(cells)
    } else {
        match stamped(cells, size, instance, blocks, (count - 1) as nat) {
            Err(error) => Err(error),
            Ok(map) => {
                let position = blocks[count - 1].0;
                let block = blocks[count - 1].1;
                if !in_bounds(size, position) {
                    Err(PlacementErrorView::OutOfBounds { instance, position })
                } else if map.contains_key(position) {
                    Err(PlacementErrorView::Overlap { instance, position })
                } else if block.kind is Air {
                    Ok(map)
                } else {
                    Ok(map.insert(position, block))
                }
            },
        }
    }
}

/// The cells of a world that holds the first `count` instances, or the first
/// thing that goes wrong.
pub open spec fn composed(
    macros: Seq<MacroTemplate>,
    instances: Seq<MacroInstance>,
    size: DimSize,
    count: nat,
) -> Result<Map<Position, Block>, PlacementErrorView>
    decreases count,
{
    if count == 0 {
        Ok(Map::empty())
    } else {
        match composed(macros, instances, size, (count - 1) as nat) {
            Err(error) => Err(error),
            Ok(cells) => {
                let instance = instances[count - 1];
                match template_of(macros, instances, instance.id) {
                    Err(error) => Err(error),
                    Ok(template) => match instantiated(template, instance.position, instance.rotation) {
                        Err(error) => Err(error),
                        Ok(blocks) => stamped(cells, size, instance.id, blocks, blocks.len()),
                    },
                }
            },
        }
    }
}

/// Whether a world holds the blocks of a map and air elsewhere.
pub open spec fn world_is(world: World3D, size: DimSize, cells: Map<Position, Block>) -> bool {
    &&& world.wf()
    &&& world.size == size
    &&& forall|position: Position| #[trigger]
        world.at(position) == (if cells.contains_key(position) {
            cells[position]
        } else {
            air()
        })
    &&& forall|position: Position| #[trigger] cells.contains_key(position) ==> !(cells[position].kind is Air)
}

proof fn stamped_fails(
    cells: Map<Position, Block>,
    size: DimSize,
    instance: usize,
    blocks: Seq<Placed>,
    low: nat,
    high: nat,
)
    requires
        low <= high <= blocks.len(),
        stamped(cells, size, instance, blocks, low) is Err,
    ensures
        stamped(cells, size, instance, blocks, high) == stamped(cells, size, instance, blocks, low),
    decreases high,
{
    if low < high {
        stamped_fails(cells, size, instance, blocks, low, (high - 1) as nat);
    }
}

proof fn composed_fails(
    macros: Seq<MacroTemplate>,
    instances: Seq<MacroInstance>,
    size: DimSize,
    low: nat,
    high: nat,
)
    requires
        low <= high <= instances.len(),
        composed(macros, instances, size, low) is Err,
    ensures
        composed(macros, instances, size, high) == composed(macros, instances, size, low),
    decreases high,
{
    if low < high {
        composed_fails(macros, instances, size, low, (high - 1) as nat);
    }
}

/// Puts the blocks of an instance into a world.
fn stamp(world: &mut World3D, instance: usize, blocks: &Vec<Placed>, Ghost(cells): Ghost<Map<Position, Block>>) -> (result:
    Result<(), PlacementError>)
    requires
        world_is(*old(world), old(world).size, cells),
    ensures
        final(world).size == old(world).size,
        match result {
            Ok(_) => {
                &&& stamped(cells, old(world).size, instance, blocks@, blocks@.len()) is Ok
                &&& world_is(
                    *final(world),
                    old(world).size,
                    stamped(cells, old(world).size, instance, blocks@, blocks@.len())->Ok_0,
                )
            },
            Err(error) => stamped(cells, old(world).size, instance, blocks@, blocks@.len()) == Err::<
                Map<Position, Block>,
                PlacementErrorView,
            >(error@),
        },
{
    let ghost size = world.size;
    let ghost mut now = cells;
    let mut index: usize = 0;
    while index < blocks.len()
        invariant
            index <= blocks.len(),
            size == old(world).size,
            world_is(*world, size, now),
            stamped(cells, size, instance, blocks@, index as nat) == Ok::<Map<Position, Block>, PlacementErrorView>(
                now,
            ),
        decreases blocks.len() - index,
    {
        let position = blocks[index].0;
        let block = blocks[index].1;
        if !world.size.bound_on(position) {
            proof {
                stamped_fails(cells, size, instance, blocks@, (index + 1) as nat, blocks@.len());
            }
            return Err(PlacementError::OutOfBounds { instance, position });
        }
        if !world.get(position).kind.is_air() {
            proof {
                assert(world.at(position) != air());
                stamped_fails(cells, size, instance, blocks@, (index + 1) as nat, blocks@.len());
            }
            return Err(PlacementError::Overlap { instance, position });
        }
        proof {
            assert(!now.contains_key(position));
        }
        world.set(position, block);
        proof {
            if !(block.kind is Air) {
                now = now.insert(position, block);
            }
        }
        index += 1;
    }
    Ok(())
}

/// The world of a placement.
pub fn world_of(macros: &Vec<MacroTemplate>, instances: &Vec<MacroInstance>, size: DimSize) -> (result: Result<
    World3D,
    PlacementError,
>)
    ensures
        match result {
            Ok(world) => {
                &&& composed(macros@, instances@, size, instances@.len()) is Ok
                &&& world_is(world, size, composed(macros@, instances@, size, instances@.len())->Ok_0)
            },
            Err(error) => composed(macros@, instances@, size, instances@.len()) == Err::<
                Map<Position, Block>,
                PlacementErrorView,
            >(error@),
        },
{
    let mut world = World3D::new(size);
    let ghost mut cells = Map::<Position, Block>::empty();
    let mut index: usize = 0;
    while index < instances.len()
        invariant
            index <= instances.len(),
            world_is(world, size, cells),
            composed(macros@, instances@, size, index as nat) == Ok::<Map<Position, Block>, PlacementErrorView>(
                cells,
            ),
        decreases instances.len() - index,
    {
        let ghost next = (index + 1) as nat;
        let ghost count = instances@.len();
        let instance = &instances[index];
        let template = match instance_template(macros, instances, instance.id) {
            Err(error) => {
                proof {
                    composed_fails(macros@, instances@, size, next, count);
                }
                return Err(error);
            },
            Ok(template) => template,
        };
        let blocks = match template.instantiate(instance.position, instance.rotation) {
            Err(error) => {
                proof {
                    composed_fails(macros@, instances@, size, next, count);
                }
                return Err(error);
            },
            Ok(blocks) => blocks,
        };
        match stamp(&mut world, instance.id, &blocks, Ghost(cells)) {
            Err(error) => {
                proof {
                    composed_fails(macros@, instances@, size, next, count);
                }
                return Err(error);
            },
            Ok(_) => {
                proof {
                    cells = stamped(cells, size, instance.id, blocks@, blocks@.len())->Ok_0;
                }
            },
        }
        index += 1;
    }
    Ok(world)
}

// ---------------------------------------------------------------------------
// Problems
// ---------------------------------------------------------------------------
/// Whether no two macros have one name.
pub open spec fn distinct_macros(macros: Seq<MacroTemplate>) -> bool {
    forall|i: int, j: int| 0 <= i < j < macros.len() ==> (#[trigger] macros[i]).name@ != (#[trigger] macros[j]).name@
}

proof fn no_macro_from(macros: Seq<MacroTemplate>, name: Seq<char>, start: nat)
    requires
        forall|i: int| start <= i < macros.len() ==> (#[trigger] macros[i]).name@ != name,
    ensures
        macro_from(macros, name, start) is None,
    decreases macros.len() - start,
{
    if start < macros.len() {
        no_macro_from(macros, name, start + 1);
    }
}

/// The first macro of a name is the one at an index before which none has it.
proof fn macro_from_index(macros: Seq<MacroTemplate>, name: Seq<char>, start: nat, index: nat)
    requires
        start <= index <= macros.len(),
        forall|i: int| start <= i < index ==> (#[trigger] macros[i]).name@ != name,
        index < macros.len() ==> macros[index as int].name@ == name,
    ensures
        macro_from(macros, name, start) == (if index < macros.len() {
            Some(macros[index as int])
        } else {
            None
        }),
    decreases index - start,
{
    if start < index {
        macro_from_index(macros, name, start + 1, index);
    }
}

/// Changing one macro leaves the others.
proof fn macro_from_other(left: Seq<MacroTemplate>, right: Seq<MacroTemplate>, name: Seq<char>, start: nat, at: int)
    requires
        left.len() <= right.len() <= left.len() + 1,
        0 <= at < right.len(),
        right.len() > left.len() ==> at == left.len(),
        right[at].name@ != name,
        at < left.len() ==> left[at].name@ != name,
        forall|i: int| 0 <= i < left.len() && i != at ==> #[trigger] left[i] == right[i],
    ensures
        macro_from(left, name, start) == macro_from(right, name, start),
    decreases right.len() - start,
{
    if start < right.len() {
        macro_from_other(left, right, name, start + 1, at);
        if start != at {
            assert(left[start as int] == right[start as int]);
        }
    }
}

impl Default for PlacementProblem {
    fn default() -> (problem: Self)
        ensures
            problem.macros@.len() == 0,
            problem.instances@.len() == 0,
            problem.nets@.len() == 0,
    {
        PlacementProblem::new()
    }
}

impl PlacementProblem {
    /// A problem without macros, instances and nets.
    pub fn new() -> (problem: Self)
        ensures
            problem.macros@.len() == 0,
            problem.instances@.len() == 0,
            problem.nets@.len() == 0,
    {
        PlacementProblem { macros: Vec::new(), instances: Vec::new(), nets: Vec::new() }
    }

    /// Adds a macro, in place of one of the same name.
    pub fn add_macro(&mut self, template: MacroTemplate)
        ensures
            final(self).instances@ == old(self).instances@,
            final(self).nets@ == old(self).nets@,
            forall|name: Seq<char>| #[trigger]
                macro_named(final(self).macros@, name) == (if name == template.name@ {
                    Some(template)
                } else {
                    macro_named(old(self).macros@, name)
                }),
            final(self).macros@.len() == old(self).macros@.len() + (if macro_named(
                old(self).macros@,
                template.name@,
            ) is None {
                1int
            } else {
                0
            }),
            distinct_macros(old(self).macros@) ==> distinct_macros(final(self).macros@),
            forall|i: int|
                0 <= i < final(self).macros@.len() ==> (#[trigger] final(self).macros@[i]) == template
                    || old(self).macros@.contains(final(self).macros@[i]),
    {
        let ghost before = self.macros@;
        let mut index: usize = 0;
        while index < self.macros.len() && !same_text(self.macros[index].name.as_str(), template.name.as_str())
            invariant
                index <= self.macros.len(),
                self.macros@ == before,
                self.instances@ == old(self).instances@,
                self.nets@ == old(self).nets@,
                forall|i: int| 0 <= i < index ==> (#[trigger] before[i]).name@ != template.name@,
            decreases self.macros.len() - index,
        {
            index += 1;
        }
        let ghost added = template;
        proof {
            if index < before.len() {
                macro_from_index(before, added.name@, 0, index as nat);
            } else {
                no_macro_from(before, added.name@, 0);
            }
        }
        if index < self.macros.len() {
            self.macros[index] = template;
        } else {
            self.macros.push(template);
        }
        proof {
            let after = self.macros@;
            assert(after[index as int] == added);
            macro_from_index(after, added.name@, 0, index as nat);
            assert forall|name: Seq<char>| name != added.name@ implies #[trigger] macro_named(after, name)
                == macro_named(before, name) by {
                macro_from_other(before, after, name, 0, index as int);
            }
            assert forall|i: int| 0 <= i < after.len() implies (#[trigger] after[i]) == added || before.contains(
                after[i],
            ) by {
                if i != index {
                    assert(before[i] == after[i]);
                }
            }
            if distinct_macros(before) {
                assert forall|i: int, j: int| 0 <= i < j < after.len() implies (#[trigger] after[i]).name@ != (
                #[trigger] after[j]).name@ by {
                    assert(i != index ==> after[i] == before[i]);
                    assert(j != index ==> after[j] == before[j]);
                    assert(j != index && i == index ==> before[i].name@ == added.name@);
                }
            }
        }
    }

    /// Adds an instance of a macro that there is, and returns its number.
    pub fn add_instance(&mut self, macro_name: &str, position: Position, rotation: MacroRotation) -> (result: Result<
        usize,
        PlacementError,
    >)
        ensures
            final(self).macros@ == old(self).macros@,
            final(self).nets@ == old(self).nets@,
            match result {
                Ok(id) => {
                    &&& macro_named(old(self).macros@, macro_name@) is Some
                    &&& id == old(self).instances@.len()
                    &&& final(self).instances@.len() == id + 1
                    &&& final(self).instances@.drop_last() == old(self).instances@
                    &&& final(self).instances@.last().id == id
                    &&& final(self).instances@.last().macro_name@ == macro_name@
                    &&& final(self).instances@.last().position == position
                    &&& final(self).instances@.last().rotation == rotation
                },
                Err(error) => {
                    &&& macro_named(old(self).macros@, macro_name@) is None
                    &&& error@ == PlacementErrorView::UnknownMacro(macro_name@)
                    &&& final(self).instances@ == old(self).instances@
                },
            },
    {
        if find_macro(&self.macros, macro_name).is_none() {
            return Err(PlacementError::UnknownMacro(macro_name.to_string()));
        }
        let id: usize = self.instances.len();
        self.instances.push(MacroInstance { id, macro_name: macro_name.to_string(), position, rotation });
        assert(self.instances@.drop_last() =~= old(self).instances@);
        Ok(id)
    }

    /// The macro of an instance.
    pub fn template_for(&self, instance: usize) -> (result: Result<&MacroTemplate, PlacementError>)
        ensures
            match result {
                Ok(template) => template_of(self.macros@, self.instances@, instance) == Ok::<
                    MacroTemplate,
                    PlacementErrorView,
                >(*template),
                Err(error) => template_of(self.macros@, self.instances@, instance) == Err::<
                    MacroTemplate,
                    PlacementErrorView,
                >(error@),
            },
    {
        instance_template(&self.macros, &self.instances, instance)
    }

    /// Where a pin is.
    pub fn pin_position(&self, reference: &PinRef) -> (result: Result<Position, PlacementError>)
        requires
            pin_place_fits(self.macros@, self.instances@, *reference),
        ensures
            agrees(result, pin_place(self.macros@, self.instances@, *reference)),
    {
        instance_pin_position(&self.macros, &self.instances, reference)
    }

    /// The direction that a pin faces.
    pub fn pin_facing(&self, reference: &PinRef) -> (result: Result<Direction, PlacementError>)
        ensures
            agrees(
                result,
                match template_of(self.macros@, self.instances@, reference.instance) {
                    Err(error) => Err(error),
                    Ok(template) => match pin_named(template, reference.pin@) {
                        Some(pin) => Ok(pin.facing),
                        None => Err(
                            (PlacementErrorView::MissingPin { template: template.name@, pin: reference.pin@ }),
                        ),
                    },
                },
            ),
    {
        match self.template_for(reference.instance) {
            Err(error) => Err(error),
            Ok(template) => match template.pin(reference.pin.as_str()) {
                Some(pin) => Ok(pin.facing),
                None => Err(
                    PlacementError::MissingPin { template: template.name.clone(), pin: reference.pin.clone() },
                ),
            },
        }
    }

    /// The blocks of an instance.
    pub fn instance_blocks(&self, instance: usize) -> (result: Result<Vec<Placed>, PlacementError>)
        ensures
            agrees_on_blocks(result, blocks_of(self.macros@, self.instances@, instance)),
    {
        instance_blocks_of(&self.macros, &self.instances, instance)
    }

    /// The pairs of instances whose footprints intersect: the whole box of a
    /// macro is reserved, not only its blocks.
    pub fn overlaps(&self) -> (pairs: Vec<(usize, usize)>)
        requires
            footprints_fit(self.macros@, self.instances@),
        ensures
            lists_overlaps(pairs@, footprints(self.macros@, self.instances@, self.instances@.len())),
    {
        overlaps_of(&self.macros, &self.instances)
    }

    /// The block cells that fall outside a world.
    pub fn out_of_bounds(&self, size: DimSize) -> (cells: Vec<(usize, Position)>)
        ensures
            lists_outside(cells@, self.macros@, self.instances@, size),
    {
        out_of_bounds_of(&self.macros, &self.instances, size)
    }

    /// The conflicts of the placement in a world.
    pub fn legality(&self, size: DimSize) -> (legality: PlacementLegality)
        requires
            footprints_fit(self.macros@, self.instances@),
        ensures
            lists_overlaps(legality.overlaps@, footprints(self.macros@, self.instances@, self.instances@.len())),
            lists_outside(legality.out_of_bounds@, self.macros@, self.instances@, size),
    {
        legality_of(&self.macros, &self.instances, size)
    }

    /// The smallest box around the footprints of all instances.
    pub fn bounding_box(&self) -> (bbox: Option<(Position, Position)>)
        requires
            footprints_fit(self.macros@, self.instances@),
        ensures
            bbox == footprint_box(footprints(self.macros@, self.instances@, self.instances@.len())),
    {
        bounding_box_of(&self.macros, &self.instances)
    }

    /// Half the perimeter of the box around the pins of a net.
    pub fn net_half_perimeter(&self, net: &PhysicalNet) -> (result: Result<usize, PlacementError>)
        requires
            net_fits(self.macros@, self.instances@, *net),
        ensures
            agrees_on_number(result, net_length(self.macros@, self.instances@, *net)),
    {
        net_half_perimeter_of(&self.macros, &self.instances, net)
    }

    /// The world of the placement. A block outside the world, or in a cell that
    /// is taken, is refused.
    pub fn to_world(&self, size: DimSize) -> (result: Result<World3D, PlacementError>)
        ensures
            match result {
                Ok(world) => {
                    &&& composed(self.macros@, self.instances@, size, self.instances@.len()) is Ok
                    &&& world_is(
                        world,
                        size,
                        composed(self.macros@, self.instances@, size, self.instances@.len())->Ok_0,
                    )
                },
                Err(error) => composed(self.macros@, self.instances@, size, self.instances@.len()) == Err::<
                    Map<Position, Block>,
                    PlacementErrorView,
                >(error@),
            },
    {
        world_of(&self.macros, &self.instances, size)
    }

    /// The length of all nets.
    pub fn estimate_wire_length(&self) -> (result: Result<usize, PlacementError>)
        requires
            nets_fit(self.macros@, self.instances@, self.nets@),
        ensures
            agrees_on_number(result, wire_length(self.macros@, self.instances@, self.nets@, self.nets@.len())),
    {
        wire_length_of(&self.macros, &self.instances, &self.nets)
    }
}

// ---------------------------------------------------------------------------
// Legal placements
// ---------------------------------------------------------------------------
/// Whether the blocks of a macro stand inside its box, no two in one cell.
pub open spec fn is_sound(template: MacroTemplate) -> bool {
    &&& forall|i: int| 0 <= i < template.blocks@.len() ==> in_bounds(template.size, (#[trigger] template.blocks@[i]).0)
    &&& forall|i: int, j: int|
        0 <= i < j < template.blocks@.len() ==> (#[trigger] template.blocks@[i]).0 != (#[trigger] template.blocks@[j]).0
}

/// Whether every instance stands under its own number, unrotated and in range,
/// and has a sound macro.
pub open spec fn is_regular(macros: Seq<MacroTemplate>, instances: Seq<MacroInstance>, index: int) -> bool {
    &&& instances[index].id == index
    &&& instances[index].rotation == MacroRotation::Unrotated
    &&& template_of(macros, instances, index as usize) matches Ok(template) && is_sound(template) && footprint_fits(
        template,
        instances[index].position,
    )
}

proof fn footprints_regular(macros: Seq<MacroTemplate>, instances: Seq<MacroInstance>, count: nat)
    requires
        count <= instances.len() <= usize::MAX,
        forall|i: int| 0 <= i < instances.len() ==> #[trigger] is_regular(macros, instances, i),
    ensures
        footprints(macros, instances, count).len() == count,
        forall|i: int|
            0 <= i < count ==> #[trigger] footprints(macros, instances, count)[i] == own_footprint(
                macros,
                instances,
                i,
            ),
    decreases count,
{
    if count > 0 {
        footprints_regular(macros, instances, (count - 1) as nat);
        assert(is_regular(macros, instances, count - 1));
    }
}

/// The footprint of an instance that has a macro.
pub open spec fn own_footprint(macros: Seq<MacroTemplate>, instances: Seq<MacroInstance>, index: int) -> Footprint {
    let instance = instances[index];
    let template = template_of(macros, instances, index as usize)->Ok_0;
    Footprint { id: instance.id, min: instance.position, max: far_corner(template, instance.position) }
}

spec fn footprint_holds(footprint: Footprint, position: Position) -> bool {
    boxes_meet(footprint.min, footprint.max, position, position)
}

spec fn held_before(macros: Seq<MacroTemplate>, instances: Seq<MacroInstance>, count: nat, position: Position) -> bool {
    exists|i: int| 0 <= i < count && footprint_holds(#[trigger] own_footprint(macros, instances, i), position)
}

/// The blocks of a regular instance.
proof fn regular_blocks(macros: Seq<MacroTemplate>, instances: Seq<MacroInstance>, index: int)
    requires
        0 <= index < instances.len() <= usize::MAX,
        is_regular(macros, instances, index),
    ensures
        ({
            let template = template_of(macros, instances, index as usize)->Ok_0;
            let origin = instances[index].position;
            &&& blocks_of(macros, instances, index as usize) is Ok
            &&& instantiated(template, origin, MacroRotation::Unrotated) == blocks_of(macros, instances, index as usize)
            &&& blocks_of(macros, instances, index as usize)->Ok_0.len() == template.blocks@.len()
            &&& forall|k: int|
                0 <= k < template.blocks@.len() ==> {
                    let cell = (#[trigger] blocks_of(macros, instances, index as usize)->Ok_0[k]).0;
                    &&& cell == shifted(origin, template.blocks@[k].0)
                    &&& shift_fits(origin, template.blocks@[k].0)
                    &&& footprint_holds(own_footprint(macros, instances, index), cell)
                }
        }),
{
    let template = template_of(macros, instances, index as usize)->Ok_0;
    let origin = instances[index].position;
    assert forall|k: int| 0 <= k < template.blocks@.len() implies shift_fits(
        origin,
        (#[trigger] template.blocks@[k]).0,
    ) by {
        assert(in_bounds(template.size, template.blocks@[k].0));
    }
    shifted_blocks_all(origin, template.blocks@, template.blocks@.len());
}

/// Putting blocks into free cells of a world succeeds.
proof fn stamping_succeeds(
    cells: Map<Position, Block>,
    size: DimSize,
    instance: usize,
    blocks: Seq<Placed>,
    count: nat,
)
    requires
        count <= blocks.len(),
        forall|k: int|
            0 <= k < blocks.len() ==> in_bounds(size, (#[trigger] blocks[k]).0) && !cells.contains_key(blocks[k].0),
        forall|i: int, j: int| 0 <= i < j < blocks.len() ==> (#[trigger] blocks[i]).0 != (#[trigger] blocks[j]).0,
    ensures
        stamped(cells, size, instance, blocks, count) is Ok,
        forall|position: Position| #[trigger]
            stamped(cells, size, instance, blocks, count)->Ok_0.contains_key(position) ==> cells.contains_key(position)
                || exists|k: int| 0 <= k < count && (#[trigger] blocks[k]).0 == position,
    decreases count,
{
    if count > 0 {
        let last = count - 1;
        stamping_succeeds(cells, size, instance, blocks, last as nat);
        let map = stamped(cells, size, instance, blocks, last as nat)->Ok_0;
        if map.contains_key(blocks[last].0) {
            let k = choose|k: int| 0 <= k < last && (#[trigger] blocks[k]).0 == blocks[last].0;
            assert(blocks[k].0 != blocks[last].0);
        }
        assert forall|position: Position| #[trigger]
            stamped(cells, size, instance, blocks, count)->Ok_0.contains_key(position) implies cells.contains_key(
            position,
        ) || exists|k: int| 0 <= k < count && (#[trigger] blocks[k]).0 == position by {
            if map.contains_key(position) {
                if !cells.contains_key(position) {
                    let k = choose|k: int| 0 <= k < last && (#[trigger] blocks[k]).0 == position;
                    assert(blocks[k].0 == position);
                }
            } else {
                assert(blocks[last].0 == position);
            }
        }
    }
}

proof fn composing_succeeds(
    macros: Seq<MacroTemplate>,
    instances: Seq<MacroInstance>,
    size: DimSize,
    count: nat,
)
    requires
        count <= instances.len() <= usize::MAX,
        forall|i: int| 0 <= i < instances.len() ==> #[trigger] is_regular(macros, instances, i),
        lists_overlaps(Seq::empty(), footprints(macros, instances, instances.len())),
        lists_outside(Seq::empty(), macros, instances, size),
    ensures
        composed(macros, instances, size, count) is Ok,
        forall|position: Position| #[trigger]
            composed(macros, instances, size, count)->Ok_0.contains_key(position) ==> held_before(
                macros,
                instances,
                count,
                position,
            ),
    decreases count,
{
    if count > 0 {
        let last = count - 1;
        composing_succeeds(macros, instances, size, last as nat);
        assert(is_regular(macros, instances, last));
        regular_blocks(macros, instances, last);
        footprints_regular(macros, instances, instances.len());
        let cells = composed(macros, instances, size, last as nat)->Ok_0;
        let blocks = blocks_of(macros, instances, last as usize)->Ok_0;
        let template = template_of(macros, instances, last as usize)->Ok_0;
        let list = footprints(macros, instances, instances.len());
        assert forall|k: int| 0 <= k < blocks.len() implies in_bounds(size, (#[trigger] blocks[k]).0)
            && !cells.contains_key(blocks[k].0) by {
            let cell = (instances[last].id, blocks[k].0);
            if !in_bounds(size, blocks[k].0) {
                assert(is_outside(macros, instances, size, last, k, cell));
                assert(Seq::<(usize, Position)>::empty().contains(cell));
            }
            if cells.contains_key(blocks[k].0) {
                let i = choose|i: int|
                    0 <= i < last && footprint_holds(#[trigger] own_footprint(macros, instances, i), blocks[k].0);
                assert(list[i] == own_footprint(macros, instances, i));
                assert(list[last] == own_footprint(macros, instances, last));
                let pair = ordered_pair(list[i].id, list[last].id);
                assert(is_overlap(list, i, last, pair));
                assert(Seq::<(usize, usize)>::empty().contains(pair));
            }
        }
        assert forall|i: int, j: int| 0 <= i < j < blocks.len() implies (#[trigger] blocks[i]).0 != (
        #[trigger] blocks[j]).0 by {
            assert(template.blocks@[i].0 != template.blocks@[j].0);
        }
        stamping_succeeds(cells, size, last as usize, blocks, blocks.len());
        assert forall|position: Position| #[trigger]
            composed(macros, instances, size, count)->Ok_0.contains_key(position) implies held_before(
            macros,
            instances,
            count,
            position,
        ) by {
            if cells.contains_key(position) {
                let i = choose|i: int|
                    0 <= i < last && footprint_holds(#[trigger] own_footprint(macros, instances, i), position);
                assert(footprint_holds(own_footprint(macros, instances, i), position));
            } else {
                assert(footprint_holds(own_footprint(macros, instances, last), position));
            }
        }
    }
}

/// A placement without conflicts makes a world.
pub proof fn legal_placement_makes_world(macros: Seq<MacroTemplate>, instances: Seq<MacroInstance>, size: DimSize)
    requires
        instances.len() <= usize::MAX,
        forall|i: int| 0 <= i < instances.len() ==> #[trigger] is_regular(macros, instances, i),
        lists_overlaps(Seq::empty(), footprints(macros, instances, instances.len())),
        lists_outside(Seq::empty(), macros, instances, size),
    ensures
        composed(macros, instances, size, instances.len()) is Ok,
{
    composing_succeeds(macros, instances, size, instances.len());
}

} // verus!

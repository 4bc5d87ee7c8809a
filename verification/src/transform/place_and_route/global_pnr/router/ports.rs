//! Where the ports and blocks of placed modules are.

use crate::text::same_text;
use crate::transform::place_and_route::global_pnr::ir::{
    access_cells, LayoutCandidate, PhysicalPort, PortConnection,
};
use crate::transform::place_and_route::global_pnr::route_engine::negotiation::is_finisher;
use crate::world::block::{air, Block};
use crate::world::grid::{BoundingBox, Placed, World3D};
use crate::world::position::{insert_sorted, is_sorted, DimSize, Position};
use vstd::prelude::*;

verus! {

/// How many cells of room there are around the blocks of a world.
pub const GLOBAL_ROUTE_PADDING: usize = 8;

/// A module that was placed: one of its layouts, and where it begins.
#[derive(Clone, Debug)]
pub struct PlacedModule {
    pub module_name: String,
    pub candidate_index: usize,
    pub origin: Position,
    pub bbox: BoundingBox,
}

/// A port that a route is to reach.
#[derive(Clone, Copy, Debug, PartialEq, Eq, Structural)]
pub struct ResolvedPortTarget {
    pub position: Position,
    pub requires_input_diode: bool,
    pub input_repeater_delay: usize,
}

/// A cell of a layout that was placed.
pub open spec fn placed_cell(position: Position, candidate: LayoutCandidate, placed: PlacedModule) -> Position {
    let min = candidate.bbox.min;
    Position(
        (placed.origin.0 + position.0 - min.0) as usize,
        (placed.origin.1 + position.1 - min.1) as usize,
        (placed.origin.2 + position.2 - min.2) as usize,
    )
}

/// Whether a cell of a layout stays in range when the layout is placed.
pub open spec fn cell_fits(position: Position, candidate: LayoutCandidate, placed: PlacedModule) -> bool {
    let min = candidate.bbox.min;
    &&& min.0 <= placed.origin.0 + position.0 <= usize::MAX
    &&& min.1 <= placed.origin.1 + position.1 <= usize::MAX
    &&& min.2 <= placed.origin.2 + position.2 <= usize::MAX
}

/// A cell of a layout that was placed.
pub fn translate_candidate_position(
    position: Position,
    candidate: &LayoutCandidate,
    placed: &PlacedModule,
) -> (cell: Position)
    requires
        cell_fits(position, *candidate, *placed),
    ensures
        cell == placed_cell(position, *candidate, *placed),
{
    Position(
        placed.origin.0 + position.0 - candidate.bbox.min.0,
        placed.origin.1 + position.1 - candidate.bbox.min.1,
        placed.origin.2 + position.2 - candidate.bbox.min.2,
    )
}

// ---------------------------------------------------------------------------
// Ports
// ---------------------------------------------------------------------------
/// The first placed module of a name, from `start` on.
pub open spec fn module_from(placed: Seq<PlacedModule>, name: Seq<char>, start: nat) -> Option<PlacedModule>
    decreases placed.len() - start,
{
    if start >= placed.len() {
        None
    } else if placed[start as int].module_name@ == name {
        Some(placed[start as int])
    } else {
        module_from(placed, name, start + 1)
    }
}

/// The first port of a name, from `start` on.
pub open spec fn port_from(ports: Seq<PhysicalPort>, name: Seq<char>, start: nat) -> Option<PhysicalPort>
    decreases ports.len() - start,
{
    if start >= ports.len() {
        None
    } else if ports[start as int].name@ == name {
        Some(ports[start as int])
    } else {
        port_from(ports, name, start + 1)
    }
}

/// A port with the layout that it is part of, and where that was placed.
pub ghost struct FoundPort {
    pub port: PhysicalPort,
    pub candidate: LayoutCandidate,
    pub placed: PlacedModule,
}

/// The port of a placed module.
pub open spec fn found_port(
    candidates: Seq<LayoutCandidate>,
    placed: Seq<PlacedModule>,
    module: Seq<char>,
    port: Seq<char>,
) -> Option<FoundPort> {
    match module_from(placed, module, 0) {
        None => None,
        Some(placed) => if placed.candidate_index >= candidates.len() {
            None
        } else {
            let candidate = candidates[placed.candidate_index as int];
            match port_from(candidate.ports@, port, 0) {
                None => None,
                Some(port) => Some(FoundPort { port, candidate, placed }),
            }
        },
    }
}

/// The port of a placed module, with its layout and where that was placed.
pub fn resolve_port<'a>(
    candidates: &'a Vec<LayoutCandidate>,
    placed_modules: &'a Vec<PlacedModule>,
    module_name: &str,
    port_name: &str,
) -> (found: Option<(&'a PhysicalPort, &'a LayoutCandidate, &'a PlacedModule)>)
    ensures
        match found {
            Some(found) => found_port(candidates@, placed_modules@, module_name@, port_name@) == Some(
                FoundPort { port: *found.0, candidate: *found.1, placed: *found.2 },
            ),
            None => found_port(candidates@, placed_modules@, module_name@, port_name@) is None,
        },
{
    let mut index: usize = 0;
    while index < placed_modules.len() && !same_text(placed_modules[index].module_name.as_str(), module_name)
        invariant
            index <= placed_modules.len(),
            module_from(placed_modules@, module_name@, 0) == module_from(placed_modules@, module_name@, index as nat),
        decreases placed_modules.len() - index,
    {
        index += 1;
    }
    if index == placed_modules.len() {
        return None;
    }
    let placed = &placed_modules[index];
    if placed.candidate_index >= candidates.len() {
        return None;
    }
    let candidate = &candidates[placed.candidate_index];
    let mut at: usize = 0;
    while at < candidate.ports.len() && !same_text(candidate.ports[at].name.as_str(), port_name)
        invariant
            at <= candidate.ports.len(),
            port_from(candidate.ports@, port_name@, 0) == port_from(candidate.ports@, port_name@, at as nat),
        decreases candidate.ports.len() - at,
    {
        at += 1;
    }
    if at == candidate.ports.len() {
        return None;
    }
    Some((&candidate.ports[at], candidate, placed))
}

/// Whether the cells of a port stay in range.
pub open spec fn port_in_range(found: FoundPort) -> bool {
    &&& cell_fits(found.port.position, found.candidate, found.placed)
    &&& forall|i: int|
        0 <= i < access_cells(found.port).len() ==> cell_fits(
            #[trigger] access_cells(found.port)[i],
            found.candidate,
            found.placed,
        )
}

/// Whether the cells of a port stay in range, if there is such a port.
pub open spec fn ports_fit(
    candidates: Seq<LayoutCandidate>,
    placed: Seq<PlacedModule>,
    module: Seq<char>,
    port: Seq<char>,
) -> bool {
    found_port(candidates, placed, module, port) matches Some(found) ==> port_in_range(found)
}

/// The target of a port: the first cell at which a route may reach it.
pub open spec fn target_of_port(found: FoundPort) -> ResolvedPortTarget {
    ResolvedPortTarget {
        position: placed_cell(access_cells(found.port)[0], found.candidate, found.placed),
        requires_input_diode: found.port.connection == PortConnection::InputDiode,
        input_repeater_delay: 1,
    }
}

/// The targets of a port: one where it was placed, else none.
pub open spec fn port_targets(
    candidates: Seq<LayoutCandidate>,
    placed: Seq<PlacedModule>,
    module: Seq<char>,
    port: Seq<char>,
) -> Seq<ResolvedPortTarget> {
    match found_port(candidates, placed, module, port) {
        None => Seq::empty(),
        Some(found) => seq![target_of_port(found)],
    }
}

/// The targets of a port.
pub fn resolve_port_targets(
    candidates: &Vec<LayoutCandidate>,
    placed_modules: &Vec<PlacedModule>,
    module_name: &str,
    port_name: &str,
) -> (targets: Vec<ResolvedPortTarget>)
    requires
        ports_fit(candidates@, placed_modules@, module_name@, port_name@),
    ensures
        targets@ == port_targets(candidates@, placed_modules@, module_name@, port_name@),
{
    let mut targets: Vec<ResolvedPortTarget> = Vec::new();
    if let Some(found) = resolve_port(candidates, placed_modules, module_name, port_name) {
        let (port, candidate, placed) = found;
        let cells = port.routing_access_positions();
        let ghost known = FoundPort { port: *port, candidate: *candidate, placed: *placed };
        assert(cell_fits(access_cells(known.port)[0], known.candidate, known.placed));
        let position = cells[0];
        targets.push(
            ResolvedPortTarget {
                position: translate_candidate_position(position, candidate, placed),
                requires_input_diode: port.requires_input_diode(),
                input_repeater_delay: 1,
            },
        );
    }
    assert(targets@ =~= port_targets(candidates@, placed_modules@, module_name@, port_name@));
    targets
}

/// Where the signal of a port can be seen.
pub fn resolve_observable_port_position(
    candidates: &Vec<LayoutCandidate>,
    placed_modules: &Vec<PlacedModule>,
    module_name: &str,
    port_name: &str,
) -> (cell: Option<Position>)
    requires
        ports_fit(candidates@, placed_modules@, module_name@, port_name@),
    ensures
        cell == (match found_port(candidates@, placed_modules@, module_name@, port_name@) {
            None => None,
            Some(found) => Some(placed_cell(access_cells(found.port)[0], found.candidate, found.placed)),
        }),
{
    match resolve_port(candidates, placed_modules, module_name, port_name) {
        None => None,
        Some(found) => {
            let (port, candidate, placed) = found;
            let cells = port.routing_access_positions();
            let ghost known = FoundPort { port: *port, candidate: *candidate, placed: *placed };
            assert(cell_fits(access_cells(known.port)[0], known.candidate, known.placed));
            Some(translate_candidate_position(cells[0], candidate, placed))
        },
    }
}

/// Whether cells are those at which a route may reach a placed port, in order.
pub open spec fn are_access_cells(found: FoundPort, cells: Seq<Position>) -> bool {
    &&& is_sorted(cells)
    &&& forall|cell: Position| #[trigger]
        cells.contains(cell) <==> exists|i: int|
            0 <= i < access_cells(found.port).len() && cell == placed_cell(
                #[trigger] access_cells(found.port)[i],
                found.candidate,
                found.placed,
            )
}

/// The cells at which a route may reach a placed port, in order.
pub fn translate_port_access_positions(
    port: &PhysicalPort,
    candidate: &LayoutCandidate,
    placed: &PlacedModule,
) -> (cells: Vec<Position>)
    requires
        port_in_range(FoundPort { port: *port, candidate: *candidate, placed: *placed }),
    ensures
        are_access_cells(FoundPort { port: *port, candidate: *candidate, placed: *placed }, cells@),
        cells.len() > 0,
{
    let ghost found = FoundPort { port: *port, candidate: *candidate, placed: *placed };
    let local = port.routing_access_positions();
    let ghost all = access_cells(*port);
    let mut cells: Vec<Position> = Vec::new();
    let mut index: usize = 0;
    while index < local.len()
        invariant
            index <= local.len(),
            local@ == all,
            all == access_cells(found.port),
            found == (FoundPort { port: *port, candidate: *candidate, placed: *placed }),
            port_in_range(found),
            is_sorted(cells@),
            forall|cell: Position| #[trigger]
                cells@.contains(cell) <==> exists|i: int|
                    0 <= i < index && cell == placed_cell(#[trigger] all[i], found.candidate, found.placed),
        decreases local.len() - index,
    {
        let ghost before = cells@;
        assert(cell_fits(access_cells(found.port)[index as int], found.candidate, found.placed));
        let moved = translate_candidate_position(local[index], candidate, placed);
        insert_sorted(&mut cells, moved);
        proof {
            assert forall|cell: Position| #[trigger] cells@.contains(cell) <==> exists|i: int|
                0 <= i < index + 1 && cell == placed_cell(#[trigger] all[i], found.candidate, found.placed) by {
                if before.contains(cell) {
                    let i = choose|i: int|
                        0 <= i < index && cell == placed_cell(#[trigger] all[i], found.candidate, found.placed);
                    assert(cell == placed_cell(all[i], found.candidate, found.placed));
                }
                if cell == moved {
                    assert(cell == placed_cell(all[index as int], found.candidate, found.placed));
                }
            }
        }
        index += 1;
    }
    proof {
        let first = placed_cell(all[0], found.candidate, found.placed);
        assert(cells@.contains(first));
    }
    cells
}

// ---------------------------------------------------------------------------
// Worlds
// ---------------------------------------------------------------------------
/// Why the world of placed modules could not be made.
#[derive(Clone, Copy, Debug, PartialEq, Eq, Structural)]
pub enum PlacedWorldError {
    /// A placed module has no such layout.
    MissingCandidate(usize),
    /// Two modules have a block in one cell.
    Collision(Position),
}

/// Blocks of a layout that was placed.
pub open spec fn moved_blocks(candidate: LayoutCandidate, placed: PlacedModule) -> Seq<Placed> {
    candidate.world.listed().map_values(|block: Placed| (placed_cell(block.0, candidate, placed), block.1))
}

/// The blocks of the first `count` placed modules, or the first layout that
/// there is not.
pub open spec fn placed_blocks(
    candidates: Seq<LayoutCandidate>,
    placed: Seq<PlacedModule>,
    count: nat,
) -> Result<Seq<Placed>, usize>
    decreases count,
{
    if count == 0 {
        Ok(Seq::empty())
    } else {
        match placed_blocks(candidates, placed, (count - 1) as nat) {
            Err(index) => Err(index),
            Ok(blocks) => {
                let module = placed[count - 1];
                if module.candidate_index >= candidates.len() {
                    Err(module.candidate_index)
                } else {
                    Ok(blocks + moved_blocks(candidates[module.candidate_index as int], module))
                }
            },
        }
    }
}

proof fn placed_blocks_fail(candidates: Seq<LayoutCandidate>, placed: Seq<PlacedModule>, low: nat, high: nat)
    requires
        low <= high,
        placed_blocks(candidates, placed, low) is Err,
    ensures
        placed_blocks(candidates, placed, high) == placed_blocks(candidates, placed, low),
    decreases high,
{
    if low < high {
        placed_blocks_fail(candidates, placed, low, (high - 1) as nat);
    }
}

/// Whether the blocks of placed modules stay in range.
pub open spec fn blocks_fit(candidates: Seq<LayoutCandidate>, placed: Seq<PlacedModule>) -> bool {
    forall|i: int, k: int|
        0 <= i < placed.len() && placed[i].candidate_index < candidates.len() && 0 <= k
            < candidates[placed[i].candidate_index as int].world.listed().len() ==> cell_fits(
            (#[trigger] candidates[placed[i].candidate_index as int].world.listed()[k]).0,
            candidates[placed[i].candidate_index as int],
            placed[i],
        )
}

/// The blocks of placed modules.
pub fn translated_candidate_blocks(candidates: &Vec<LayoutCandidate>, placed_modules: &Vec<PlacedModule>) -> (result:
    Result<Vec<Placed>, PlacedWorldError>)
    requires
        blocks_fit(candidates@, placed_modules@),
    ensures
        match placed_blocks(candidates@, placed_modules@, placed_modules@.len()) {
            Ok(blocks) => result matches Ok(list) && list@ == blocks,
            Err(index) => result == Err::<Vec<Placed>, PlacedWorldError>(PlacedWorldError::MissingCandidate(index)),
        },
{
    let mut blocks: Vec<Placed> = Vec::new();
    let mut index: usize = 0;
    while index < placed_modules.len()
        invariant
            index <= placed_modules.len(),
            blocks_fit(candidates@, placed_modules@),
            placed_blocks(candidates@, placed_modules@, index as nat) == Ok::<Seq<Placed>, usize>(blocks@),
        decreases placed_modules.len() - index,
    {
        let placed = &placed_modules[index];
        if placed.candidate_index >= candidates.len() {
            proof {
                placed_blocks_fail(candidates@, placed_modules@, (index + 1) as nat, placed_modules@.len());
            }
            return Err(PlacedWorldError::MissingCandidate(placed.candidate_index));
        }
        let candidate = &candidates[placed.candidate_index];
        let listed = candidate.world.iter_block();
        let ghost start = blocks@;
        let ghost all = moved_blocks(*candidate, *placed);
        assert(start + all.take(0) =~= start);
        let mut part: usize = 0;
        while part < listed.len()
            invariant
                part <= listed.len(),
                index < placed_modules.len(),
                *placed == placed_modules@[index as int],
                placed.candidate_index < candidates.len(),
                *candidate == candidates@[placed.candidate_index as int],
                listed@ == candidate.world.listed(),
                all == moved_blocks(*candidate, *placed),
                blocks_fit(candidates@, placed_modules@),
                blocks@ == start + all.take(part as int),
            decreases listed.len() - part,
        {
            assert(cell_fits(
                candidates@[placed_modules@[index as int].candidate_index as int].world.listed()[part as int].0,
                *candidate,
                *placed,
            ));
            let cell = translate_candidate_position(listed[part].0, candidate, placed);
            blocks.push((cell, listed[part].1));
            assert(all[part as int] == (cell, listed[part as int].1));
            assert(blocks@ =~= start + all.take(part + 1));
            part += 1;
        }
        assert(all.take(part as int) =~= all);
        index += 1;
    }
    Ok(blocks)
}

/// The largest coordinate of the first `count` blocks along x, y and height.
pub open spec fn farthest(blocks: Seq<Placed>, count: nat) -> (usize, usize, usize)
    decreases count,
{
    if count == 0 {
        (0, 0, 0)
    } else {
        let rest = farthest(blocks, (count - 1) as nat);
        let cell = blocks[count - 1].0;
        (
            if cell.0 > rest.0 {
                cell.0
            } else {
                rest.0
            },
            if cell.1 > rest.1 {
                cell.1
            } else {
                rest.1
            },
            if cell.2 > rest.2 {
                cell.2
            } else {
                rest.2
            },
        )
    }
}

proof fn farthest_holds(blocks: Seq<Placed>, count: nat, index: int)
    requires
        0 <= index < count <= blocks.len(),
    ensures
        blocks[index].0.0 <= farthest(blocks, count).0,
        blocks[index].0.1 <= farthest(blocks, count).1,
        blocks[index].0.2 <= farthest(blocks, count).2,
    decreases count,
{
    if index < count - 1 {
        farthest_holds(blocks, (count - 1) as nat, index);
    }
}

/// Whether a world with room around blocks stays in range.
pub open spec fn room_fits(blocks: Seq<Placed>) -> bool {
    let far = farthest(blocks, blocks.len());
    &&& far.0 + GLOBAL_ROUTE_PADDING + 1 <= usize::MAX
    &&& far.1 + GLOBAL_ROUTE_PADDING + 1 <= usize::MAX
    &&& far.2 + GLOBAL_ROUTE_PADDING + 1 <= usize::MAX
}

/// The size of a world with room around blocks.
pub open spec fn roomy_size(blocks: Seq<Placed>) -> DimSize {
    let far = farthest(blocks, blocks.len());
    DimSize(
        (far.0 + GLOBAL_ROUTE_PADDING + 1) as usize,
        (far.1 + GLOBAL_ROUTE_PADDING + 1) as usize,
        (far.2 + GLOBAL_ROUTE_PADDING + 1) as usize,
    )
}

/// The size of a world with room around blocks.
pub fn route_world_size(blocks: &Vec<Placed>) -> (size: DimSize)
    requires
        room_fits(blocks@),
    ensures
        size == roomy_size(blocks@),
{
    let mut x: usize = 0;
    let mut y: usize = 0;
    let mut z: usize = 0;
    let mut index: usize = 0;
    while index < blocks.len()
        invariant
            index <= blocks.len(),
            (x, y, z) == farthest(blocks@, index as nat),
        decreases blocks.len() - index,
    {
        let cell = blocks[index].0;
        if cell.0 > x {
            x = cell.0;
        }
        if cell.1 > y {
            y = cell.1;
        }
        if cell.2 > z {
            z = cell.2;
        }
        index += 1;
    }
    DimSize(x + GLOBAL_ROUTE_PADDING + 1, y + GLOBAL_ROUTE_PADDING + 1, z + GLOBAL_ROUTE_PADDING + 1)
}

/// The cells of a world with the first `count` blocks, or the first cell that
/// would hold two.
pub open spec fn laid(blocks: Seq<Placed>, count: nat) -> Result<Map<Position, Block>, Position>
    decreases count,
{
    if count == 0 {
        Ok(Map::empty())
    } else {
        match laid(blocks, (count - 1) as nat) {
            Err(cell) => Err(cell),
            Ok(cells) => {
                let (cell, block) = blocks[count - 1];
                if cells.contains_key(cell) {
                    Err(cell)
                } else if block.kind is Air {
                    Ok(cells)
                } else {
                    Ok(cells.insert(cell, block))
                }
            },
        }
    }
}

proof fn laid_fails(blocks: Seq<Placed>, low: nat, high: nat)
    requires
        low <= high,
        laid(blocks, low) is Err,
    ensures
        laid(blocks, high) == laid(blocks, low),
    decreases high,
{
    if low < high {
        laid_fails(blocks, low, (high - 1) as nat);
    }
}

/// Whether a world holds the cells of a map, and air elsewhere.
pub open spec fn world_holds(world: World3D, size: DimSize, cells: Map<Position, Block>) -> bool {
    &&& world.wf()
    &&& world.size == size
    &&& forall|cell: Position| #[trigger]
        world.at(cell) == (if cells.contains_key(cell) {
            cells[cell]
        } else {
            air()
        })
    &&& forall|cell: Position| #[trigger] cells.contains_key(cell) ==> !(cells[cell].kind is Air)
}

/// Whether a world is one with the cells of a map, brought into shape.
pub open spec fn is_finished_world<I: Fn(&World3D) -> World3D>(
    finish: &I,
    size: DimSize,
    cells: Map<Position, Block>,
    world: World3D,
) -> bool {
    exists|raw: World3D|
        (#[trigger] world_holds(raw, size, cells)) && call_ensures(*finish, (&raw,), world)
}

/// What making the world of placed modules comes to: all blocks with room around
/// them, brought into shape; or the first layout that there is not, or the first
/// cell that would hold two blocks.
pub open spec fn is_placed_world<I: Fn(&World3D) -> World3D>(
    finish: &I,
    candidates: Seq<LayoutCandidate>,
    placed: Seq<PlacedModule>,
    result: Result<World3D, PlacedWorldError>,
) -> bool {
    match placed_blocks(candidates, placed, placed.len()) {
        Err(index) => result == Err::<World3D, PlacedWorldError>(PlacedWorldError::MissingCandidate(index)),
        Ok(blocks) => match laid(blocks, blocks.len()) {
            Err(cell) => result == Err::<World3D, PlacedWorldError>(PlacedWorldError::Collision(cell)),
            Ok(cells) => result is Ok && is_finished_world(finish, roomy_size(blocks), cells, result->Ok_0),
        },
    }
}

/// Whether the world of placed modules stays in range.
pub open spec fn placement_fits(candidates: Seq<LayoutCandidate>, placed: Seq<PlacedModule>) -> bool {
    &&& blocks_fit(candidates, placed)
    &&& placed_blocks(candidates, placed, placed.len()) matches Ok(blocks) ==> room_fits(blocks)
}

/// The world of placed modules, with room for routes around it.
pub fn placed_candidate_world<I: Fn(&World3D) -> World3D>(
    finish: &I,
    candidates: &Vec<LayoutCandidate>,
    placed_modules: &Vec<PlacedModule>,
) -> (result: Result<World3D, PlacedWorldError>)
    requires
        is_finisher(finish),
        placement_fits(candidates@, placed_modules@),
    ensures
        is_placed_world(finish, candidates@, placed_modules@, result),
        result matches Ok(world) ==> world.wf(),
{
    let blocks = match translated_candidate_blocks(candidates, placed_modules) {
        Err(error) => return Err(error),
        Ok(blocks) => blocks,
    };
    let size = route_world_size(&blocks);
    let mut world = World3D::new(size);
    let ghost mut cells = Map::<Position, Block>::empty();
    let mut index: usize = 0;
    while index < blocks.len()
        invariant
            index <= blocks.len(),
            size == roomy_size(blocks@),
            room_fits(blocks@),
            placed_blocks(candidates@, placed_modules@, placed_modules@.len()) == Ok::<Seq<Placed>, usize>(blocks@),
            world_holds(world, size, cells),
            laid(blocks@, index as nat) == Ok::<Map<Position, Block>, Position>(cells),
        decreases blocks.len() - index,
    {
        let cell = blocks[index].0;
        let block = blocks[index].1;
        proof {
            farthest_holds(blocks@, blocks@.len(), index as int);
        }
        if !world.get(cell).kind.is_air() {
            proof {
                assert(world.at(cell) != air());
                laid_fails(blocks@, (index + 1) as nat, blocks@.len());
            }
            return Err(PlacedWorldError::Collision(cell));
        }
        proof {
            assert(!cells.contains_key(cell));
        }
        world.set(cell, block);
        proof {
            if !(block.kind is Air) {
                cells = cells.insert(cell, block);
            }
        }
        index += 1;
    }
    let finished = finish(&world);
    assert(call_ensures(*finish, (&world,), finished));
    assert(world_holds(world, roomy_size(blocks@), cells));
    assert(laid(blocks@, blocks@.len()) == Ok::<Map<Position, Block>, Position>(cells));
    let result: Result<World3D, PlacedWorldError> = Ok(finished);
    assert(is_finished_world(finish, roomy_size(blocks@), cells, finished));
    assert(is_placed_world(finish, candidates@, placed_modules@, result));
    result
}

} // verus!

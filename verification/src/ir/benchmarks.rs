//! What designs come to in numbers.

use super::logical::{LogicalDesign, LogicalModule};
use super::routable::{
    routable_named, RoutableDesign, RoutableInstance, RoutableModule, RoutableModuleBody, RoutablePort,
    RoutablePortDirection,
};
use crate::number::{capped, capped_product, capped_sum, cube_root, is_cube_root, is_square_root, square_root};
use crate::order::{is_stable_order, stable_order};
use crate::text::{same_text, texts};
use crate::transform::place_and_route::global_pnr::annealed::{at_least, is_good};
use crate::transform::place_and_route::global_pnr::ir::{PhysicalPortDirection, PortConnection};
use crate::transform::place_and_route::global_pnr::placement_nets::{
    all_unrouted, nets_between, physical_nets, pin_nets,
};
use crate::transform::place_and_route::global_pnr::router::topology::ResolvedPnrTopology;
use crate::transform::place_and_route::placement_error::{PlacementError, PlacementErrorView};
use crate::transform::place_and_route::placement_ir::{MacroInstance, MacroPin, MacroRotation, MacroTemplate};
use crate::transform::place_and_route::placement_problem::{
    bounding_box_of, footprints, macro_named, template_of, wire_length, PlacementProblem,
};
use crate::transform::place_and_route::sa_placer::anneal::{stays_inside, AnnealingPlan, AnnealingRules};
use crate::transform::place_and_route::sa_placer::anneal_laws::all_blocks_inside;
use crate::transform::place_and_route::sa_placer::initial::{
    has_template, initial_positions, moved_to, place_initial, PlacementSolution,
};
use crate::transform::place_and_route::sa_placer::legal::blocks_inside;
use crate::transform::place_and_route::sa_placer::measure::PlacementMeasure;
use crate::transform::place_and_route::sa_placer::range::{
    annealing_in_range, is_in_range, placement_has_volume, range_is_enough,
};
use crate::transform::place_and_route::sa_placer::seed::InitialPlacementConfig;
use crate::world::position::{DimSize, Direction, Position};
use vstd::prelude::*;

verus! {

/// How many nodes a leaf may have.
pub const LEAF_NODE_LIMIT: usize = 40;

/// The structure of a design.
#[derive(Clone, Debug)]
pub struct BenchmarkMetrics {
    pub name: String,
    pub modules: usize,
    pub leaves: usize,
    pub cells: usize,
    pub max_prepared_nodes: usize,
    pub over_limit_leaves: usize,
}

/// The number of cells of the first `count` modules.
pub open spec fn cell_total(modules: Seq<LogicalModule>, count: nat) -> nat
    decreases count,
{
    if count == 0 {
        0
    } else {
        capped(cell_total(modules, (count - 1) as nat) + modules[count - 1].cells@.len())
    }
}

/// Whether something tells of each leaf how many nodes it has once prepared, or
/// why it cannot be.
pub open spec fn is_counter<N: Fn(&RoutableModule) -> Result<usize, String>>(prepared: &N) -> bool {
    forall|module: RoutableModule| #[trigger] call_requires(*prepared, (&module,))
}

/// What was counted of leaves.
pub ghost struct LeafCount {
    pub leaves: nat,
    pub largest: usize,
    pub over_limit: nat,
}

/// What is counted of leaves with these numbers of nodes.
pub open spec fn count_leaves(nodes: Seq<usize>) -> LeafCount
    decreases nodes.len(),
{
    if nodes.len() == 0 {
        LeafCount { leaves: 0, largest: 0, over_limit: 0 }
    } else {
        let rest = count_leaves(nodes.drop_last());
        let own = nodes.last();
        LeafCount {
            leaves: rest.leaves + 1,
            largest: if own > rest.largest {
                own
            } else {
                rest.largest
            },
            over_limit: if own > LEAF_NODE_LIMIT {
                rest.over_limit + 1
            } else {
                rest.over_limit
            },
        }
    }
}

/// The leaves among the first `count` modules.
pub open spec fn leaves_of(modules: Seq<RoutableModule>, count: nat) -> Seq<RoutableModule>
    decreases count,
{
    if count == 0 {
        Seq::empty()
    } else {
        let rest = leaves_of(modules, (count - 1) as nat);
        if modules[count - 1].body is Leaf {
            rest.push(modules[count - 1])
        } else {
            rest
        }
    }
}

/// Whether numbers are those of the nodes of leaves.
pub open spec fn are_node_counts<N: Fn(&RoutableModule) -> Result<usize, String>>(
    prepared: &N,
    leaves: Seq<RoutableModule>,
    nodes: Seq<usize>,
) -> bool {
    &&& nodes.len() <= leaves.len()
    &&& forall|i: int| 0 <= i < nodes.len() ==> call_ensures(*prepared, (&leaves[i],), Ok(#[trigger] nodes[i]))
}

/// Whether a result is the structure of a design, or why its first leaf that
/// cannot be prepared cannot be.
pub open spec fn is_measured<N: Fn(&RoutableModule) -> Result<usize, String>>(
    prepared: &N,
    name: Seq<char>,
    logical: LogicalDesign,
    routable: RoutableDesign,
    result: Result<BenchmarkMetrics, String>,
) -> bool {
    let leaves = leaves_of(routable.modules@, routable.modules@.len());
    exists|nodes: Seq<usize>| #[trigger]
        are_node_counts(prepared, leaves, nodes) && match result {
            Ok(metrics) => {
                let counted = count_leaves(nodes);
                &&& nodes.len() == leaves.len()
                &&& metrics.name@ == name
                &&& metrics.modules == routable.modules@.len()
                &&& metrics.cells == cell_total(logical.modules@, logical.modules@.len())
                &&& metrics.leaves == counted.leaves
                &&& metrics.max_prepared_nodes == counted.largest
                &&& metrics.over_limit_leaves == counted.over_limit
            },
            Err(error) => {
                &&& nodes.len() < leaves.len()
                &&& call_ensures(*prepared, (&leaves[nodes.len() as int],), Err(error))
            },
        }
}

proof fn leaves_grow(modules: Seq<RoutableModule>, low: nat, high: nat, index: int)
    requires
        low <= high,
        0 <= index < leaves_of(modules, low).len(),
    ensures
        index < leaves_of(modules, high).len(),
        leaves_of(modules, high)[index] == leaves_of(modules, low)[index],
    decreases high,
{
    if low < high {
        leaves_grow(modules, low, (high - 1) as nat, index);
    }
}

/// The structure of a design.
pub fn measure<N: Fn(&RoutableModule) -> Result<usize, String>>(
    prepared: &N,
    name: &str,
    logical: &LogicalDesign,
    routable: &RoutableDesign,
) -> (result: Result<BenchmarkMetrics, String>)
    requires
        is_counter(prepared),
    ensures
        is_measured(prepared, name@, *logical, *routable, result),
{
    let mut cells: usize = 0;
    let mut index: usize = 0;
    while index < logical.modules.len()
        invariant
            index <= logical.modules.len(),
            cells == cell_total(logical.modules@, index as nat),
        decreases logical.modules.len() - index,
    {
        cells = capped_sum(cells, logical.modules[index].cells.len());
        index += 1;
    }
    let ghost modules = routable.modules@;
    let ghost all = leaves_of(modules, modules.len());
    let ghost mut nodes = Seq::<usize>::empty();
    let mut leaves: usize = 0;
    let mut largest: usize = 0;
    let mut over_limit: usize = 0;
    let mut index: usize = 0;
    while index < routable.modules.len()
        invariant
            index <= routable.modules.len(),
            is_counter(prepared),
            modules == routable.modules@,
            all == leaves_of(modules, modules.len()),
            nodes.len() == leaves_of(modules, index as nat).len(),
            forall|i: int|
                0 <= i < nodes.len() ==> call_ensures(
                    *prepared,
                    (&leaves_of(modules, index as nat)[i],),
                    Ok(#[trigger] nodes[i]),
                ),
            count_leaves(nodes) == (LeafCount { leaves: leaves as nat, largest, over_limit: over_limit as nat }),
            over_limit <= leaves <= index,
        decreases routable.modules.len() - index,
    {
        let module = &routable.modules[index];
        let is_leaf = match &module.body {
            RoutableModuleBody::Leaf { .. } => true,
            _ => false,
        };
        if is_leaf {
            let ghost known = leaves_of(modules, index as nat);
            let ghost now = leaves_of(modules, (index + 1) as nat);
            assert(now == known.push(*module));
            match prepared(module) {
                Err(error) => {
                    proof {
                        assert forall|i: int| 0 <= i < nodes.len() implies call_ensures(
                            *prepared,
                            (&all[i],),
                            Ok(#[trigger] nodes[i]),
                        ) by {
                            leaves_grow(modules, index as nat, modules.len(), i);
                        }
                        leaves_grow(modules, (index + 1) as nat, modules.len(), nodes.len() as int);
                        assert(are_node_counts(prepared, all, nodes));
                    }
                    return Err(error);
                },
                Ok(own) => {
                    let ghost before = nodes;
                    proof {
                        nodes = nodes.push(own);
                        assert(nodes.drop_last() =~= before);
                        assert forall|i: int| 0 <= i < nodes.len() implies call_ensures(
                            *prepared,
                            (&now[i],),
                            Ok(#[trigger] nodes[i]),
                        ) by {
                            if i < before.len() {
                                assert(nodes[i] == before[i]);
                            }
                        }
                    }
                    leaves += 1;
                    if own > largest {
                        largest = own;
                    }
                    if own > LEAF_NODE_LIMIT {
                        over_limit += 1;
                    }
                },
            }
        }
        index += 1;
    }
    assert(are_node_counts(prepared, all, nodes));
    Ok(
        BenchmarkMetrics {
            name: name.to_owned(),
            modules: routable.modules.len(),
            leaves,
            cells,
            max_prepared_nodes: largest,
            over_limit_leaves: over_limit,
        },
    )
}

// ---------------------------------------------------------------------------
// Footprints
// ---------------------------------------------------------------------------
/// A pin of a footprint.
pub ghost struct SidePin {
    pub name: Seq<char>,
    pub position: Position,
    pub direction: PhysicalPortDirection,
}

/// The names of the ports of a direction among the first `count`.
pub open spec fn ports_named(ports: Seq<RoutablePort>, direction: RoutablePortDirection, count: nat) -> Seq<Seq<char>>
    decreases count,
{
    if count == 0 {
        Seq::empty()
    } else {
        let rest = ports_named(ports, direction, (count - 1) as nat);
        if ports[count - 1].direction == direction {
            rest.push(ports[count - 1].name@)
        } else {
            rest
        }
    }
}

/// How far along a side the pin of an index is.
pub open spec fn side_place(index: int, total: nat, side: nat) -> usize {
    let place = capped(((index + 1) * side) as nat) / capped(total + 1);
    (if place < side - 1 {
        place as int
    } else {
        side - 1
    }) as usize
}

/// The pins along one side.
pub open spec fn side_pins(names: Seq<Seq<char>>, side: nat, x: usize, direction: PhysicalPortDirection) -> Seq<
    SidePin,
> {
    Seq::new(
        names.len(),
        |i: int|
            SidePin {
                name: names[i],
                position: Position(x, side_place(i, names.len(), side), 0),
                direction,
            },
    )
}

/// The pins of a module: its inputs on the left, and its outputs on the right.
pub open spec fn module_pins(module: RoutableModule, side: nat) -> Seq<SidePin> {
    let ports = module.ports@;
    let inputs = ports_named(ports, RoutablePortDirection::Input, ports.len());
    let outputs = ports_named(ports, RoutablePortDirection::Output, ports.len());
    side_pins(inputs, side, 0, PhysicalPortDirection::Input) + side_pins(
        outputs,
        side,
        (side - 1) as usize,
        PhysicalPortDirection::Output,
    )
}

/// Whether a pin is one of a footprint.
pub open spec fn is_side_pin(pin: MacroPin, view: SidePin) -> bool {
    &&& pin.name@ == view.name
    &&& pin.position == view.position
    &&& pin.direction == view.direction
    &&& pin.connection == PortConnection::Direct
    &&& pin.facing == (if view.direction == PhysicalPortDirection::Input {
        Direction::West
    } else {
        Direction::East
    })
    &&& pin.escape@ == seq![view.position]
}

/// Whether pins are those of a footprint.
pub open spec fn are_side_pins(pins: Seq<MacroPin>, views: Seq<SidePin>) -> bool {
    &&& pins.len() == views.len()
    &&& forall|i: int| 0 <= i < pins.len() ==> is_side_pin(#[trigger] pins[i], views[i])
}

/// Whether pins are others in the order of their names.
pub open spec fn are_sorted_pins(pins: Seq<MacroPin>, views: Seq<SidePin>) -> bool {
    exists|names: Seq<String>, order: Seq<usize>|
        {
            &&& texts(names) == views.map_values(|view: SidePin| view.name)
            &&& #[trigger] is_stable_order(names, order)
            &&& are_side_pins(pins, Seq::new(views.len(), |i: int| views[order[i] as int]))
        }
}

/// Whether a macro is the footprint of a module with a number of nodes: a square
/// that has a cell for each, and a layer for every sixteen of them.
pub open spec fn is_structural(template: MacroTemplate, module: RoutableModule, nodes: usize) -> bool {
    let own = at_least(nodes as int, 1) as nat;
    &&& exists|side: nat| #[trigger]
        is_square_root(own, side) && template.size == DimSize(side as usize, side as usize, (1 + own / 16) as usize)
            && are_sorted_pins(template.pins@, module_pins(module, side))
    &&& template.name@ == module.name@
    &&& template.variant@ == module.name@
    &&& template.blocks@.len() == 0
    &&& template.forbidden_routing_cells@.len() == 0
    &&& template.halo == 0
    &&& template.allowed_rotations@ == seq![MacroRotation::Unrotated]
    &&& !template.verified
}

fn find_ports(module: &RoutableModule, direction: RoutablePortDirection) -> (names: Vec<String>)
    ensures
        texts(names@) == ports_named(module.ports@, direction, module.ports@.len()),
{
    let mut names: Vec<String> = Vec::new();
    assert(texts(names@) =~= ports_named(module.ports@, direction, 0));
    let mut index: usize = 0;
    while index < module.ports.len()
        invariant
            index <= module.ports.len(),
            texts(names@) == ports_named(module.ports@, direction, index as nat),
        decreases module.ports.len() - index,
    {
        if module.ports[index].direction == direction {
            let ghost before = names@;
            let name = module.ports[index].name.clone();
            let ghost added = name@;
            names.push(name);
            assert(texts(names@) =~= texts(before).push(added));
        }
        index += 1;
    }
    names
}

fn make_pin(name: String, position: Position, direction: PhysicalPortDirection) -> (pin: MacroPin)
    ensures
        is_side_pin(pin, SidePin { name: name@, position, direction }),
{
    let escape = vec![position];
    assert(escape@ =~= seq![position]);
    let facing = if direction == PhysicalPortDirection::Input {
        Direction::West
    } else {
        Direction::East
    };
    MacroPin { name, position, direction, connection: PortConnection::Direct, facing, escape }
}

fn push_side(
    pins: &mut Vec<MacroPin>,
    names: &Vec<String>,
    side: usize,
    x: usize,
    direction: PhysicalPortDirection,
    Ghost(before): Ghost<Seq<SidePin>>,
)
    requires
        side > 0,
        are_side_pins(old(pins)@, before),
    ensures
        are_side_pins(final(pins)@, before + side_pins(texts(names@), side as nat, x, direction)),
{
    let ghost all = before + side_pins(texts(names@), side as nat, x, direction);
    let total: usize = names.len();
    let mut index: usize = 0;
    while index < total
        invariant
            index <= total,
            total == names.len(),
            side > 0,
            all == before + side_pins(texts(names@), side as nat, x, direction),
            pins.len() == before.len() + index,
            forall|i: int| 0 <= i < pins.len() ==> is_side_pin(#[trigger] pins@[i], all[i]),
        decreases total - index,
    {
        let reach: usize = capped_product(index + 1, side);
        let most: usize = capped_sum(total, 1);
        let place: usize = reach / most;
        let y: usize = if place < side - 1 {
            place
        } else {
            side - 1
        };
        proof {
            assert(y == side_place(index as int, texts(names@).len(), side as nat));
            assert(texts(names@)[index as int] == names@[index as int]@);
        }
        let ghost had = pins@;
        let pin = make_pin(names[index].clone(), Position(x, y, 0), direction);
        let ghost own = all[before.len() + index];
        assert(is_side_pin(pin, own));
        pins.push(pin);
        assert forall|i: int| 0 <= i < pins.len() implies is_side_pin(#[trigger] pins@[i], all[i]) by {
            if i < had.len() {
                assert(pins@[i] == had[i]);
            }
        }
        index += 1;
    }
}

fn sort_pins(pins: &Vec<MacroPin>, Ghost(views): Ghost<Seq<SidePin>>) -> (sorted: Vec<MacroPin>)
    requires
        are_side_pins(pins@, views),
    ensures
        are_sorted_pins(sorted@, views),
{
    let mut names: Vec<String> = Vec::new();
    let mut index: usize = 0;
    while index < pins.len()
        invariant
            index <= pins.len(),
            names.len() == index,
            forall|i: int| 0 <= i < index ==> (#[trigger] names@[i])@ == pins@[i].name@,
        decreases pins.len() - index,
    {
        names.push(pins[index].name.clone());
        index += 1;
    }
    assert(texts(names@) =~= views.map_values(|view: SidePin| view.name)) by {
        assert forall|i: int| 0 <= i < names@.len() implies texts(names@)[i] == views[i].name by {
            assert(is_side_pin(pins@[i], views[i]));
        }
    }
    let order = stable_order(&names);
    let ghost wanted = Seq::new(views.len(), |i: int| views[order@[i] as int]);
    let mut sorted: Vec<MacroPin> = Vec::new();
    let mut index: usize = 0;
    while index < order.len()
        invariant
            index <= order.len(),
            order.len() == pins.len(),
            are_side_pins(pins@, views),
            wanted == Seq::new(views.len(), |i: int| views[order@[i] as int]),
            forall|i: int| 0 <= i < order.len() ==> #[trigger] order@[i] < pins.len(),
            sorted.len() == index,
            forall|i: int| 0 <= i < index ==> is_side_pin(#[trigger] sorted@[i], wanted[i]),
        decreases order.len() - index,
    {
        let at: usize = order[index];
        assert(order@[index as int] < pins.len());
        assert(is_side_pin(pins@[at as int], views[at as int]));
        let ghost had = sorted@;
        let pin = make_pin(pins[at].name.clone(), pins[at].position, pins[at].direction);
        assert(is_side_pin(pin, wanted[index as int]));
        sorted.push(pin);
        assert forall|i: int| 0 <= i < index + 1 implies is_side_pin(#[trigger] sorted@[i], wanted[i]) by {
            if i < index {
                assert(sorted@[i] == had[i]);
            }
        }
        index += 1;
    }
    assert(is_stable_order(names@, order@));
    assert(are_side_pins(sorted@, wanted));
    sorted
}

/// The footprint of a module with a number of nodes.
pub fn structural_template(module: &RoutableModule, nodes: usize) -> (template: MacroTemplate)
    ensures
        is_structural(template, *module, nodes),
{
    let own: usize = if nodes < 1 {
        1
    } else {
        nodes
    };
    let side: usize = square_root(own);
    assert(side > 0) by {
        assert(0 * 0 == 0);
    }
    let height: usize = 1 + own / 16;
    let inputs = find_ports(module, RoutablePortDirection::Input);
    let outputs = find_ports(module, RoutablePortDirection::Output);
    let mut pins: Vec<MacroPin> = Vec::new();
    let ghost none = Seq::<SidePin>::empty();
    push_side(&mut pins, &inputs, side, 0, PhysicalPortDirection::Input, Ghost(none));
    let ghost left = none + side_pins(texts(inputs@), side as nat, 0, PhysicalPortDirection::Input);
    push_side(&mut pins, &outputs, side, side - 1, PhysicalPortDirection::Output, Ghost(left));
    let ghost views = module_pins(*module, side as nat);
    assert(left + side_pins(texts(outputs@), side as nat, (side - 1) as usize, PhysicalPortDirection::Output)
        =~= views);
    let sorted = sort_pins(&pins, Ghost(views));
    let allowed_rotations = vec![MacroRotation::Unrotated];
    assert(allowed_rotations@ =~= seq![MacroRotation::Unrotated]);
    let template = MacroTemplate {
        name: module.name.clone(),
        variant: module.name.clone(),
        size: DimSize(side, side, height),
        blocks: Vec::new(),
        forbidden_routing_cells: Vec::new(),
        pins: sorted,
        halo: 0,
        allowed_rotations,
        verified: false,
    };
    assert(is_square_root(at_least(nodes as int, 1) as nat, side as nat));
    template
}

// ---------------------------------------------------------------------------
// Placements
// ---------------------------------------------------------------------------
/// The placement of a design.
#[derive(Clone, Debug)]
pub struct PlacementBenchmarkMetrics {
    pub name: String,
    pub macros: usize,
    pub instances: usize,
    pub nets: usize,
    pub seed_wire_length: usize,
    pub wire_length: usize,
    pub bounding_box_volume: usize,
    pub legal: bool,
}

/// The number of cells of the first `count` macros.
pub open spec fn macro_volume(macros: Seq<MacroTemplate>, count: nat) -> nat
    decreases count,
{
    if count == 0 {
        0
    } else {
        let size = macros[count - 1].size;
        capped(
            macro_volume(macros, (count - 1) as nat) + capped(capped((size.0 * size.1) as nat) * size.2 as nat),
        )
    }
}

/// The height of the first `count` macros.
pub open spec fn macro_height(macros: Seq<MacroTemplate>, count: nat) -> int
    decreases count,
{
    if count == 0 {
        0
    } else {
        at_least(macro_height(macros, (count - 1) as nat), macros[count - 1].size.2 as int)
    }
}

/// Whether a world is one that macros are placed in.
pub open spec fn is_benchmark_world(macros: Seq<MacroTemplate>, world: DimSize) -> bool {
    &&& exists|root: nat| #[trigger]
        is_cube_root(macro_volume(macros, macros.len()), root) && world.0 == at_least(capped(root * 2) as int, 16)
    &&& world.1 == world.0
    &&& world.2 == capped((at_least(macro_height(macros, macros.len()), 4) + 4) as nat)
}

/// The world that macros are placed in.
pub fn benchmark_world(macros: &Vec<MacroTemplate>) -> (world: DimSize)
    ensures
        is_benchmark_world(macros@, world),
{
    let mut volume: usize = 0;
    let mut tall: usize = 0;
    let mut index: usize = 0;
    while index < macros.len()
        invariant
            index <= macros.len(),
            volume == macro_volume(macros@, index as nat),
            tall == macro_height(macros@, index as nat),
        decreases macros.len() - index,
    {
        let size = macros[index].size;
        volume = capped_sum(volume, capped_product(capped_product(size.0, size.1), size.2));
        if size.2 > tall {
            tall = size.2;
        }
        index += 1;
    }
    let root: usize = cube_root(volume);
    assert(is_cube_root(macro_volume(macros@, macros@.len()), root as nat));
    let mut side: usize = capped_product(root, 2);
    if side < 16 {
        side = 16;
    }
    if tall < 4 {
        tall = 4;
    }
    DimSize(side, side, capped_sum(tall, 4))
}

/// The number of cells of a box, or none where there is no box.
pub fn box_volume(corners: Option<(Position, Position)>) -> (volume: usize)
    requires
        corners matches Some((min, max)) ==> min.0 <= max.0 < usize::MAX && min.1 <= max.1 < usize::MAX && min.2
            <= max.2 < usize::MAX,
    ensures
        volume == (match corners {
            None => 0,
            Some((min, max)) => capped(
                capped(((max.0 - min.0 + 1) * (max.1 - min.1 + 1)) as nat) * (max.2 - min.2 + 1) as nat,
            ),
        }),
{
    match corners {
        None => 0,
        Some((min, max)) => capped_product(
            capped_product(max.0 - min.0 + 1, max.1 - min.1 + 1),
            max.2 - min.2 + 1,
        ),
    }
}

/// Why the placement of a design is not measured.
#[derive(Clone, Debug)]
pub enum BenchmarkError {
    /// There is no module of the name of the top module.
    NoTop { top: String },
    /// The top module has no instances.
    NotComposite { top: String },
    /// An instance is of a module that there is not.
    MissingModule { module: String },
    /// A module cannot be prepared.
    NotPrepared { reason: String },
}

/// Whether a macro of the module of an instance is there.
pub open spec fn has_footprint<N: Fn(&RoutableModule) -> Result<usize, String>>(
    prepared: &N,
    modules: Seq<RoutableModule>,
    macros: Seq<MacroTemplate>,
    name: Seq<char>,
) -> bool {
    &&& routable_named(modules, name) is Some
    &&& macro_named(macros, name) is Some
    &&& exists|nodes: usize| #[trigger]
        call_ensures(*prepared, (&routable_named(modules, name)->0,), Ok(nodes)) && is_structural(
            macro_named(macros, name)->0,
            routable_named(modules, name)->0,
            nodes,
        )
}

/// Whether a problem is that of placing the instances of the top module of a
/// design.
pub open spec fn is_benchmark_problem<N: Fn(&RoutableModule) -> Result<usize, String>>(
    prepared: &N,
    routable: RoutableDesign,
    topology: ResolvedPnrTopology,
    instances: Seq<RoutableInstance>,
    problem: PlacementProblem,
) -> bool {
    &&& problem.instances@.len() == instances.len()
    &&& problem.macros@.len() == kinds_of(instances, instances.len())
    &&& forall|i: int| 0 <= i < instances.len() ==> is_instance_at(#[trigger] problem.instances@[i], i, instances[i])
    &&& forall|i: int|
        0 <= i < instances.len() ==> has_footprint(
            prepared,
            routable.modules@,
            problem.macros@,
            (#[trigger] instances[i]).module@,
        )
    &&& pin_nets(problem.nets@) == nets_between(
        topology,
        instances.map_values(|own: RoutableInstance| own.name@),
        topology.nets@.len(),
    )
    &&& all_unrouted(problem.nets@)
}

/// Whether one of the first `count` instances is of a module.
pub open spec fn has_kind(instances: Seq<RoutableInstance>, name: Seq<char>, count: nat) -> bool {
    exists|i: int| 0 <= i < count && (#[trigger] instances[i]).module@ == name
}

/// Of how many modules the first `count` instances are.
pub open spec fn kinds_of(instances: Seq<RoutableInstance>, count: nat) -> nat
    decreases count,
{
    if count == 0 {
        0
    } else {
        kinds_of(instances, (count - 1) as nat) + if has_kind(
            instances,
            instances[count - 1].module@,
            (count - 1) as nat,
        ) {
            0nat
        } else {
            1
        }
    }
}

proof fn kinds_are_few(instances: Seq<RoutableInstance>, count: nat)
    ensures
        kinds_of(instances, count) <= count,
        count > 0 ==> kinds_of(instances, count) > 0,
    decreases count,
{
    if count > 0 {
        kinds_are_few(instances, (count - 1) as nat);
    }
}

/// Whether an instance stands at the origin.
pub open spec fn is_instance_at(instance: MacroInstance, index: int, own: RoutableInstance) -> bool {
    &&& instance.id == index
    &&& instance.macro_name@ == own.module@
    &&& instance.position == Position(0, 0, 0)
    &&& instance.rotation == MacroRotation::Unrotated
}

fn has_macro(problem: &PlacementProblem, name: &str) -> (found: bool)
    ensures
        found == (macro_named(problem.macros@, name@) is Some),
{
    let mut index: usize = 0;
    while index < problem.macros.len() && !same_text(problem.macros[index].name.as_str(), name)
        invariant
            index <= problem.macros.len(),
            macro_named(problem.macros@, name@)
                == crate::transform::place_and_route::placement_problem::macro_from(
                problem.macros@,
                name@,
                index as nat,
            ),
        decreases problem.macros.len() - index,
    {
        index += 1;
    }
    index < problem.macros.len()
}

/// The macros of the modules of instances: of each module one.
fn add_footprints<N: Fn(&RoutableModule) -> Result<usize, String>>(
    prepared: &N,
    routable: &RoutableDesign,
    instances: &Vec<RoutableInstance>,
) -> (result: Result<PlacementProblem, BenchmarkError>)
    requires
        is_counter(prepared),
    ensures
        match result {
            Ok(problem) => {
                &&& problem.instances@.len() == 0
                &&& problem.nets@.len() == 0
                &&& problem.macros@.len() == kinds_of(instances@, instances@.len())
                &&& forall|i: int|
                    0 <= i < instances@.len() ==> has_footprint(
                        prepared,
                        routable.modules@,
                        problem.macros@,
                        (#[trigger] instances@[i]).module@,
                    )
            },
            Err(BenchmarkError::MissingModule { module }) => routable_named(routable.modules@, module@) is None
                && exists|i: int| 0 <= i < instances@.len() && (#[trigger] instances@[i]).module@ == module@,
            Err(BenchmarkError::NotPrepared { reason }) => is_unprepared(
                prepared,
                routable.modules@,
                instances@,
                reason,
            ),
            Err(_) => false,
        },
{
    let mut problem = PlacementProblem::new();
    let mut index: usize = 0;
    while index < instances.len()
        invariant
            index <= instances.len(),
            is_counter(prepared),
            problem.instances@.len() == 0,
            problem.nets@.len() == 0,
            problem.macros@.len() == kinds_of(instances@, index as nat),
            forall|name: Seq<char>|
                (#[trigger] macro_named(problem.macros@, name)) is Some ==> has_footprint(
                    prepared,
                    routable.modules@,
                    problem.macros@,
                    name,
                ) && has_kind(instances@, name, index as nat),
            forall|i: int|
                0 <= i < index ==> has_footprint(
                    prepared,
                    routable.modules@,
                    problem.macros@,
                    (#[trigger] instances@[i]).module@,
                ),
        decreases instances.len() - index,
    {
        let name = &instances[index].module;
        proof {
            let own = instances@[index as int].module@;
            if has_kind(instances@, own, index as nat) {
                let i = choose|i: int| 0 <= i < index && (#[trigger] instances@[i]).module@ == own;
                assert(has_footprint(prepared, routable.modules@, problem.macros@, instances@[i].module@));
            }
            assert forall|other: Seq<char>| #[trigger] has_kind(instances@, other, index as nat) implies has_kind(
                instances@,
                other,
                (index + 1) as nat,
            ) by {
                let i = choose|i: int| 0 <= i < index && (#[trigger] instances@[i]).module@ == other;
                assert(instances@[i].module@ == other);
            }
            assert(has_kind(instances@, own, (index + 1) as nat)) by {
                assert(instances@[index as int].module@ == own);
            }
        }
        if !has_macro(&problem, name.as_str()) {
            let child = match routable.module(name.as_str()) {
                None => {
                    assert(instances@[index as int].module@ == name@);
                    return Err(BenchmarkError::MissingModule { module: name.clone() });
                },
                Some(child) => child,
            };
            let nodes: usize = match prepared(child) {
                Err(reason) => {
                    assert(call_ensures(
                        *prepared,
                        (&routable_named(routable.modules@, instances@[index as int].module@)->0,),
                        Err(reason),
                    ));
                    assert(is_unprepared(prepared, routable.modules@, instances@, reason));
                    return Err(BenchmarkError::NotPrepared { reason });
                },
                Ok(nodes) => nodes,
            };
            let ghost before = problem.macros@;
            let template = structural_template(child, nodes);
            let ghost made = template;
            proof {
                routable_has_name(routable.modules@, name@, 0);
            }
            problem.add_macro(template);
            proof {
                assert(made.name@ == name@);
                assert(call_ensures(*prepared, (&routable_named(routable.modules@, name@)->0,), Ok(nodes)));
                assert(has_footprint(prepared, routable.modules@, problem.macros@, name@));
                assert forall|other: Seq<char>|
                    (#[trigger] macro_named(problem.macros@, other)) is Some implies has_footprint(
                    prepared,
                    routable.modules@,
                    problem.macros@,
                    other,
                ) && has_kind(instances@, other, (index + 1) as nat) by {
                    if other != name@ {
                        assert(macro_named(before, other) is Some);
                        assert(has_footprint(prepared, routable.modules@, before, other));
                        assert(has_kind(instances@, other, index as nat));
                    }
                }
                assert forall|i: int| 0 <= i < index implies has_footprint(
                    prepared,
                    routable.modules@,
                    problem.macros@,
                    (#[trigger] instances@[i]).module@,
                ) by {
                    assert(has_footprint(prepared, routable.modules@, before, instances@[i].module@));
                    assert(macro_named(problem.macros@, instances@[i].module@) is Some);
                }
            }
        } else {
            assert(macro_named(problem.macros@, name@) is Some);
            assert(has_kind(instances@, name@, index as nat));
        }
        index += 1;
    }
    Ok(problem)
}

/// Whether the module of an instance cannot be prepared.
pub open spec fn is_unprepared<N: Fn(&RoutableModule) -> Result<usize, String>>(
    prepared: &N,
    modules: Seq<RoutableModule>,
    instances: Seq<RoutableInstance>,
    reason: String,
) -> bool {
    exists|i: int|
        0 <= i < instances.len() && routable_named(modules, (#[trigger] instances[i]).module@) is Some && call_ensures(
            *prepared,
            (&routable_named(modules, instances[i].module@)->0,),
            Err(reason),
        )
}

proof fn routable_has_name(modules: Seq<RoutableModule>, name: Seq<char>, start: nat)
    ensures
        super::routable::routable_from(modules, name, start) matches Some(module) ==> module.name@ == name,
    decreases modules.len() - start,
{
    if start < modules.len() {
        routable_has_name(modules, name, start + 1);
    }
}

/// The problem of placing the instances of the top module of a design.
pub fn benchmark_problem<N: Fn(&RoutableModule) -> Result<usize, String>>(
    prepared: &N,
    routable: &RoutableDesign,
    topology: &ResolvedPnrTopology,
) -> (result: Result<PlacementProblem, BenchmarkError>)
    requires
        is_counter(prepared),
    ensures
        match routable_named(routable.modules@, routable.top@) {
            None => result matches Err(BenchmarkError::NoTop { top }) && top@ == routable.top@,
            Some(top) => match top.body {
                RoutableModuleBody::Leaf { .. } => result matches Err(BenchmarkError::NotComposite { top }) && top@
                    == routable.top@,
                RoutableModuleBody::Composite { instances, .. } => match result {
                    Ok(problem) => is_benchmark_problem(prepared, *routable, *topology, instances@, problem),
                    Err(BenchmarkError::MissingModule { module }) => routable_named(routable.modules@, module@) is None
                        && exists|i: int| 0 <= i < instances@.len() && (#[trigger] instances@[i]).module@ == module@,
                    Err(BenchmarkError::NotPrepared { reason }) => is_unprepared(
                        prepared,
                        routable.modules@,
                        instances@,
                        reason,
                    ),
                    Err(_) => false,
                },
            },
        },
{
    let top = match routable.module(routable.top.as_str()) {
        None => return Err(BenchmarkError::NoTop { top: routable.top.clone() }),
        Some(top) => top,
    };
    let instances = match &top.body {
        RoutableModuleBody::Leaf { .. } => return Err(BenchmarkError::NotComposite { top: routable.top.clone() }),
        RoutableModuleBody::Composite { instances, .. } => instances,
    };
    let mut problem = match add_footprints(prepared, routable, instances) {
        Err(error) => return Err(error),
        Ok(problem) => problem,
    };
    let mut names: Vec<String> = Vec::new();
    let mut index: usize = 0;
    while index < instances.len()
        invariant
            index <= instances.len(),
            forall|i: int|
                0 <= i < instances@.len() ==> has_footprint(
                    prepared,
                    routable.modules@,
                    problem.macros@,
                    (#[trigger] instances@[i]).module@,
                ),
            problem.nets@.len() == 0,
            problem.macros@.len() == kinds_of(instances@, instances@.len()),
            problem.instances@.len() == index,
            forall|i: int|
                0 <= i < index ==> is_instance_at(#[trigger] problem.instances@[i], i, instances@[i]),
            names.len() == index,
            forall|i: int| 0 <= i < index ==> (#[trigger] names@[i])@ == instances@[i].name@,
        decreases instances.len() - index,
    {
        assert(has_footprint(prepared, routable.modules@, problem.macros@, instances@[index as int].module@));
        let ghost had = problem.instances@;
        let added = problem.add_instance(
            instances[index].module.as_str(),
            Position(0, 0, 0),
            MacroRotation::Unrotated,
        );
        proof {
            assert(added is Ok);
            assert forall|i: int| 0 <= i < index + 1 implies is_instance_at(
                #[trigger] problem.instances@[i],
                i,
                instances@[i],
            ) by {
                if i < index {
                    assert(problem.instances@[i] == problem.instances@.drop_last()[i]);
                    assert(is_instance_at(had[i], i, instances@[i]));
                }
            }
        }
        names.push(instances[index].name.clone());
        index += 1;
    }
    assert(texts(names@) =~= instances@.map_values(|own: RoutableInstance| own.name@));
    problem.nets = physical_nets(topology, &names);
    Ok(problem)
}

/// Why the placement of a design has no numbers.
#[derive(Clone, Debug)]
pub enum PlacementBenchmarkError {
    /// There is nothing to place.
    Problem { error: BenchmarkError },
    /// It was not placed.
    Unplaced { error: PlacementError },
    /// Its modules have so many nodes that sums or products of their numbers overflow.
    OutOfRange,
}

/// How the instances of a design are placed in a world.
pub open spec fn benchmark_plan(world: DimSize) -> AnnealingPlan {
    AnnealingPlan {
        initial: InitialPlacementConfig {
            world,
            spacing: 2,
            barycenter_iterations: 32,
            max_step: 4,
            repair_iterations: 64,
        },
        seed: 1,
        iterations: 2000,
        moves_per_temperature: 64,
        max_translate_step: 2,
        restarts: 1,
    }
}

/// Whether numbers are those of a problem that is placed, with the length of its
/// wires at first.
pub open spec fn is_metrics(
    name: Seq<char>,
    problem: PlacementProblem,
    seed_length: int,
    solution: PlacementSolution,
    metrics: PlacementBenchmarkMetrics,
) -> bool {
    &&& metrics.name@ == name
    &&& metrics.macros == problem.macros@.len()
    &&& metrics.instances == problem.instances@.len()
    &&& metrics.nets == problem.nets@.len()
    &&& metrics.seed_wire_length == seed_length
    &&& metrics.wire_length == solution.wire_length
    &&& metrics.bounding_box_volume == crate::transform::place_and_route::sa_placer::measure::box_volume(
        footprints(problem.macros@, solution.instances@, solution.instances@.len()),
    )
    &&& metrics.legal == is_good(solution)
}

/// Whether a result tells of an error.
pub open spec fn tells_of(
    result: Result<PlacementBenchmarkMetrics, PlacementBenchmarkError>,
    expected: PlacementErrorView,
) -> bool {
    result matches Err(PlacementBenchmarkError::Unplaced { error }) && error@ == expected
}

/// What placing a problem in a world comes to, where its numbers are in range: an
/// error where the initial placement has one, and otherwise the numbers of the
/// annealed placement.
pub open spec fn is_placed_benchmark<
    T: Fn(usize) -> bool,
    E: Fn(&PlacementMeasure, &PlacementMeasure) -> bool,
    A: Fn(usize, &PlacementMeasure, &PlacementMeasure, u64) -> bool,
>(
    rules: &AnnealingRules<T, E, A>,
    name: Seq<char>,
    problem: PlacementProblem,
    world: DimSize,
    result: Result<PlacementBenchmarkMetrics, PlacementBenchmarkError>,
) -> bool {
    let plan = benchmark_plan(world);
    match initial_positions(problem.macros@, problem.instances@, problem.nets@, plan.initial) {
        Err(expected) => tells_of(result, expected),
        Ok(initial) => match wire_length(
            problem.macros@,
            moved_to(problem.instances@, initial),
            problem.nets@,
            problem.nets@.len(),
        ) {
            Err(expected) => tells_of(result, expected),
            Ok(seed_length) => result matches Ok(metrics) && is_annealed_metrics(
                rules,
                name,
                problem,
                plan,
                seed_length,
                metrics,
            ),
        },
    }
}

/// Whether numbers are those of an annealed placement.
pub open spec fn is_annealed_metrics<
    T: Fn(usize) -> bool,
    E: Fn(&PlacementMeasure, &PlacementMeasure) -> bool,
    A: Fn(usize, &PlacementMeasure, &PlacementMeasure, u64) -> bool,
>(
    rules: &AnnealingRules<T, E, A>,
    name: Seq<char>,
    problem: PlacementProblem,
    plan: AnnealingPlan,
    seed_length: int,
    metrics: PlacementBenchmarkMetrics,
) -> bool {
    exists|solution: PlacementSolution| #[trigger]
        is_metrics(name, problem, seed_length, solution, metrics) && rules.is_placed_annealed(
            problem,
            plan,
            Ok(solution),
        ) && stays_inside(problem, plan, solution)
}

/// What holds of the numbers of a placement of instances, whatever the rules.
pub open spec fn are_sound_metrics(
    name: Seq<char>,
    instances: Seq<RoutableInstance>,
    metrics: PlacementBenchmarkMetrics,
) -> bool {
    &&& metrics.name@ == name
    &&& metrics.instances == instances.len()
    &&& metrics.macros == kinds_of(instances, instances.len())
    &&& metrics.macros <= metrics.instances
    &&& metrics.legal
    &&& instances.len() > 0 ==> metrics.bounding_box_volume >= 1
    &&& instances.len() == 0 ==> metrics.bounding_box_volume == 0
}

fn plan_in(world: DimSize) -> (plan: AnnealingPlan)
    ensures
        plan == benchmark_plan(world),
{
    let plain = InitialPlacementConfig::default();
    AnnealingPlan {
        initial: InitialPlacementConfig {
            world,
            spacing: plain.spacing,
            barycenter_iterations: plain.barycenter_iterations,
            max_step: plain.max_step,
            repair_iterations: plain.repair_iterations,
        },
        seed: 1,
        iterations: 2000,
        moves_per_temperature: 64,
        max_translate_step: 2,
        restarts: 1,
    }
}

/// The numbers of placing a problem in a world.
pub fn measure_problem<
    T: Fn(usize) -> bool,
    E: Fn(&PlacementMeasure, &PlacementMeasure) -> bool,
    A: Fn(usize, &PlacementMeasure, &PlacementMeasure, u64) -> bool,
>(rules: &AnnealingRules<T, E, A>, name: &str, problem: &PlacementProblem, world: DimSize) -> (result: Result<
    PlacementBenchmarkMetrics,
    PlacementBenchmarkError,
>)
    requires
        rules.valid(),
        is_in_range(*problem, benchmark_plan(world)),
    ensures
        is_placed_benchmark(rules, name@, *problem, world, result),
        result matches Ok(metrics) ==> {
            &&& all_blocks_inside(*problem) ==> metrics.legal
            &&& problem.instances@.len() > 0 <==> metrics.bounding_box_volume >= 1
        },
{
    let plan = plan_in(world);
    let count: usize = problem.instances.len();
    proof {
        assert(count == problem.instances@.len());
        range_is_enough(*problem, plan);
    }
    let seed = match place_initial(problem, &plan.initial) {
        Err(error) => return Err(PlacementBenchmarkError::Unplaced { error }),
        Ok(seed) => seed,
    };
    let solution = match rules.place_annealed(problem, &plan) {
        Err(error) => return Err(PlacementBenchmarkError::Unplaced { error }),
        Ok(solution) => solution,
    };
    proof {
        placement_has_volume(*problem, plan, solution);
        if all_blocks_inside(*problem) {
            rules.annealed_placement_is_legal(*problem, plan, solution);
        }
    }
    let corners = bounding_box_of(&problem.macros, &solution.instances);
    let volume: usize = box_volume(corners);
    let metrics = PlacementBenchmarkMetrics {
        name: name.to_owned(),
        macros: problem.macros.len(),
        instances: problem.instances.len(),
        nets: problem.nets.len(),
        seed_wire_length: seed.wire_length,
        wire_length: solution.wire_length,
        bounding_box_volume: volume,
        legal: solution.is_legal(),
    };
    assert(is_metrics(name@, *problem, seed.wire_length as int, solution, metrics));
    Ok(metrics)
}

/// The numbers of placing the instances of the top module of a design.
pub fn measure_placement<
    N: Fn(&RoutableModule) -> Result<usize, String>,
    T: Fn(usize) -> bool,
    E: Fn(&PlacementMeasure, &PlacementMeasure) -> bool,
    A: Fn(usize, &PlacementMeasure, &PlacementMeasure, u64) -> bool,
>(
    prepared: &N,
    rules: &AnnealingRules<T, E, A>,
    name: &str,
    routable: &RoutableDesign,
    topology: &ResolvedPnrTopology,
) -> (result: Result<PlacementBenchmarkMetrics, PlacementBenchmarkError>)
    requires
        is_counter(prepared),
        rules.valid(),
    ensures
        match routable_named(routable.modules@, routable.top@) {
            None => result matches Err(PlacementBenchmarkError::Problem { error: BenchmarkError::NoTop { top } })
                && top@ == routable.top@,
            Some(top) => match top.body {
                RoutableModuleBody::Leaf { .. } => result matches Err(
                    PlacementBenchmarkError::Problem { error: BenchmarkError::NotComposite { top } },
                ) && top@ == routable.top@,
                RoutableModuleBody::Composite { instances, .. } => match result {
                    Err(PlacementBenchmarkError::Problem { error }) => match error {
                        BenchmarkError::MissingModule { module } => routable_named(routable.modules@, module@) is None
                            && exists|i: int|
                            0 <= i < instances@.len() && (#[trigger] instances@[i]).module@ == module@,
                        BenchmarkError::NotPrepared { reason } => is_unprepared(
                            prepared,
                            routable.modules@,
                            instances@,
                            reason,
                        ),
                        _ => false,
                    },
                    _ => is_measured_placement(prepared, rules, name@, *routable, *topology, instances@, result) && (
                    result matches Ok(metrics) ==> are_sound_metrics(name@, instances@, metrics)),
                },
            },
        },
{
    let problem = match benchmark_problem(prepared, routable, topology) {
        Err(error) => return Err(PlacementBenchmarkError::Problem { error }),
        Ok(problem) => problem,
    };
    let world = benchmark_world(&problem.macros);
    let result = if annealing_in_range(&problem, &plan_in(world)) {
        measure_problem(rules, name, &problem, world)
    } else {
        Err(PlacementBenchmarkError::OutOfRange)
    };
    proof {
        let top = routable_named(routable.modules@, routable.top@)->0;
        let instances = top.body->Composite_instances@;
        assert(is_benchmark_problem(prepared, *routable, *topology, instances, problem));
        assert(is_benchmark_world(problem.macros@, world));
        assert(is_measured_placement(prepared, rules, name@, *routable, *topology, instances, result));
        kinds_are_few(instances, instances.len());
        assert forall|i: int|
            0 <= i < problem.instances@.len() && #[trigger] has_template(
                problem.macros@,
                problem.instances@,
                i,
            ) implies blocks_inside(template_of(problem.macros@, problem.instances@, i as usize)->Ok_0) by {
            assert(is_instance_at(problem.instances@[i], i, instances[i]));
            assert(has_footprint(prepared, routable.modules@, problem.macros@, instances[i].module@));
        }
    }
    result
}

/// What placing the instances of a design comes to.
pub open spec fn is_measured_placement<
    N: Fn(&RoutableModule) -> Result<usize, String>,
    T: Fn(usize) -> bool,
    E: Fn(&PlacementMeasure, &PlacementMeasure) -> bool,
    A: Fn(usize, &PlacementMeasure, &PlacementMeasure, u64) -> bool,
>(
    prepared: &N,
    rules: &AnnealingRules<T, E, A>,
    name: Seq<char>,
    routable: RoutableDesign,
    topology: ResolvedPnrTopology,
    instances: Seq<RoutableInstance>,
    result: Result<PlacementBenchmarkMetrics, PlacementBenchmarkError>,
) -> bool {
    exists|problem: PlacementProblem, world: DimSize|
        {
            &&& #[trigger] is_benchmark_problem(prepared, routable, topology, instances, problem)
            &&& #[trigger] is_benchmark_world(problem.macros@, world)
            &&& if is_in_range(problem, benchmark_plan(world)) {
                is_placed_benchmark(rules, name, problem, world, result)
            } else {
                result == Err::<PlacementBenchmarkMetrics, PlacementBenchmarkError>(PlacementBenchmarkError::OutOfRange)
            }
        }
}

} // verus!

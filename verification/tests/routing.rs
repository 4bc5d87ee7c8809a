use std::collections::HashMap;

use redstone_compiler::graph::{GraphNode, GraphNodeKind};
use redstone_compiler::ir::routable::{RoutableModule, RoutableModuleBody, RoutablePort, RoutablePortDirection};
use redstone_compiler::logic::{Logic, LogicType};
use redstone_compiler::order::SortKey;
use redstone_compiler::sequential::{SequentialPrimitive, SequentialType};
use redstone_compiler::transform::place_and_route::global_pnr::candidate::expose_switchless_input_port;
use redstone_compiler::transform::place_and_route::global_pnr::candidate_check::{
    candidate_matches_truth_table, CheckError, OutputTable, TruthTable,
};
use redstone_compiler::transform::place_and_route::global_pnr::candidate_generation::{
    generate_routable_module_candidates_with_progress_label, GenerationError, PlacingWork,
};
use redstone_compiler::perf::{PerfCounters, MEBIBYTE};
use redstone_compiler::transform::place_and_route::global_pnr::candidate_layout::{PlacedEndpoint, PlacedWorld};
use redstone_compiler::transform::place_and_route::global_pnr::cell_library::{
    CellImplementation, CellLibrary, CellPhysicalContract,
};
use redstone_compiler::transform::place_and_route::global_pnr::ir::{
    dominates, LayoutCandidate, PhysicalPort, PhysicalPortDirection, PortConnection,
};
use redstone_compiler::transform::place_and_route::global_pnr::policy::{CandidatePolicySet, UnitCandidateConfig};
use redstone_compiler::transform::place_and_route::global_pnr::route_engine::congestion::CongestionMap;
use redstone_compiler::transform::place_and_route::global_pnr::route_engine::cost::RouteCostModel;
use redstone_compiler::transform::place_and_route::global_pnr::route_engine::engine::{
    route_point_to_point, route_point_to_point_with_strategy,
};
use redstone_compiler::transform::place_and_route::global_pnr::route_engine::negotiation::{
    assemble_world_with_routes_raw, negotiate_routed_nets,
};
use redstone_compiler::transform::place_and_route::global_pnr::route_engine::pathfinder::{
    negotiate_routes, PathfinderConfig, PathfinderNet,
};
use redstone_compiler::transform::place_and_route::global_pnr::route_engine::route::{
    GlobalRoutingStrategy, ResolvedEndpoint, RouteFailure, RoutedNet,
};
use redstone_compiler::transform::place_and_route::global_pnr::route_engine::search::PlaceRequest;
use redstone_compiler::transform::place_and_route::global_pnr::route_engine::state::{
    PlaceBound, PoweredRouteSource, MAX_REDSTONE_STRENGTH,
};
use redstone_compiler::transform::place_and_route::global_pnr::route_engine::validation::{
    active_route_powers_sink, can_validate_active_route_source, first_invalid_active_route,
    route_power_contract_holds, switch_route_releases_required_positions_when_off,
};
use redstone_compiler::transform::place_and_route::global_pnr::router::entry::RoutingError;
use redstone_compiler::transform::place_and_route::global_pnr::router::input_ports::InputFailure;
use redstone_compiler::transform::place_and_route::global_pnr::router::inputs::GlobalRoutingConfig;
use redstone_compiler::transform::place_and_route::global_pnr::router::nets::NetFailure;
use redstone_compiler::transform::place_and_route::global_pnr::router::plan::{
    group_vars_by_source_ordered, ordered_module_variables, register_next_target_bit_order, route_variable_priority,
    NetOrderStrategy, RoutingConnection, RoutingTopInput,
};
use redstone_compiler::transform::place_and_route::global_pnr::router::ports::{
    placed_candidate_world, resolve_port_targets, PlacedModule, PlacedWorldError, ResolvedPortTarget,
};
use redstone_compiler::transform::place_and_route::global_pnr::router::sources::{
    sort_internal_sink_targets_by_current_tree, sort_top_input_sinks_by_current_tree, InternalSink,
};
use redstone_compiler::transform::place_and_route::global_pnr::router::tools::{RouteResult, RouteTools};
use redstone_compiler::transform::place_and_route::global_pnr::router::topology::{
    collect_topology_input_endpoints, collect_topology_output_endpoints, PlanError, ResolvedInstance, ResolvedNet,
    ResolvedPnrTopology, ResolvedPort, RoutingPlan,
};
use redstone_compiler::world::block::{Block, BlockKind};
use redstone_compiler::world::grid::World3D;
use redstone_compiler::world::position::{DimSize, Direction, Position};

// ---------------------------------------------------------------------------
// How redstone behaves
// ---------------------------------------------------------------------------
const SIDES: [Direction; 4] = [Direction::East, Direction::West, Direction::South, Direction::North];

fn is_solid(world: &World3D, cell: Option<Position>) -> bool {
    cell.is_some_and(|cell| world.get(cell).kind.is_cobble())
}

/// The cells that dust is joined to where they hold dust.
fn dust_links(world: &World3D, cell: Position) -> Vec<Position> {
    let mut links = Vec::new();
    for side in cell.cardinal() {
        links.push(side);
        if !is_solid(world, cell.walk(Direction::Top)) {
            links.extend(side.walk(Direction::Top));
        }
        if !is_solid(world, Some(side)) {
            links.extend(side.walk(Direction::Bottom));
        }
    }
    links
}

/// Whether the block in a cell acts on another cell.
fn powers(world: &World3D, from: Position, to: Position) -> bool {
    let block = world.get(from);
    let target = world.get(to);
    match block.kind {
        BlockKind::Switch { .. } | BlockKind::RedstoneBlock => from.forwards().contains(&to) && !target.kind.is_air(),
        BlockKind::Torch { .. } => {
            from.forwards().contains(&to) && from.walk(block.direction) != Some(to) && !target.kind.is_air()
        }
        BlockKind::Repeater { .. } => from.walk(block.direction.inverse()) == Some(to),
        BlockKind::Redstone { .. } => match target.kind {
            BlockKind::Redstone { .. } => dust_links(world, from).contains(&to),
            BlockKind::Repeater { .. } => to.walk(target.direction) == Some(from),
            BlockKind::Cobble { .. } => from.cardinal().contains(&to) || from.down() == Some(to),
            _ => false,
        },
        _ => false,
    }
}

fn powers_cobble(world: &World3D, from: Position, to: Position) -> bool {
    world.get(to).kind.is_cobble() && powers(world, from, to)
}

fn spread(world: &World3D, cell: Position) -> Vec<PlaceBound> {
    let block = world.get(cell);
    let cells = match block.kind {
        BlockKind::Repeater { .. } => cell.walk(block.direction.inverse()).into_iter().collect(),
        BlockKind::Redstone { .. } => dust_links(world, cell),
        _ => cell.cardinal(),
    };
    cells
        .into_iter()
        .map(|position| PlaceBound { kind: 0, position, direction: position.diff(cell) })
        .collect()
}

fn is_signal(block: &Block) -> bool {
    !block.kind.is_air() && !block.kind.is_cobble()
}

fn touches(world: &World3D, cell: Position, allowed: &[Position]) -> bool {
    world.iter_block().into_iter().any(|(other, block)| {
        other != cell
            && is_signal(&block)
            && !allowed.contains(&other)
            && (powers(world, cell, other) || powers(world, other, cell))
    })
}

fn dust() -> Block {
    redstone_block()
}

fn repeater(direction: Direction) -> Block {
    Block {
        kind: BlockKind::Repeater { is_on: false, is_locked: false, delay: 1, lock_input1: None, lock_input2: None },
        direction,
    }
}

/// Puts a step of a route into a world, on a support.
fn place(world: &World3D, request: &PlaceRequest) -> Option<(World3D, Position)> {
    let cell = request.bound.position;
    let support = cell.down()?;
    if !world.size.bound_on(cell) || !world.get(cell).kind.is_air() {
        return None;
    }
    let mut next = world.clone();
    let below = world.get(support).kind;
    if below.is_air() {
        next.set(support, cobble_block());
    } else if !below.is_cobble() {
        return None;
    }
    let block = match request.repeater {
        Some(direction) => repeater(direction),
        None => dust(),
    };
    next.set(cell, block);
    if !powers(&next, request.from, cell) {
        return None;
    }
    let mut allowed = vec![request.from, request.target];
    allowed.extend(request.allowed.iter().flatten().copied());
    if touches(&next, cell, &allowed) {
        return None;
    }
    Some((next, cell))
}

fn put(world: &World3D, cell: Position, block: Block, allowed: &Vec<Position>) -> Option<World3D> {
    if !world.size.bound_on(cell) || !world.get(cell).kind.is_air() {
        return None;
    }
    let mut next = world.clone();
    next.set(cell, block);
    if is_signal(&block) && touches(&next, cell, allowed) {
        return None;
    }
    Some(next)
}

/// How strong the signal in each cell is once a world has settled.
fn strengths(world: &World3D) -> HashMap<Position, usize> {
    let blocks = world.iter_block();
    let mut strength: HashMap<Position, usize> = HashMap::new();
    for _ in 0..64 {
        let mut next = HashMap::new();
        for (cell, block) in &blocks {
            let level = |other: &Position| strength.get(other).copied().unwrap_or(0);
            let by_sources = blocks
                .iter()
                .filter(|(other, _)| level(other) > 0 && powers(world, *other, *cell))
                .map(|(other, source)| if source.kind.is_redstone() { level(other) - 1 } else { MAX_REDSTONE_STRENGTH })
                .max()
                .unwrap_or(0);
            let own = match block.kind {
                BlockKind::Switch { is_on } => if is_on { MAX_REDSTONE_STRENGTH } else { 0 },
                BlockKind::RedstoneBlock => MAX_REDSTONE_STRENGTH,
                BlockKind::Torch { is_on } => {
                    let held = cell.walk(block.direction).map_or(0, |held| level(&held));
                    if is_on && held == 0 { MAX_REDSTONE_STRENGTH } else { 0 }
                }
                BlockKind::Repeater { .. } => {
                    let input = cell.walk(block.direction).map_or(0, |input| level(&input));
                    if input > 0 { MAX_REDSTONE_STRENGTH } else { 0 }
                }
                BlockKind::Redstone { .. } => by_sources,
                BlockKind::Cobble { .. } => blocks
                    .iter()
                    .filter(|(other, _)| level(other) > 0 && powers(world, *other, *cell))
                    .count()
                    .min(1),
                BlockKind::Air => 0,
            };
            next.insert(*cell, own);
        }
        if next == strength {
            break;
        }
        strength = next;
    }
    strength
}

fn settle(world: &World3D, source: Position, setting: Option<bool>, cells: &Vec<Position>) -> Option<Vec<bool>> {
    let mut world = world.clone();
    if let (Some(is_on), true) = (setting, world.get(source).kind.is_switch()) {
        let direction = world.get(source).direction;
        world.set(source, Block { kind: BlockKind::Switch { is_on }, direction });
    }
    let strength = strengths(&world);
    Some(cells.iter().map(|cell| strength.get(cell).copied().unwrap_or(0) > 0).collect())
}

fn finish(world: &World3D) -> World3D {
    world.clone()
}

type Rule = fn(&World3D, Position, Position) -> bool;
type Spread = fn(&World3D, Position) -> Vec<PlaceBound>;
type Place = fn(&World3D, &PlaceRequest) -> Option<(World3D, Position)>;
type Put = fn(&World3D, Position, Block, &Vec<Position>) -> Option<World3D>;
type Settle = fn(&World3D, Position, Option<bool>, &Vec<Position>) -> Option<Vec<bool>>;

fn tools() -> RouteTools<Rule, Rule, Spread, Place, Put, Settle> {
    RouteTools { rule: powers, cobble_rule: powers_cobble, spread, place, put, settle }
}

fn point_to_point(world: &World3D, source: Position, sink: Position) -> RouteResult {
    route_point_to_point(&powers, &powers_cobble, &spread, &place, world, source, sink)
}

/// Routes that stay on one layer and lead towards their sink.
fn on_layer(world: &World3D, source: Position, sink: Position, strategy: GlobalRoutingStrategy) -> RouteResult {
    let flat = |world: &World3D, cell: Position| {
        let way = cell.manhattan_distance(&sink);
        spread(world, cell)
            .into_iter()
            .filter(|bound| bound.position.2 == cell.2 && bound.position.manhattan_distance(&sink) < way)
            .collect::<Vec<_>>()
    };
    route_point_to_point_with_strategy(&powers, &powers_cobble, &flat, &place, world, source, sink, strategy)
}

fn with_strategy(
    world: &World3D,
    source: Position,
    sink: Position,
    strategy: GlobalRoutingStrategy,
) -> RouteResult {
    route_point_to_point_with_strategy(&powers, &powers_cobble, &spread, &place, world, source, sink, strategy)
}

// ---------------------------------------------------------------------------
// Worlds
// ---------------------------------------------------------------------------
fn cobble_block() -> Block {
    Block { kind: BlockKind::Cobble { on_count: 0, on_base_count: 0 }, direction: Direction::Unset }
}

fn redstone_block() -> Block {
    Block { kind: BlockKind::Redstone { on_count: 0, state: 0, strength: 0 }, direction: Direction::Unset }
}

fn switch(is_on: bool) -> Block {
    Block { kind: BlockKind::Switch { is_on }, direction: Direction::West }
}

fn torch(is_on: bool) -> Block {
    Block { kind: BlockKind::Torch { is_on }, direction: Direction::East }
}

fn route_test_world(source: Position, sink: Position) -> World3D {
    route_test_world_with_size(source, sink, DimSize(8, 4, 3))
}

fn route_test_world_with_size(source: Position, sink: Position, size: DimSize) -> World3D {
    let mut world = World3D::new(size);
    world.set(source.down().unwrap(), cobble_block());
    world.set(source, redstone_block());
    world.set(sink.down().unwrap(), cobble_block());
    world.set(sink, redstone_block());
    world
}

fn route_test_world_with_switch_source(source: Position, sink: Position, size: DimSize) -> World3D {
    let mut world = World3D::new(size);
    world.set(source, switch(false));
    world.set(sink.down().unwrap(), cobble_block());
    world.set(sink, redstone_block());
    world
}

fn target(position: Position, requires_input_diode: bool) -> ResolvedPortTarget {
    ResolvedPortTarget { position, requires_input_diode, input_repeater_delay: 1 }
}

fn has_repeater(route: &RoutedNet) -> bool {
    route.blocks.iter().any(|(_, block)| block.kind.is_repeater())
}

fn is_powered_from(world: &World3D, source: Position, cell: Position) -> bool {
    settle(world, source, Some(true), &vec![cell]).unwrap()[0]
}

// ---------------------------------------------------------------------------
// Routes between two cells
// ---------------------------------------------------------------------------
#[test]
fn route_point_to_point_places_support_cobble_under_redstone() {
    let source = Position(0, 1, 1);
    let sink = Position(3, 1, 1);
    let world = route_test_world(source, sink);
    let (route, _) = point_to_point(&world, source, sink).unwrap();

    assert!(route.blocks.iter().any(|(_, block)| block.kind.is_cobble()));
    assert!(route.blocks.iter().any(|(_, block)| block.kind.is_redstone()));
}

#[test]
fn route_point_to_point_avoids_blocked_route_position() {
    let source = Position(0, 1, 1);
    let sink = Position(3, 1, 1);
    let mut world = route_test_world(source, sink);
    world.set(Position(1, 1, 1), cobble_block());
    let (route, _) = point_to_point(&world, source, sink).unwrap();

    assert!(!route.blocks.iter().any(|(position, _)| *position == Position(1, 1, 1)));
}

#[test]
fn route_point_to_point_refreshes_long_redstone_with_repeater() {
    let source = Position(0, 1, 1);
    let sink = Position(22, 1, 1);
    let world = route_test_world_with_size(source, sink, DimSize(26, 4, 3));
    let (route, _) = point_to_point(&world, source, sink).unwrap();

    assert!(has_repeater(&route));
}

#[test]
fn route_result_preserves_powered_tap_strengths_for_fanout() {
    let source = Position(0, 1, 1);
    let sink = Position(6, 1, 1);
    let world = route_test_world_with_switch_source(source, sink, DimSize(10, 4, 3));
    let (route, _) = point_to_point(&world, source, sink).unwrap();

    assert!(
        route
            .powered_taps
            .iter()
            .any(|(position, strength)| *position != source && *strength < MAX_REDSTONE_STRENGTH),
        "fanout branch candidates should keep the remaining signal strength from search"
    );
    assert!(route.powered_taps.iter().all(|(_, strength)| *strength <= MAX_REDSTONE_STRENGTH));
}

#[test]
fn route_point_to_point_does_not_assume_unpowered_redstone_has_full_strength() {
    let source = Position(0, 1, 1);
    let sink = Position(14, 1, 1);
    let world = route_test_world_with_size(source, sink, DimSize(18, 4, 3));
    let (route, _) = point_to_point(&world, source, sink).unwrap();

    assert!(
        has_repeater(&route),
        "unpowered redstone output ports need a repeater before a long downstream route"
    );
}

#[test]
fn route_point_to_point_astar_handles_long_unpowered_redstone_route() {
    let source = Position(0, 1, 1);
    let sink = Position(44, 1, 1);
    let world = route_test_world_with_size(source, sink, DimSize(48, 4, 3));
    let (route, _) = with_strategy(&world, source, sink, GlobalRoutingStrategy::AStar).unwrap();

    assert!(route.blocks.iter().filter(|(_, block)| block.kind.is_repeater()).count() >= 2);
}

#[test]
fn route_point_to_point_astar_handles_counter_carry_like_coordinates() {
    let source = Position(26, 10, 3);
    let sink = Position(70, 4, 3);
    let world = route_test_world_with_size(source, sink, DimSize(76, 16, 6));
    let (route, _) = on_layer(&world, source, sink, GlobalRoutingStrategy::AStar).unwrap();

    assert!(has_repeater(&route));
}

#[test]
fn route_point_to_point_greedy_beam_handles_counter_carry_like_coordinates() {
    let source = Position(26, 10, 3);
    let sink = Position(70, 4, 3);
    let world = route_test_world_with_size(source, sink, DimSize(76, 16, 6));
    let strategy =
        GlobalRoutingStrategy::GreedyBeam { beam_width: 64, max_expansions: 1_024, variant_seed: 0 };
    let (route, _) = on_layer(&world, source, sink, strategy).unwrap();

    assert!(has_repeater(&route));
}

#[test]
fn route_point_to_point_direct_greedy_handles_counter_carry_like_coordinates() {
    let source = Position(26, 10, 3);
    let sink = Position(70, 4, 3);
    let world = route_test_world_with_size(source, sink, DimSize(76, 16, 6));
    let strategy = GlobalRoutingStrategy::DirectGreedy { max_steps: 128 };
    let (route, _) = with_strategy(&world, source, sink, strategy).unwrap();

    assert!(has_repeater(&route));
}

#[test]
fn route_point_to_point_supports_astar_strategy() {
    let source = Position(0, 1, 1);
    let sink = Position(22, 1, 1);
    let world = route_test_world_with_size(source, sink, DimSize(26, 4, 3));
    let (route, _) = with_strategy(&world, source, sink, GlobalRoutingStrategy::AStar).unwrap();

    assert!(has_repeater(&route));
}

#[test]
fn route_point_to_point_long_route_powers_sink_through_repeater() {
    let source = Position(0, 1, 1);
    let sink = Position(22, 1, 1);
    let world = route_test_world_with_switch_source(source, sink, DimSize(26, 4, 3));
    let (_, routed_world) = point_to_point(&world, source, sink).unwrap();

    assert!(
        is_powered_from(&routed_world, source, sink),
        "sink redstone should be powered through the inserted repeater"
    );
}

#[test]
fn route_point_to_point_does_not_touch_existing_signal_line() {
    let source = Position(0, 1, 1);
    let sink = Position(6, 1, 1);
    let protected = Position(3, 2, 1);
    let mut world = route_test_world_with_switch_source(source, sink, DimSize(9, 5, 3));
    world.set(protected.down().unwrap(), cobble_block());
    world.set(protected, redstone_block());

    let (_, routed_world) = with_strategy(&world, source, sink, GlobalRoutingStrategy::AStar).unwrap();

    for (position, block) in routed_world.iter_block() {
        if !block.kind.is_redstone() && !block.kind.is_repeater() {
            continue;
        }
        if position == protected || position == source || position == sink {
            continue;
        }
        assert!(
            !powers(&routed_world, position, protected) && !powers(&routed_world, protected, position),
            "route block {position:?} should not electrically touch protected line {protected:?}"
        );
    }
}

#[test]
fn a_sink_that_is_walled_in_is_unreachable() {
    let source = Position(0, 1, 1);
    let sink = Position(3, 1, 1);
    let mut world = route_test_world_with_size(source, sink, DimSize(5, 3, 2));
    for y in 0..3 {
        world.set(Position(2, y, 1), cobble_block());
    }
    let result = with_strategy(&world, source, sink, GlobalRoutingStrategy::BreadthFirst);
    assert_eq!(result.err(), Some(RouteFailure::Unreachable { source, sink }));
}

// ---------------------------------------------------------------------------
// Routes to ports
// ---------------------------------------------------------------------------
fn output_port(source: Position) -> PhysicalPort {
    PhysicalPort {
        name: "q".to_owned(),
        direction: PhysicalPortDirection::Output,
        position: source,
        route_position: None,
        access_points: Vec::new(),
        connection: PortConnection::OutputDiode,
    }
}

#[test]
fn input_diode_route_preserves_powered_taps_for_later_fanout() {
    let source = Position(0, 1, 1);
    let sink = Position(12, 1, 1);
    let world = route_test_world_with_switch_source(source, sink, DimSize(16, 4, 3));

    let (route, _) = tools()
        .route_to_target_position(&world, source, target(sink, true), GlobalRoutingStrategy::AStar, &vec![])
        .unwrap();

    assert!(
        route.powered_taps.len() > 1,
        "diode adapter routes must keep intermediate powered taps for fanout"
    );
}

#[test]
fn output_diode_route_preserves_powered_taps_for_later_fanout() {
    let source = Position(0, 1, 1);
    let sink = Position(12, 1, 1);
    let world = route_test_world_with_size(source, sink, DimSize(16, 4, 3));

    let (route, _) = tools()
        .route_source_to_target_position(
            &world,
            &output_port(source),
            source,
            source,
            target(sink, true),
            GlobalRoutingStrategy::AStar,
            &vec![],
        )
        .unwrap();

    assert!(
        route.powered_taps.len() > 1,
        "output isolation must not discard the route taps used for fanout"
    );
}

#[test]
fn output_diode_route_descends_from_high_latch_tap_to_low_input() {
    let source = Position(75, 16, 5);
    let sink = Position(43, 17, 1);
    let world = route_test_world_with_size(source, sink, DimSize(84, 24, 8));

    tools()
        .route_source_to_target_position(
            &world,
            &output_port(source),
            source,
            source,
            target(sink, false),
            GlobalRoutingStrategy::AStar,
            &vec![],
        )
        .unwrap();
}

#[test]
fn output_diode_route_descends_to_low_input_diode() {
    let source = Position(33, 16, 5);
    let sink = Position(48, 16, 2);
    let world = route_test_world_with_size(source, sink, DimSize(60, 24, 8));

    tools()
        .route_source_to_target_position(
            &world,
            &output_port(source),
            source,
            source,
            target(sink, true),
            GlobalRoutingStrategy::AStar,
            &vec![],
        )
        .unwrap();
}

#[test]
fn output_access_routing_falls_back_to_logical_source() {
    let source = Position(0, 1, 1);
    let sink = Position(5, 1, 1);
    let world = route_test_world_with_size(source, sink, DimSize(8, 4, 3));
    let source_port = PhysicalPort { access_points: vec![Position(99, 99, 99)], ..output_port(source) };

    tools()
        .route_source_to_target_from_access_points(
            &world,
            &source_port,
            source,
            &source_port.access_points,
            target(sink, false),
            GlobalRoutingStrategy::AStar,
            &vec![],
        )
        .unwrap();
}

#[test]
fn route_to_redstone_input_handles_counter_fanout_like_coordinates() {
    let source = Position(25, 10, 3);
    let sink = Position(41, 8, 3);
    let world = route_test_world_with_size(source, sink, DimSize(48, 16, 6));

    tools()
        .route_to_target_position(&world, source, target(sink, true), GlobalRoutingStrategy::AStar, &vec![])
        .unwrap();
}

#[test]
fn route_to_redstone_input_finishes_with_repeater_diode() {
    let source = Position(10, 1, 1);
    let sink = Position(1, 1, 1);
    let world = route_test_world_with_switch_source(source, sink, DimSize(13, 4, 3));

    let (route, routed_world) = tools()
        .route_to_target_position(&world, source, target(sink, true), GlobalRoutingStrategy::BreadthFirst, &vec![])
        .unwrap();

    assert!(has_repeater(&route), "redstone input routes should end through a repeater diode");
    assert!(
        sink.cardinal().into_iter().any(|position| routed_world.size.bound_on(position)
            && routed_world.get(position).kind.is_repeater()
            && powers(&routed_world, position, sink)),
        "the final repeater should power the input redstone"
    );
    assert!(
        is_powered_from(&routed_world, source, sink),
        "input redstone should be powered through the repeater diode"
    );
}

#[test]
fn route_to_redstone_input_preserves_requested_repeater_delay() {
    let source = Position(10, 1, 1);
    let sink = Position(1, 1, 1);
    let world = route_test_world_with_switch_source(source, sink, DimSize(13, 4, 3));
    let asked = ResolvedPortTarget { input_repeater_delay: 3, ..target(sink, true) };

    let (_, routed_world) = tools()
        .route_to_target_position(&world, source, asked, GlobalRoutingStrategy::BreadthFirst, &vec![])
        .unwrap();

    assert!(sink
        .cardinal()
        .into_iter()
        .any(|position| matches!(routed_world.get(position).kind, BlockKind::Repeater { delay: 3, .. })));
}

#[test]
fn route_to_cobble_input_finishes_with_repeater_diode() {
    let source = Position(10, 1, 1);
    let sink = Position(1, 1, 1);
    let mut world = World3D::new(DimSize(13, 4, 3));
    world.set(source, switch(false));
    world.set(sink, cobble_block());

    let (route, routed_world) = tools()
        .route_to_target_position(&world, source, target(sink, true), GlobalRoutingStrategy::BreadthFirst, &vec![])
        .unwrap();

    assert!(has_repeater(&route), "cobble input routes should end through a repeater diode");
    assert!(
        sink.cardinal().into_iter().any(|position| routed_world.size.bound_on(position)
            && routed_world.get(position).kind.is_repeater()
            && powers(&routed_world, position, sink)),
        "the final repeater should power the input cobble"
    );
    assert!(
        is_powered_from(&routed_world, source, sink),
        "input cobble should be powered through the repeater diode"
    );
}

// ---------------------------------------------------------------------------
// Checks
// ---------------------------------------------------------------------------
#[test]
fn active_route_validation_checks_off_switch_after_turning_it_on() {
    let source = Position(0, 1, 1);
    let sink = Position(3, 1, 1);
    let before = route_test_world_with_switch_source(source, sink, DimSize(6, 4, 3));
    let mut after = before.clone();
    after.set(sink.down().unwrap(), cobble_block());
    after.set(sink, redstone_block());
    let route = RoutedNet::new(source, sink, vec![(sink, redstone_block())], vec![source, sink]);

    assert!(
        !active_route_powers_sink(&settle, &before, &after, &route),
        "an off top-level switch must still be validated in the active/on state"
    );
}

#[test]
fn active_route_validation_rejects_route_that_turns_active_source_off() {
    let source = Position(0, 1, 1);
    let sink = Position(3, 1, 1);
    let mut before = route_test_world(source, sink);
    before.set(source, torch(true));
    let mut after = before.clone();
    after.set(source, torch(false));
    let route = RoutedNet::new(source, sink, vec![(sink, redstone_block())], vec![source, sink]);

    assert!(
        !active_route_powers_sink(&settle, &before, &after, &route),
        "a route that disables an already-active source must not be accepted"
    );
}

#[test]
fn active_route_validation_rejects_unpowered_sink_from_active_source() {
    let source = Position(1, 1, 1);
    let sink = Position(4, 1, 1);
    let mut before = route_test_world_with_size(source, sink, DimSize(6, 3, 3));
    before.set(source, torch(true));
    let after = before.clone();
    let route = RoutedNet::new(source, sink, Vec::new(), vec![source, sink]);

    assert!(
        !active_route_powers_sink(&settle, &before, &after, &route),
        "an already-active source must power the routed sink"
    );
}

#[test]
fn active_route_validation_can_check_redstone_sources() {
    let source = Position(1, 1, 1);
    let world = route_test_world_with_size(source, Position(4, 1, 1), DimSize(6, 3, 3));

    assert!(can_validate_active_route_source(&world, source));
}

#[test]
fn active_route_validation_checks_required_powered_positions() {
    let source = Position(0, 1, 1);
    let driver = Position(1, 1, 1);
    let repeater = Position(2, 1, 1);
    let sink = Position(3, 1, 1);
    let mut before = World3D::new(DimSize(5, 3, 3));
    before.set(source, switch(true));
    let mut after = before.clone();
    after.set(sink, switch(true));
    let route = RoutedNet::new(source, sink, Vec::new(), vec![source, driver, repeater, sink])
        .with_required_powered_positions(vec![driver, repeater, sink]);

    assert!(
        !active_route_powers_sink(&settle, &before, &after, &route),
        "isolated routes must validate their diode driver/repeater, not only the logical sink"
    );
}

#[test]
fn route_power_contract_rejects_switch_route_that_stays_on_when_switch_is_off() {
    let source = Position(0, 1, 1);
    let sink = Position(2, 1, 1);
    let mut world = World3D::new(DimSize(4, 3, 3));
    world.set(source, switch(false));
    world.set(sink, Block { kind: BlockKind::RedstoneBlock, direction: Direction::Unset });
    let route = RoutedNet::new(source, sink, Vec::new(), vec![source, sink]);

    assert!(
        !route_power_contract_holds(&powers, &settle, &world, &world, &route),
        "top-level switch routes must not leave required positions powered while the switch is off"
    );
}

#[test]
fn switch_release_contract_can_ignore_independently_powered_diode_target() {
    let source = Position(0, 1, 1);
    let driver = Position(1, 1, 1);
    let sink = Position(2, 1, 1);
    let mut world = World3D::new(DimSize(4, 3, 3));
    world.set(source, switch(false));
    world.set(sink, Block { kind: BlockKind::RedstoneBlock, direction: Direction::Unset });
    let route = RoutedNet::new(source, sink, Vec::new(), vec![source, driver, sink])
        .with_required_powered_positions(vec![driver, sink])
        .with_required_released_positions(vec![driver]);

    assert!(
        switch_route_releases_required_positions_when_off(&settle, &world, &route),
        "input diode routes only need route-owned driver positions to release; the child-side target may be powered independently"
    );
}

#[test]
fn active_route_set_validation_rechecks_routes_against_latest_world() {
    let source = Position(1, 1, 1);
    let sink = Position(4, 1, 1);
    let mut latest_world = route_test_world_with_size(source, sink, DimSize(6, 3, 3));
    latest_world.set(source, torch(true));
    let routes = vec![RoutedNet::new(source, sink, Vec::new(), vec![source, sink])];

    assert_eq!(
        first_invalid_active_route(&powers, &settle, &latest_world, &routes).map(|route| routes[route].sink),
        Some(sink),
        "previously routed active nets must still power their sinks after later routing"
    );
}

// ---------------------------------------------------------------------------
// Negotiation
// ---------------------------------------------------------------------------
fn world_with_pairs(size: DimSize, pairs: &[(Position, Position)]) -> World3D {
    let mut world = World3D::new(size);
    for (source, sink) in pairs {
        world.set(source.down().unwrap(), cobble_block());
        world.set(*source, redstone_block());
        world.set(sink.down().unwrap(), cobble_block());
        world.set(*sink, redstone_block());
    }
    world
}

/// The cheapest way through the free cells of one layer.
fn layer_route(
    world: &World3D,
    source: Position,
    sink: Position,
    _strategy: GlobalRoutingStrategy,
    model: RouteCostModel,
    map: &CongestionMap,
) -> Option<RoutedNet> {
    let mut best: HashMap<Position, (usize, Position)> = HashMap::new();
    best.insert(source, (0, source));
    let mut open = vec![source];
    while !open.is_empty() {
        let at = (0..open.len()).min_by_key(|index| (best[&open[*index]].0, open[*index].0, open[*index].1)).unwrap();
        let cell = open.swap_remove(at);
        let cost = best[&cell].0;
        for next in cell.cardinal() {
            let free = world.size.bound_on(next) && (next == sink || world.get(next).kind.is_air());
            if !free {
                continue;
            }
            let total = cost + 1 + map.cell_cost(next, &model.congestion);
            if best.get(&next).map_or(true, |(known, _)| total < *known) {
                best.insert(next, (total, cell));
                open.push(next);
            }
        }
    }
    best.get(&sink)?;
    let mut path = vec![sink];
    while *path.last().unwrap() != source {
        path.push(best[path.last().unwrap()].1);
    }
    path.reverse();
    let mut blocks = Vec::new();
    for cell in &path[1..path.len() - 1] {
        blocks.push((cell.down().unwrap(), cobble_block()));
        blocks.push((*cell, redstone_block()));
    }
    Some(RoutedNet::new(source, sink, blocks, path))
}

fn net(name: &str, source: Position, sink: Position) -> PathfinderNet {
    PathfinderNet { name: name.to_owned(), source, sink }
}

fn crossing_pairs() -> [(Position, Position); 2] {
    [(Position(0, 0, 1), Position(6, 2, 1)), (Position(0, 2, 1), Position(6, 0, 1))]
}

#[test]
fn single_net_finishes_in_one_iteration() {
    let source = Position(0, 1, 1);
    let sink = Position(5, 1, 1);
    let world = world_with_pairs(DimSize(8, 4, 3), &[(source, sink)]);
    let nets = vec![net("n0", source, sink)];

    let result = negotiate_routes(&world, &nets, &PathfinderConfig::default(), &layer_route);

    assert_eq!(result.iterations, 1);
    assert_eq!(result.unrouted(), 0);
    assert!(result.overused_cells.is_empty());
}

#[test]
fn identical_nets_report_persistent_overuse() {
    let source = Position(0, 0, 1);
    let sink = Position(5, 0, 1);
    let world = world_with_pairs(DimSize(8, 1, 2), &[(source, sink)]);
    let nets = vec![net("n0", source, sink), net("n1", source, sink)];
    let config = PathfinderConfig { max_iterations: 3, ..Default::default() };

    let result = negotiate_routes(&world, &nets, &config, &layer_route);

    assert_eq!(result.iterations, 3);
    assert_eq!(result.unrouted(), 0);
    assert!(!result.overused_cells.is_empty());
}

#[test]
fn pathfinder_negotiation_is_deterministic() {
    let pairs = crossing_pairs();
    let world = world_with_pairs(DimSize(8, 4, 3), &pairs);
    let nets = vec![net("a", pairs[0].0, pairs[0].1), net("b", pairs[1].0, pairs[1].1)];

    let first = negotiate_routes(&world, &nets, &PathfinderConfig::default(), &layer_route);
    let second = negotiate_routes(&world, &nets, &PathfinderConfig::default(), &layer_route);

    let first_paths = first
        .routes
        .iter()
        .map(|route| route.route.as_ref().map(|route| route.path.clone()))
        .collect::<Vec<_>>();
    let second_paths = second
        .routes
        .iter()
        .map(|route| route.route.as_ref().map(|route| route.path.clone()))
        .collect::<Vec<_>>();
    assert_eq!(first_paths, second_paths);
    assert_eq!(first.iterations, second.iterations);
}

#[test]
fn crossing_nets_separate_with_negotiation() {
    let pairs = crossing_pairs();
    let world = world_with_pairs(DimSize(8, 4, 3), &pairs);
    let nets = vec![net("a", pairs[0].0, pairs[0].1), net("b", pairs[1].0, pairs[1].1)];
    let config = PathfinderConfig {
        max_iterations: 16,
        present_penalty: 100,
        history_penalty: 50,
        ..Default::default()
    };
    let result = negotiate_routes(&world, &nets, &config, &layer_route);

    assert_eq!(result.unrouted(), 0);
    assert!(
        result.overused_cells.is_empty(),
        "negotiation left overused cells: {:?} a={:?} b={:?}",
        result.overused_cells,
        result.routes[0].route.as_ref().map(|route| route.path.clone()),
        result.routes[1].route.as_ref().map(|route| route.path.clone())
    );
}

fn route(world: &World3D, source: Position, sink: Position) -> RoutedNet {
    layer_route(
        world,
        source,
        sink,
        GlobalRoutingStrategy::AStar,
        RouteCostModel::default(),
        &CongestionMap::new(),
    )
    .expect("route")
}

#[test]
fn a_clean_route_set_is_returned_unchanged() {
    let source = Position(0, 1, 1);
    let sink = Position(5, 1, 1);
    let world = world_with_pairs(DimSize(8, 4, 3), &[(source, sink)]);
    let routes = vec![route(&world, source, sink)];

    let outcome = negotiate_routed_nets(
        &powers,
        &settle,
        &layer_route,
        &finish,
        &world,
        &routes,
        &PathfinderConfig::default(),
    );

    assert_eq!(outcome.rerouted, 0);
    assert_eq!(outcome.overused_cells, 0);
    assert_eq!(outcome.routes[0].path, routes[0].path);
}

#[test]
fn crossing_routes_separate_and_keep_their_contract() {
    let pairs = crossing_pairs();
    let world = world_with_pairs(DimSize(8, 4, 3), &pairs);
    let routes = vec![route(&world, pairs[0].0, pairs[0].1), route(&world, pairs[1].0, pairs[1].1)];
    let config = PathfinderConfig {
        max_iterations: 16,
        present_penalty: 100,
        history_penalty: 50,
        ..Default::default()
    };

    let outcome =
        negotiate_routed_nets(&powers, &settle, &layer_route, &finish, &world, &routes, &config);

    assert!(outcome.rerouted >= 1, "{outcome:?}");
    assert_eq!(outcome.overused_cells, 0);
    assert_eq!(outcome.routes.len(), 2);
    let assembled = assemble_world_with_routes_raw(&world, &outcome.routes);
    assert!(
        route_power_contract_holds(&powers, &settle, &assembled, &assembled, &outcome.routes[0])
            && route_power_contract_holds(&powers, &settle, &assembled, &assembled, &outcome.routes[1])
    );
}

#[test]
fn negotiation_negotiation_is_deterministic() {
    let pairs = crossing_pairs();
    let world = world_with_pairs(DimSize(8, 4, 3), &pairs);
    let routes = vec![route(&world, pairs[0].0, pairs[0].1), route(&world, pairs[1].0, pairs[1].1)];
    let config = PathfinderConfig {
        max_iterations: 16,
        present_penalty: 100,
        history_penalty: 50,
        ..Default::default()
    };

    let negotiate =
        || negotiate_routed_nets(&powers, &settle, &layer_route, &finish, &world, &routes, &config);
    let first = negotiate();
    let second = negotiate();

    let first_paths = first.routes.iter().map(|route| route.path.clone()).collect::<Vec<_>>();
    let second_paths = second.routes.iter().map(|route| route.path.clone()).collect::<Vec<_>>();
    assert_eq!(first_paths, second_paths);
    assert_eq!(first.rerouted, second.rerouted);
}

// ---------------------------------------------------------------------------
// Placed modules
// ---------------------------------------------------------------------------
fn candidate(
    module_name: &str,
    block_position: Position,
    port_name: &str,
    direction: PhysicalPortDirection,
) -> LayoutCandidate {
    let mut world = World3D::new(DimSize(2, 1, 2));
    world.set(block_position.down().unwrap(), cobble_block());
    world.set(block_position, redstone_block());
    LayoutCandidate::from_world(
        module_name.to_owned(),
        world,
        vec![PhysicalPort {
            name: port_name.to_owned(),
            direction,
            position: block_position,
            route_position: None,
            access_points: Vec::new(),
            connection: PortConnection::Direct,
        }],
    )
    .unwrap()
}

fn placed(name: &str, candidate_index: usize, origin: Position, candidates: &[LayoutCandidate]) -> PlacedModule {
    PlacedModule { module_name: name.to_owned(), candidate_index, origin, bbox: candidates[candidate_index].bbox }
}

#[test]
fn resolve_port_targets_uses_exposed_route_position() {
    let mut candidates = vec![candidate("right", Position(0, 0, 1), "in", PhysicalPortDirection::Input)];
    candidates[0].ports[0].route_position = Some(Position(1, 0, 1));
    let placed = vec![placed("right", 0, Position(10, 20, 0), &candidates)];

    let targets = resolve_port_targets(&candidates, &placed, "right", "in");

    assert_eq!(targets.len(), 1);
    assert_eq!(targets[0].position, Position(11, 20, 1));
    assert!(resolve_port_targets(&candidates, &placed, "right", "out").is_empty());
}

fn two_modules() -> (Vec<LayoutCandidate>, Vec<PlacedModule>) {
    let candidates = vec![
        candidate("left", Position(0, 0, 1), "out", PhysicalPortDirection::Output),
        candidate("right", Position(0, 0, 1), "in", PhysicalPortDirection::Input),
    ];
    let modules = vec![
        placed("left", 0, Position(4, 4, 0), &candidates),
        placed("right", 1, Position(8, 4, 0), &candidates),
    ];
    (candidates, modules)
}

#[test]
fn placed_modules_make_one_world() {
    let (candidates, modules) = two_modules();
    let world = placed_candidate_world(&finish, &candidates, &modules).unwrap();
    assert_eq!(world.size, DimSize(17, 13, 10));
    assert!(world.get(Position(8, 4, 1)).kind.is_redstone());
    assert_eq!(world.iter_block().len(), 4);

    let colliding = vec![modules[0].clone(), placed("right", 1, Position(4, 4, 0), &candidates)];
    assert_eq!(
        placed_candidate_world(&finish, &candidates, &colliding).err(),
        Some(PlacedWorldError::Collision(Position(4, 4, 0)))
    );
    let missing = vec![PlacedModule { candidate_index: 5, ..modules[0].clone() }];
    assert_eq!(
        placed_candidate_world(&finish, &candidates, &missing).err(),
        Some(PlacedWorldError::MissingCandidate(5))
    );
}

fn endpoint(instance: usize, port: usize) -> ResolvedEndpoint {
    ResolvedEndpoint::InstancePort { instance, port }
}

fn topology(driver: ResolvedEndpoint, sinks: Vec<ResolvedEndpoint>) -> ResolvedPnrTopology {
    let port = |name: &str| ResolvedPort { name: name.to_owned() };
    let instance = |name: &str| ResolvedInstance { display_name: name.to_owned() };
    ResolvedPnrTopology {
        ports: vec![port("out"), port("in"), port("a"), port("y")],
        instances: vec![instance("left"), instance("right")],
        nets: vec![ResolvedNet { id: 0, display_name: "data".to_owned(), driver, sinks }],
    }
}

fn route_topology(
    topology: &ResolvedPnrTopology,
    candidates: &Vec<LayoutCandidate>,
    modules: &Vec<PlacedModule>,
    prefix: &Vec<RoutedNet>,
) -> Result<Vec<RoutedNet>, RoutingError> {
    tools()
        .route_resolved_topology_with_order_from_prefix(
            &|_: usize| 0,
            &finish,
            topology,
            candidates,
            modules,
            GlobalRoutingConfig::default(),
            NetOrderStrategy::Criticality,
            prefix,
        )
        .map_err(|failure| failure.error)
}

#[test]
fn resolved_routing_binds_physical_branches_to_typed_net_ids() {
    let (candidates, modules) = two_modules();
    let left_endpoint = endpoint(0, 0);
    let right_endpoint = endpoint(1, 1);
    let topology = topology(left_endpoint, vec![right_endpoint]);

    let routes = route_topology(&topology, &candidates, &modules, &vec![]).unwrap();

    assert_eq!(routes.len(), 1);
    assert_eq!(routes[0].net_id, Some(0));
    assert_eq!(routes[0].source_endpoint, Some(left_endpoint));
    assert_eq!(routes[0].sink_endpoint, Some(right_endpoint));
    assert_eq!(routes[0].source_label.as_deref(), Some("left.out"));
    assert_eq!(routes[0].sink_label.as_deref(), Some("right.in"));

    // What is routed is not routed again.
    let again = route_topology(&topology, &candidates, &modules, &routes).unwrap();
    assert_eq!(again.len(), 1);
    assert_eq!(again[0].path, routes[0].path);
}

#[test]
fn inputs_of_a_design_get_a_switch() {
    let (candidates, modules) = two_modules();
    let topology = topology(ResolvedEndpoint::TopPort { port: 2 }, vec![endpoint(1, 1)]);
    let routes = route_topology(&topology, &candidates, &modules, &vec![]).unwrap();
    assert_eq!(routes.len(), 2);
    assert_eq!(routes[0].sink_label.as_deref(), Some("a.switch"));
    assert_eq!(routes[1].sink_label.as_deref(), Some("a.sink"));
    assert_eq!(routes[1].sink_endpoint, Some(endpoint(1, 1)));
    let inputs = collect_topology_input_endpoints(&topology, &routes);
    assert_eq!(inputs.len(), 1);
    assert_eq!(inputs[0].name, "a");
    assert_eq!(inputs[0].position, routes[0].source);
    let world = placed_candidate_world(&finish, &candidates, &modules).unwrap();
    let assembled = assemble_world_with_routes_raw(&world, &routes);
    assert!(is_powered_from(&assembled, routes[0].source, Position(8, 4, 1)));
}

#[test]
fn outputs_of_a_design_are_observed_at_their_drivers() {
    let (candidates, modules) = two_modules();
    let topology = topology(endpoint(0, 0), vec![ResolvedEndpoint::TopPort { port: 3 }]);
    let outputs = collect_topology_output_endpoints(&topology, &candidates, &modules);
    assert_eq!(outputs.len(), 1);
    assert_eq!(outputs[0].name, "y");
    assert_eq!(outputs[0].position, Position(4, 4, 1));
}

#[test]
fn plans_tell_inputs_from_connections() {
    let plan = RoutingPlan::from_resolved(&topology(endpoint(0, 0), vec![endpoint(1, 1)])).unwrap();
    assert_eq!(plan.vars.len(), 1);
    assert_eq!(plan.vars[0].target.0, "right");
    assert!(plan.top_inputs.is_empty());
    assert_eq!(
        RoutingPlan::from_resolved(&topology(endpoint(7, 0), vec![])).err(),
        Some(PlanError::InvalidDriver { net: 0 })
    );
    assert_eq!(
        RoutingPlan::from_resolved(&topology(ResolvedEndpoint::TopPort { port: 9 }, vec![])).err(),
        Some(PlanError::UnknownTopInput { net: 0 })
    );
}

fn connection(source: (&str, &str), target: (&str, &str)) -> RoutingConnection {
    RoutingConnection {
        source: (source.0.to_owned(), source.1.to_owned()),
        target: (target.0.to_owned(), target.1.to_owned()),
    }
}

#[test]
fn connections_to_ports_that_are_not_placed_fail() {
    let (candidates, modules) = two_modules();
    let world = placed_candidate_world(&finish, &candidates, &modules).unwrap();
    let config = GlobalRoutingConfig::default();
    let mut routes = Vec::new();
    let vars = vec![connection(("gone", "out"), ("right", "in"))];
    let result =
        tools().route_internal_module_nets(&vars, &candidates, &modules, config, world.clone(), &mut routes);
    assert_eq!(result.err(), Some(NetFailure::SourceNotPlaced { var: 0 }));
    let vars = vec![connection(("left", "out"), ("right", "gone"))];
    let result =
        tools().route_internal_module_nets(&vars, &candidates, &modules, config, world.clone(), &mut routes);
    assert_eq!(result.err(), Some(NetFailure::TargetNotPlaced { var: 0 }));
    assert!(routes.is_empty());
}

#[test]
fn inputs_without_room_for_a_switch_fail() {
    let (candidates, modules) = two_modules();
    let mut world = World3D::new(DimSize(9, 5, 2));
    for (position, block) in placed_candidate_world(&finish, &candidates, &modules).unwrap().iter_block() {
        world.set(position, block);
    }
    for x in 0..9 {
        for y in 0..5 {
            if world.get(Position(x, y, 1)).kind.is_air() {
                world.set(Position(x, y, 1), cobble_block());
            }
        }
    }
    let inputs = vec![RoutingTopInput {
        name: "a".to_owned(),
        targets: vec![("right".to_owned(), "in".to_owned())],
    }];
    let mut routes = Vec::new();
    let result = tools().route_top_input_ports(
        &inputs,
        &candidates,
        &modules,
        GlobalRoutingConfig::default(),
        &vec![],
        world,
        &mut routes,
    );
    assert_eq!(result.err(), Some((0, InputFailure::NoSwitch)));
}

#[test]
fn given_routes_must_be_inside_the_world() {
    let (candidates, modules) = two_modules();
    let topology = topology(endpoint(0, 0), vec![endpoint(1, 1)]);
    let far = Position(500, 0, 0);
    let prefix = vec![RoutedNet::new(far, far, vec![(far, redstone_block())], vec![far])];
    assert_eq!(
        route_topology(&topology, &candidates, &modules, &prefix).err(),
        Some(RoutingError::PrefixOutside { cell: far })
    );
}

#[test]
fn failures_say_what_could_not_be_routed() {
    let (candidates, modules) = two_modules();
    let far = Position(500, 0, 0);
    let prefix = vec![RoutedNet::new(far, far, vec![(far, redstone_block())], vec![far])];
    let failed = |topology: &ResolvedPnrTopology, modules: &Vec<PlacedModule>, prefix: &Vec<RoutedNet>| {
        tools()
            .route_resolved_topology_with_order_from_prefix(
                &|_: usize| 0,
                &finish,
                topology,
                &candidates,
                modules,
                GlobalRoutingConfig::default(),
                NetOrderStrategy::Criticality,
                prefix,
            )
            .expect_err("nothing is routed")
            .message
    };
    let joined = topology(endpoint(0, 0), vec![endpoint(1, 1)]);
    assert_eq!(
        failed(&joined, &modules, &prefix),
        "routed prefix block Position(500, 0, 0) is outside route world"
    );
    let mut renamed = joined.clone();
    renamed.ports[0].name = "gone".to_owned();
    assert_eq!(failed(&renamed, &modules, &vec![]), "source port left.gone is not placed");
    let mut unmade = modules.clone();
    unmade[0].candidate_index = 7;
    assert_eq!(failed(&joined, &unmade, &vec![]), "missing candidate 7");
    let strange = topology(ResolvedEndpoint::TopPort { port: 9 }, vec![]);
    assert_eq!(failed(&strange, &modules, &vec![]), "resolved routing plan has an unknown top input");
}

#[test]
fn branches_start_from_powered_sources() {
    let source = Position(0, 1, 1);
    let sink = Position(6, 1, 1);
    let world = route_test_world_with_switch_source(source, sink, DimSize(10, 4, 3));
    let sources = vec![PoweredRouteSource { position: source, strength: MAX_REDSTONE_STRENGTH }];
    let (route, after) = tools()
        .route_to_target_from_powered_network(
            &world,
            &sources,
            target(sink, false),
            GlobalRoutingStrategy::AStar,
            &vec![],
        )
        .unwrap();
    assert_eq!(route.source, source);
    assert!(is_powered_from(&after, source, sink));
    assert_eq!(SIDES.len(), source.walk(Direction::East).unwrap().cardinal().len());
}

// ---------------------------------------------------------------------------
// Orders
// ---------------------------------------------------------------------------
fn goes_first(left: RoutingConnection, right: RoutingConnection) -> bool {
    route_variable_priority(&left).is_before(&route_variable_priority(&right))
}

#[test]
fn route_priority_routes_high_bit_feedback_first() {
    let q0_feedback = connection(("q_0_slave", "q"), ("q_0_next", "q_0"));
    let q1_feedback = connection(("q_1_slave", "q"), ("q_1_next", "q_1"));
    assert!(goes_first(q1_feedback, q0_feedback));
}

#[test]
fn route_priority_routes_cross_bit_next_input_before_own_bit_feedback() {
    let q0_to_own_bit = connection(("q_0_slave", "q"), ("q_0_next", "q_0"));
    let q0_to_next_bit = connection(("q_0_slave", "q"), ("q_1_next", "q_0"));
    assert!(goes_first(q0_to_next_bit, q0_to_own_bit));
}

#[test]
fn route_priority_routes_cross_bit_next_input_before_next_to_master_output() {
    let fanin_to_next = connection(("q_0_slave", "q"), ("q_1_next", "q_0"));
    let next_to_master = connection(("q_1_next", "d"), ("q_1_master", "d"));
    assert!(goes_first(fanin_to_next, next_to_master));
}

#[test]
fn route_priority_routes_next_to_master_output_before_self_feedback() {
    let self_feedback = connection(("q_1_slave", "q"), ("q_1_next", "q_1"));
    let next_to_master = connection(("q_1_next", "d"), ("q_1_master", "d"));
    assert!(goes_first(next_to_master, self_feedback));
}

#[test]
fn route_priority_routes_master_to_slave_handoff_before_feedback() {
    let master_to_slave = connection(("q_0_master", "q"), ("q_0_slave", "d"));
    let self_feedback = connection(("q_0_slave", "q"), ("q_0_next", "q_0"));
    assert!(goes_first(master_to_slave, self_feedback));
}

#[test]
fn route_priority_routes_clock_inverter_enable_before_self_feedback() {
    let clock_to_master = connection(("q_0_clk_inv", "clk_n"), ("q_0_master", "en"));
    let self_feedback = connection(("q_0_slave", "q"), ("q_0_next", "q_0"));
    assert!(goes_first(clock_to_master, self_feedback));
}

#[test]
fn route_priority_routes_cross_bit_next_input_before_clock_enable() {
    let cross_bit = connection(("q_0_slave", "q"), ("q_1_next", "q_0"));
    let clock_to_master = connection(("q_0_clk_inv", "clk_n"), ("q_0_master", "en"));
    assert!(goes_first(cross_bit, clock_to_master));
}

#[test]
fn route_priority_routes_cross_bit_next_input_before_master_to_slave_handoff() {
    let cross_bit = connection(("q_0_slave", "q"), ("q_1_next", "q_0"));
    let master_to_slave = connection(("q_0_master", "q"), ("q_0_slave", "d"));
    assert!(goes_first(cross_bit, master_to_slave));
}

#[test]
fn route_priority_routes_next_to_master_data_before_clock_enable() {
    let next_to_master = connection(("q_1_next", "d"), ("q_1_master", "d"));
    let clock_to_master = connection(("q_1_clk_inv", "clk_n"), ("q_1_master", "en"));
    assert!(goes_first(next_to_master, clock_to_master));
}

#[test]
fn top_input_fanout_prioritizes_sinks_near_current_route_tree() {
    let sinks = vec![
        target(Position(2, 0, 1), false),
        target(Position(8, 0, 1), false),
        target(Position(5, 0, 1), false),
    ];
    let route_sources =
        vec![PoweredRouteSource { position: Position(4, 0, 1), strength: MAX_REDSTONE_STRENGTH }];

    let sinks = sort_top_input_sinks_by_current_tree(&sinks, &route_sources);

    assert_eq!(
        sinks.iter().map(|sink| sink.position).collect::<Vec<_>>(),
        vec![Position(5, 0, 1), Position(2, 0, 1), Position(8, 0, 1)]
    );
}

#[test]
fn internal_fanout_routes_far_sink_before_near_sink() {
    let source = PoweredRouteSource { position: Position(0, 1, 0), strength: MAX_REDSTONE_STRENGTH };
    let far_var = connection(("q_0_slave", "q"), ("q_1_next", "q_0"));
    let near_var = connection(("q_0_slave", "q"), ("q_0_next", "q_0"));
    let far_sink = target(Position(10, 1, 0), true);
    let near_sink = target(Position(3, 1, 0), true);
    let sink = |var: usize, connection: &RoutingConnection, target: ResolvedPortTarget| InternalSink {
        var,
        target,
        bit_order: register_next_target_bit_order(&connection.target.0),
    };
    let sinks = vec![sink(0, &near_var, near_sink), sink(1, &far_var, far_sink)];

    let order = sort_internal_sink_targets_by_current_tree(&sinks, &vec![source]);

    assert_eq!(sinks[order[0]].target.position, far_sink.position);
    assert_eq!(sinks[order[1]].target.position, near_sink.position);
}

#[test]
fn route_var_grouping_preserves_sorted_priority_boundaries() {
    let vars = vec![
        connection(("q_0_slave", "q"), ("q_0_next", "q_0")),
        connection(("q_1_slave", "q"), ("q_1_next", "q_1")),
        connection(("q_0_slave", "q"), ("q_1_next", "q_0")),
    ];

    let ends = group_vars_by_source_ordered(&vars);

    // Each connection is a group of its own.
    assert_eq!(ends.len(), 3);
    assert_eq!(ends, vec![1, 2, 3]);
}

#[test]
fn route_var_grouping_keeps_adjacent_same_source_fanout_together() {
    let vars = vec![
        connection(("q_0_slave", "q"), ("q_0_next", "q_0")),
        connection(("q_0_slave", "q"), ("q_1_next", "q_0")),
    ];

    let ends = group_vars_by_source_ordered(&vars);

    assert_eq!(ends.len(), 1);
    assert_eq!(ends, vec![2]);
}

#[test]
fn net_orders_follow_their_strategy() {
    let vars = vec![
        connection(("a", "y"), ("b", "x")),
        connection(("q_1_next", "d"), ("q_1_master", "d")),
        connection(("a", "y"), ("c", "x")),
    ];
    assert_eq!(ordered_module_variables(&vars, NetOrderStrategy::Criticality), vec![1, 0, 2]);
    assert_eq!(ordered_module_variables(&vars, NetOrderStrategy::ReverseCriticality), vec![2, 0, 1]);
    assert_eq!(ordered_module_variables(&vars, NetOrderStrategy::HighestFanoutFirst), vec![0, 2, 1]);
}

// ---------------------------------------------------------------------------
// Layouts of modules
// ---------------------------------------------------------------------------
#[test]
fn candidate_pin_search_is_scoped_by_definition_and_port() {
    let policies = CandidatePolicySet::default()
        .with_pin_search("first".to_owned(), "d".to_owned(), vec![Position(1, 2, 3)])
        .with_pin_search("second".to_owned(), "d".to_owned(), vec![Position(4, 5, 1)]);

    assert_eq!(
        policies.effective_for_definition("first").input_constraints.positions_for_input_name("d"),
        Some(vec![Position(1, 2, 3)])
    );
    assert_eq!(
        policies.effective_for_definition("second").input_constraints.positions_for_input_name("d"),
        Some(vec![Position(4, 5, 1)])
    );
    assert_eq!(
        policies.effective_for_definition("third").input_constraints.positions_for_input_name("d"),
        None
    );
}

#[test]
fn switchless_direct_input_exposes_powered_redstone_instead_of_support_cobble() {
    let switch_cell = Position(1, 1, 1);
    let support = Position(1, 1, 0);
    let input_cobble = Position(2, 1, 1);
    let input_redstone = Position(2, 1, 2);
    let mut world = World3D::new(DimSize(4, 3, 4));
    world.set(support, cobble_block());
    world.set(switch_cell, Block { kind: BlockKind::Switch { is_on: false }, direction: Direction::East });
    world.set(input_cobble, cobble_block());
    world.set(input_redstone, redstone_block());

    // A switch acts through the block in front of it on the dust above that.
    let through = |world: &World3D, from: Position, to: Position| {
        powers(world, from, to)
            || (world.get(from).kind.is_switch()
                && from.forwards().into_iter().any(|middle| {
                    world.get(middle).kind.is_cobble()
                        && middle.walk(Direction::Top) == Some(to)
                        && world.get(to).kind.is_redstone()
                }))
    };
    let port = expose_switchless_input_port(&through, &mut world, switch_cell, false, true).expect("input port");

    assert_eq!(port, input_redstone);
    assert!(world.get(switch_cell).kind.is_air());
}

fn implementation(name: &str, definition: &str, max_candidates: usize, contract: CellPhysicalContract) -> CellImplementation {
    CellImplementation {
        name: name.to_owned(),
        definitions: vec![definition.to_owned()],
        candidate: UnitCandidateConfig { max_candidates, ..Default::default() },
        contract,
        priority: 1,
    }
}

#[test]
fn cell_library_implementation_overrides_default_but_not_explicit_override() {
    let library = CellLibrary {
        implementations: vec![implementation("d_latch.compact", "d_latch", 7, CellPhysicalContract::default())],
        ..CellLibrary::redstone_v1()
    };
    let policies = CandidatePolicySet::default().with_cell_library(library);

    assert_eq!(policies.effective_for_definition("d_latch").max_candidates, 7);
    assert_eq!(
        policies.effective_for_definition("other").max_candidates,
        UnitCandidateConfig::default().max_candidates
    );

    let explicit = policies.with_definition_override(
        "d_latch".to_owned(),
        UnitCandidateConfig { max_candidates: 9, ..Default::default() },
    );
    assert_eq!(explicit.effective_for_definition("d_latch").max_candidates, 9);
}

#[test]
fn effective_contract_resolves_from_the_cell_library() {
    let contract = CellPhysicalContract { halo: 1, requires_input_isolation: true, ..Default::default() };
    let library = CellLibrary {
        implementations: vec![implementation("inv.isolated", "inv", 1, contract)],
        ..CellLibrary::redstone_v1()
    };
    let policies = CandidatePolicySet::default().with_cell_library(library);

    let contract = policies.effective_contract_for_definition("inv").expect("matching contract");
    assert_eq!(contract.halo, 1);
    assert!(contract.requires_input_isolation);
    assert!(policies.effective_contract_for_definition("other").is_none());
}

fn inverter_module() -> RoutableModule {
    RoutableModule {
        name: "inv".to_owned(),
        ports: vec![
            RoutablePort { name: "a".to_owned(), direction: RoutablePortDirection::Input },
            RoutablePort { name: "y".to_owned(), direction: RoutablePortDirection::Output },
        ],
        body: RoutableModuleBody::Leaf { nodes: vec![] },
    }
}

fn inverter_nodes() -> Vec<GraphNode> {
    let input = GraphNode { id: 0, kind: GraphNodeKind::Input("a".to_owned()), ..Default::default() };
    let gate = GraphNode {
        id: 1,
        kind: GraphNodeKind::Logic(Logic { logic_type: LogicType::Not }),
        inputs: vec![0],
        ..Default::default()
    };
    let output =
        GraphNode { id: 2, kind: GraphNodeKind::Output("y".to_owned()), inputs: vec![1], ..Default::default() };
    vec![input, gate, output]
}

fn inverter_table() -> TruthTable {
    TruthTable {
        input_names: vec!["a".to_owned()],
        output_tables: vec![OutputTable { name: "y".to_owned(), values: vec![true, false] }],
    }
}

/// A switch, a block, a torch on its other side, and `length` dust behind it.
fn placed_inverter(length: usize) -> PlacedWorld {
    let mut world = World3D::new(DimSize(8, 3, 3));
    let input = Position(0, 1, 1);
    world.set(input, Block { kind: BlockKind::Switch { is_on: false }, direction: Direction::East });
    world.set(Position(1, 1, 1), cobble_block());
    world.set(Position(2, 1, 1), Block { kind: BlockKind::Torch { is_on: true }, direction: Direction::West });
    for x in 3..3 + length {
        world.set(Position(x, 1, 0), cobble_block());
        world.set(Position(x, 1, 1), redstone_block());
    }
    PlacedWorld {
        world,
        inputs: vec![PlacedEndpoint { name: "a".to_owned(), position: input }],
        outputs: vec![PlacedEndpoint { name: "y".to_owned(), position: Position(2 + length, 1, 1) }],
    }
}

/// What the cells of a world come to once its inputs are set.
fn observe(
    world: &World3D,
    steps: &Vec<Vec<(Position, bool)>>,
    cells: &Vec<Position>,
    _rest: bool,
) -> Result<Vec<bool>, String> {
    let mut world = world.clone();
    for (cell, is_on) in steps.iter().flatten() {
        world.set(*cell, switch(*is_on));
    }
    let strength = strengths(&world);
    Ok(cells.iter().map(|cell| strength.get(cell).copied().unwrap_or(0) > 0).collect())
}

fn unlimited() -> PlacingWork {
    PlacingWork { exceeded: false, clone_limit: 7, work_limit: 9 }
}

#[test]
fn layouts_are_not_made_beyond_a_limit() {
    let generate = |counters: &mut PerfCounters, rss: Option<usize>, work: &PlacingWork| {
        generate_routable_module_candidates_with_progress_label(
            counters,
            rss,
            work,
            &inverter_module(),
            &inverter_nodes(),
            &|_: &Vec<GraphNode>| inverter_table(),
            vec![placed_inverter(1)],
            &UnitCandidateConfig { dim: DimSize(6, 6, 3), max_candidates: 2, ..Default::default() },
            None,
            &powers,
            &observe,
        )
    };
    let mut counters = PerfCounters::default();
    counters.set_budget_mb(1);
    assert!(generate(&mut counters, Some(MEBIBYTE), &unlimited()).is_ok());
    assert!(!counters.budget_exceeded());

    let error = generate(&mut counters, Some(3 * MEBIBYTE), &unlimited()).unwrap_err();
    assert_eq!(
        error.message(),
        "memory budget exceeded during local candidate generation: RSS 3 MiB > budget 1 MiB; reduce the design or raise --memory-budget-mb"
    );
    assert!(counters.budget_exceeded());
    assert_eq!(counters.peak_rss_bytes(), 3 * MEBIBYTE);

    let error = generate(&mut counters, None, &unlimited()).unwrap_err();
    assert_eq!(
        error.message(),
        format!("memory budget exceeded during local candidate generation for `{}`", inverter_module().name)
    );

    let spent = PlacingWork { exceeded: true, ..unlimited() };
    let error = generate(&mut PerfCounters::default(), None, &spent).unwrap_err();
    assert!(matches!(&error, GenerationError::OverWork { clone_limit: 7, work_limit: 9, .. }));
    assert_eq!(
        error.message(),
        format!(
            "local candidate generation for `{}` exceeded its work limit (clone budget 7 / placement budget 9); the design is too dense for the current local placer",
            inverter_module().name
        )
    );
}

#[test]
fn generated_candidates_form_a_pareto_frontier() {
    let module = inverter_module();
    let config = UnitCandidateConfig { dim: DimSize(6, 6, 3), max_candidates: 4, ..Default::default() };

    let candidates = generate_routable_module_candidates_with_progress_label(
        &mut PerfCounters::default(),
        None,
        &unlimited(),
        &module,
        &inverter_nodes(),
        &|_: &Vec<GraphNode>| inverter_table(),
        vec![placed_inverter(2), placed_inverter(1), placed_inverter(3)],
        &config,
        None,
        &powers,
        &observe,
    )
    .unwrap();

    assert!(!candidates.is_empty(), "inverter leaf must produce at least one candidate");
    for (left_index, left) in candidates.iter().enumerate() {
        for (right_index, right) in candidates.iter().enumerate() {
            if left_index == right_index {
                continue;
            }
            assert!(
                !dominates(&left.cost, &right.cost),
                "candidate {left_index} dominates candidate {right_index}"
            );
        }
    }
}

#[test]
fn contract_halo_and_isolation_reach_generated_candidates() {
    let module = inverter_module();
    let contract = CellPhysicalContract { halo: 2, requires_output_isolation: true, ..Default::default() };
    let config = UnitCandidateConfig { dim: DimSize(6, 6, 3), max_candidates: 2, ..Default::default() };

    let candidates = generate_routable_module_candidates_with_progress_label(
        &mut PerfCounters::default(),
        None,
        &unlimited(),
        &module,
        &inverter_nodes(),
        &|_: &Vec<GraphNode>| inverter_table(),
        vec![placed_inverter(2)],
        &config,
        Some(&contract),
        &powers,
        &observe,
    )
    .unwrap();

    assert!(!candidates.is_empty());
    for candidate in &candidates {
        assert_eq!(candidate.halo, 2);
        assert!(candidate.placement_bbox().width() > candidate.bbox.width());
        let output = candidate
            .ports
            .iter()
            .find(|port| port.direction == PhysicalPortDirection::Output)
            .expect("output port");
        assert_eq!(output.connection, PortConnection::OutputDiode);
    }
}

#[test]
fn layouts_with_state_are_not_checked() {
    let module = inverter_module();
    let config = UnitCandidateConfig { dim: DimSize(6, 6, 3), max_candidates: 2, ..Default::default() };
    let wrong = |_: &Vec<GraphNode>| TruthTable {
        input_names: vec!["a".to_owned()],
        output_tables: vec![OutputTable { name: "y".to_owned(), values: vec![false, true] }],
    };
    let generate = |nodes: &Vec<GraphNode>| {
        generate_routable_module_candidates_with_progress_label(
            &mut PerfCounters::default(),
            None,
            &unlimited(),
            &module,
            nodes,
            &wrong,
            vec![placed_inverter(2)],
            &config,
            None,
            &powers,
            &observe,
        )
        .unwrap()
    };
    assert!(generate(&inverter_nodes()).is_empty());

    let mut nodes = inverter_nodes();
    nodes[1].kind = GraphNodeKind::Sequential(SequentialPrimitive::new(SequentialType::DLatch, vec![], vec![]));
    assert_eq!(generate(&nodes).len(), 1);
}

#[test]
fn layouts_that_compute_something_else_are_dropped() {
    let wrong = TruthTable {
        input_names: vec!["a".to_owned()],
        output_tables: vec![OutputTable { name: "y".to_owned(), values: vec![false, true] }],
    };
    assert_eq!(candidate_matches_truth_table(&wrong, &placed_inverter(1), &observe).ok(), Some(false));
    assert_eq!(candidate_matches_truth_table(&inverter_table(), &placed_inverter(1), &observe).ok(), Some(true));
    let unknown = TruthTable { input_names: vec!["b".to_owned()], ..inverter_table() };
    assert!(matches!(
        candidate_matches_truth_table(&unknown, &placed_inverter(1), &observe),
        Err(CheckError::MissingInput(_))
    ));
}

#[test]
fn policy_sets_stand_for_their_default() {
    let mut policies = CandidatePolicySet::from(UnitCandidateConfig { max_candidates: 5, ..Default::default() });
    assert_eq!(policies.max_candidates, 5);
    assert_eq!(policies.combinational_sampling_limit, Some(32));
    assert!(policies.definition_overrides.is_empty());
    assert!(policies.pin_search.is_empty());
    assert_eq!(policies.cell_library.name, "redstone-v1-default");
    assert!(policies.cell_library.implementations.is_empty());
    policies.max_candidates = 7;
    assert_eq!(policies.default.max_candidates, 7);
}

use redstone_compiler::transform::place_and_route::global_pnr::route_engine::congestion::{
    CongestionConfig, CongestionMap,
};
use redstone_compiler::transform::place_and_route::global_pnr::route_engine::cost::RouteCostModel;
use redstone_compiler::transform::place_and_route::global_pnr::route_engine::state::{
    PoweredRouteSource, RouteSearchState,
};
use redstone_compiler::transform::place_and_route::move_eval::MoveDelta;
use redstone_compiler::transform::place_and_route::sa_placer::measure::PlacementMeasure;
use redstone_compiler::world::block::{Block, BlockKind};
use redstone_compiler::world::grid::World3D;
use redstone_compiler::world::position::{DimSize, Direction, Position};

fn config(present_penalty: usize, history_penalty: usize) -> CongestionConfig {
    CongestionConfig { present_penalty, history_penalty }
}

#[test]
fn shared_cells_report_present_overuse() {
    let mut map = CongestionMap::new();
    let shared = Position(1, 0, 0);
    map.add_route(&vec![Position(0, 0, 0), shared]);
    map.add_route(&vec![shared, Position(2, 0, 0)]);

    assert_eq!(map.usage(shared), 2);
    assert_eq!(map.present_overuse(shared), 1);
    assert_eq!(map.overused_cells(), vec![shared]);
    assert_eq!(map.cell_cost(shared, &config(10, 0)), 10);
    assert_eq!(map.cell_cost(Position(0, 0, 0), &config(10, 0)), 0);
}

#[test]
fn ripping_a_route_releases_its_usage() {
    let mut map = CongestionMap::new();
    let path = vec![Position(0, 0, 0), Position(1, 0, 0)];
    map.add_route(&path);
    assert_eq!(map.usage(Position(1, 0, 0)), 1);

    map.rip_route(&path);
    assert!(map.is_empty());
    assert_eq!(map.usage(Position(1, 0, 0)), 0);
}

#[test]
fn commit_accumulates_history_that_outlives_rip_up() {
    let mut map = CongestionMap::new();
    let shared = Position(1, 0, 0);
    map.add_route(&vec![Position(0, 0, 0), shared]);
    map.add_route(&vec![shared, Position(2, 0, 0)]);
    map.commit_iteration();
    assert_eq!(map.history(shared), 1);

    map.rip_route(&vec![Position(0, 0, 0), shared]);
    map.rip_route(&vec![shared, Position(2, 0, 0)]);
    assert_eq!(map.present_overuse(shared), 0);
    assert_eq!(map.cell_cost(shared, &config(10, 5)), 5);
}

#[test]
fn default_config_makes_congestion_free() {
    let mut map = CongestionMap::new();
    let position = Position(1, 0, 0);
    map.add_route(&vec![position, position]);

    assert_eq!(map.cell_cost(position, &CongestionConfig::default()), 0);
}

#[test]
fn explicit_history_penalty_outlives_rip_up() {
    let mut map = CongestionMap::new();
    let path = vec![Position(0, 0, 0), Position(1, 0, 0)];
    map.add_history(&path);

    assert_eq!(map.usage(Position(1, 0, 0)), 0);
    assert_eq!(map.history(Position(1, 0, 0)), 1);
    assert_eq!(map.cell_cost(Position(1, 0, 0), &config(10, 5)), 5);
}

fn state(route: Vec<Position>) -> RouteSearchState {
    let mut world = World3D::new(DimSize(4, 4, 4));
    for position in &route {
        world.set(
            *position,
            Block {
                kind: BlockKind::Redstone { on_count: 0, state: 0, strength: 0 },
                direction: Direction::Unset,
            },
        );
    }
    RouteSearchState {
        world,
        terminal: *route.last().unwrap(),
        route,
        signal_strength: 15,
        powered_taps: vec![PoweredRouteSource { position: Position(0, 0, 0), strength: 15 }],
        pending_bounds: None,
    }
}

#[test]
fn default_model_matches_the_legacy_formula() {
    let state = state(vec![Position(0, 0, 0), Position(1, 0, 0), Position(2, 0, 0)]);
    let model = RouteCostModel::default();

    assert_eq!(model.weighted_route_cost(&state), 2);
    assert_eq!(model.low_strength_penalty(&state), 0);

    let mut low = state;
    low.signal_strength = 2;
    assert_eq!(model.low_strength_penalty(&low), 4);
}

#[test]
fn turn_cost_counts_direction_changes() {
    let straight = state(vec![Position(0, 0, 0), Position(1, 0, 0), Position(2, 0, 0), Position(3, 0, 0)]);
    let zigzag = state(vec![Position(0, 0, 0), Position(1, 0, 0), Position(1, 1, 0), Position(2, 1, 0)]);
    let model = RouteCostModel { turn_cost: 3, ..Default::default() };

    assert_eq!(model.weighted_route_cost(&straight), 3);
    assert_eq!(model.weighted_route_cost(&zigzag), 9);
}

#[test]
fn repeater_cost_counts_repeaters_on_the_route() {
    let mut state = state(vec![Position(0, 0, 0), Position(1, 0, 0), Position(2, 0, 0)]);
    state.world.set(
        Position(1, 0, 0),
        Block {
            kind: BlockKind::Repeater {
                is_on: false,
                is_locked: false,
                delay: 1,
                lock_input1: None,
                lock_input2: None,
            },
            direction: Direction::East,
        },
    );
    let model = RouteCostModel { repeater_cost: 8, ..Default::default() };

    assert_eq!(model.weighted_route_cost(&state), 10);
}

#[test]
fn delta_subtracts_every_component() {
    let before = PlacementMeasure {
        wire_length: 10,
        bounding_box_volume: 20,
        blocked_pins: 1,
        overlapping_pairs: 2,
        spacing_violations: 3,
        pin_access_violations: 4,
    };
    let after = PlacementMeasure {
        wire_length: 12,
        bounding_box_volume: 18,
        blocked_pins: 0,
        overlapping_pairs: 3,
        spacing_violations: 1,
        pin_access_violations: 6,
    };
    let delta = MoveDelta::between(&before, &after);
    assert_eq!(delta.wire_length, 2);
    assert_eq!(delta.bounding_box_volume, -2);
    assert_eq!(delta.blocked_pins, -1);
    assert_eq!(delta.overlapping_pairs, 1);
    assert_eq!(delta.spacing_violations, -2);
    assert_eq!(delta.pin_access_violations, 2);
}

#[test]
fn crowded_cells_cost_what_the_model_says() {
    let mut map = CongestionMap::new();
    let shared = Position(1, 0, 0);
    map.add_route(&vec![shared]);
    map.add_route(&vec![shared]);
    map.commit_iteration();
    let model = RouteCostModel { congestion: config(10, 5), ..RouteCostModel::default() };
    assert_eq!(model.congestion_cost(shared, &map), 15);
    assert_eq!(RouteCostModel::default().congestion_cost(shared, &map), 0);
}

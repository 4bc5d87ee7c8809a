use redstone_compiler::transform::place_and_route::global_pnr::cell_library::{
    CellImplementation, CellLibrary, CellPhysicalContract, CELL_LIBRARY_FORMAT,
};
use redstone_compiler::transform::place_and_route::global_pnr::ir::{
    dominates, pareto_frontier, LayoutCandidate, LayoutCandidateCost, PhysicalPort, PhysicalPortDirection,
    PortConnection,
};
use redstone_compiler::transform::place_and_route::global_pnr::policy::{
    d_latch_child_candidate_config, UnitCandidateConfig,
};
use redstone_compiler::world::grid::{BoundingBox, World3D};
use redstone_compiler::world::position::{DimSize, Position};

fn test_port(connection: PortConnection, access_points: Vec<Position>) -> PhysicalPort {
    PhysicalPort {
        name: "p".to_owned(),
        direction: PhysicalPortDirection::Input,
        position: Position(1, 2, 3),
        route_position: Some(Position(4, 5, 6)),
        access_points,
        connection,
    }
}

#[test]
fn physical_port_prefers_explicit_access_points() {
    let port = test_port(PortConnection::Direct, vec![Position(7, 8, 9)]);

    assert_eq!(port.routing_access_positions(), vec![Position(7, 8, 9)]);
}

#[test]
fn physical_port_falls_back_to_route_position_as_access_point() {
    let port = test_port(PortConnection::Direct, Vec::new());

    assert_eq!(port.routing_access_positions(), vec![Position(4, 5, 6)]);
}

#[test]
fn routes_begin_at_the_first_access_point() {
    let port = test_port(PortConnection::Direct, vec![Position(7, 8, 9), Position(1, 1, 1)]);
    assert_eq!(port.primary_route_position(), Position(7, 8, 9));
    assert_eq!(test_port(PortConnection::Direct, Vec::new()).primary_route_position(), Position(4, 5, 6));
}

#[test]
fn latches_have_fixed_input_places() {
    let config = d_latch_child_candidate_config();
    assert_eq!(config.dim, DimSize(14, 10, 6));
    assert_eq!(config.max_candidates, 1);
    assert_eq!(config.input_constraints.positions_for_input_name("d"), Some(vec![Position(0, 2, 1)]));
    assert_eq!(config.input_constraints.positions_for_input_name("en"), Some(vec![Position(0, 6, 1)]));
    assert!(config.input_constraints.positions_for_input_name("q").is_none());
}

#[test]
fn physical_port_connection_describes_diode_requirement() {
    let input = test_port(PortConnection::InputDiode, Vec::new());
    let output = test_port(PortConnection::OutputDiode, Vec::new());

    assert!(input.requires_input_diode());
    assert!(!input.requires_output_diode());
    assert!(!output.requires_input_diode());
    assert!(output.requires_output_diode());
}

fn candidate(name: &str, metrics: (usize, usize, usize, usize)) -> LayoutCandidate {
    let (block_count, bbox_volume, bbox_footprint, height) = metrics;
    LayoutCandidate {
        module_name: name.to_owned(),
        world: World3D::new(DimSize(1, 1, 1)),
        bbox: BoundingBox { min: Position(0, 0, 0), max: Position(0, 0, 0) },
        ports: Vec::new(),
        occupied_cells: Vec::new(),
        blocked_cells: Vec::new(),
        cost: LayoutCandidateCost { block_count, bbox_volume, bbox_footprint, height, ..Default::default() },
        halo: 0,
    }
}

#[test]
fn dominance_requires_all_objectives_to_be_no_worse() {
    let small = LayoutCandidateCost {
        block_count: 10,
        bbox_volume: 20,
        bbox_footprint: 8,
        height: 2,
        ..Default::default()
    };
    let larger = LayoutCandidateCost {
        block_count: 12,
        bbox_volume: 24,
        bbox_footprint: 8,
        height: 2,
        ..Default::default()
    };
    let tradeoff = LayoutCandidateCost {
        block_count: 9,
        bbox_volume: 30,
        bbox_footprint: 10,
        height: 3,
        ..Default::default()
    };

    assert!(dominates(&small, &larger));
    assert!(!dominates(&larger, &small));
    assert!(!dominates(&small, &tradeoff));
    assert!(!dominates(&tradeoff, &small));
}

#[test]
fn pareto_frontier_drops_dominated_and_keeps_tradeoffs() {
    let candidates = vec![
        candidate("small", (10, 20, 8, 2)),
        candidate("bigger", (12, 24, 8, 2)),
        candidate("wide", (9, 30, 10, 3)),
        candidate("duplicate", (10, 20, 8, 2)),
    ];
    let frontier = pareto_frontier(candidates, 8);
    let names = frontier.iter().map(|candidate| candidate.module_name.as_str()).collect::<Vec<_>>();

    assert!(names.contains(&"small"));
    assert!(names.contains(&"wide"));
    assert!(!names.contains(&"bigger"));
    assert!(!names.contains(&"duplicate"));
    assert_eq!(frontier.len(), 2);
}

#[test]
fn pareto_frontier_respects_the_limit_by_compactness() {
    let candidates =
        (0..5).map(|index| candidate(&format!("c{index}"), (10 - index, 20 + index, 8, 2))).collect::<Vec<_>>();

    let frontier = pareto_frontier(candidates, 2);

    assert_eq!(frontier.len(), 2);
    assert_eq!(frontier[0].module_name, "c0");
    assert_eq!(frontier[1].module_name, "c1");
}

#[test]
fn an_empty_world_is_no_layout() {
    assert!(LayoutCandidate::from_world("m".to_owned(), World3D::new(DimSize(2, 2, 2)), vec![]).is_err());
}

// Cell libraries.

fn implementation(name: &str, priority: i32) -> CellImplementation {
    CellImplementation {
        name: name.to_owned(),
        definitions: vec!["d_latch".to_owned()],
        candidate: UnitCandidateConfig { max_candidates: 2, ..Default::default() },
        contract: CellPhysicalContract::default(),
        priority,
    }
}

#[test]
fn builtin_library_is_empty_and_target_scoped() {
    let library = CellLibrary::redstone_v1();

    assert_eq!(library.format, CELL_LIBRARY_FORMAT);
    assert_eq!(library.target, redstone_compiler::ir::target::ROUTABLE_IR_TARGET);
    assert!(library.implementations.is_empty());
    assert!(library.implementation_for_definition("d_latch").is_none());
}

#[test]
fn selection_prefers_priority_then_smallest_name() {
    let library = CellLibrary {
        implementations: vec![implementation("low", 0), implementation("beta", 5), implementation("alpha", 5)],
        ..CellLibrary::redstone_v1()
    };

    assert_eq!(
        library.implementation_for_definition("d_latch").expect("matching implementation").name,
        "alpha"
    );
    assert!(library.implementation_for_definition("other").is_none());
}

#[test]
fn unsupported_format_is_rejected() {
    let library = CellLibrary {
        format: "other".to_owned(),
        name: "x".to_owned(),
        target: "t".to_owned(),
        implementations: vec![],
    };
    let error = library.check_format().unwrap_err().message();

    assert!(error.contains("unsupported cell library format"), "{error}");
    assert!(CellLibrary::redstone_v1().check_format().is_ok());
}

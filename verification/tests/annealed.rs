use redstone_compiler::ir::benchmarks::{
    benchmark_problem, benchmark_world, measure, measure_placement, measure_problem, structural_template,
    BenchmarkError, PlacementBenchmarkError,
};
use redstone_compiler::ir::logical::LogicalDesign;
use redstone_compiler::ir::routable::{
    RoutableDesign, RoutableInstance, RoutableModule, RoutableModuleBody, RoutablePort, RoutablePortDirection,
};
use redstone_compiler::transform::place_and_route::global_pnr::annealed::{
    annealed_problem, placement_candidates_annealed, world_shape, AnnealedError,
};
use redstone_compiler::transform::place_and_route::global_pnr::annealed_range::{
    layout_fits, layouts_fit, layouts_in_range,
};
use redstone_compiler::transform::place_and_route::global_pnr::ir::{
    LayoutCandidate, PhysicalPort, PhysicalPortDirection, PortConnection,
};
use redstone_compiler::transform::place_and_route::global_pnr::route_engine::route::ResolvedEndpoint;
use redstone_compiler::transform::place_and_route::global_pnr::router::ports::PlacedModule;
use redstone_compiler::transform::place_and_route::global_pnr::router::topology::{
    ResolvedInstance, ResolvedNet, ResolvedPnrTopology, ResolvedPort,
};
use redstone_compiler::transform::place_and_route::sa_placer::anneal::AnnealingRules;
use redstone_compiler::transform::place_and_route::sa_placer::initial::place_initial;
use redstone_compiler::transform::place_and_route::sa_placer::measure::PlacementMeasure;
use redstone_compiler::transform::place_and_route::sa_placer::seed::InitialPlacementConfig;
use redstone_compiler::world::block::{Block, BlockKind};
use redstone_compiler::world::grid::World3D;
use redstone_compiler::world::position::{DimSize, Direction, Position};

fn bounds(module: &PlacedModule) -> (Position, Position) {
    (
        module.origin,
        Position(
            module.origin.0 + module.bbox.width() - 1,
            module.origin.1 + module.bbox.depth() - 1,
            module.origin.2 + module.bbox.height() - 1,
        ),
    )
}

fn inverter() -> LayoutCandidate {
    let mut world = World3D::new(DimSize(4, 4, 4));
    let cobble =
        Block { kind: BlockKind::Cobble { on_count: 0, on_base_count: 0 }, direction: Direction::Unset };
    let torch = Block { kind: BlockKind::Torch { is_on: false }, direction: Direction::Bottom };
    world.set(Position(1, 1, 1), cobble);
    world.set(Position(1, 1, 2), torch);
    let port = |name: &str, direction: PhysicalPortDirection, position: Position| PhysicalPort {
        name: name.to_owned(),
        direction,
        position,
        route_position: Some(position),
        access_points: vec![Position(position.0 + 1, position.1, position.2)],
        connection: PortConnection::Direct,
    };
    let ports = vec![
        port("a", PhysicalPortDirection::Input, Position(1, 1, 1)),
        port("y", PhysicalPortDirection::Output, Position(1, 1, 2)),
    ];
    LayoutCandidate::from_world("inv".to_owned(), world, ports).unwrap()
}

/// i0.y drives i1.a.
fn topology() -> ResolvedPnrTopology {
    let port = |name: &str| ResolvedPort { name: name.to_owned() };
    let instance = |name: &str| ResolvedInstance { display_name: name.to_owned() };
    ResolvedPnrTopology {
        ports: vec![port("a"), port("y")],
        instances: vec![instance("i0"), instance("i1")],
        nets: vec![
            ResolvedNet {
                id: 0,
                display_name: "n".to_owned(),
                driver: ResolvedEndpoint::InstancePort { instance: 0, port: 1 },
                sinks: vec![ResolvedEndpoint::InstancePort { instance: 1, port: 0 }],
            },
            ResolvedNet {
                id: 1,
                display_name: "a".to_owned(),
                driver: ResolvedEndpoint::TopPort { port: 0 },
                sinks: vec![ResolvedEndpoint::InstancePort { instance: 0, port: 0 }],
            },
        ],
    }
}

fn selected() -> Vec<(String, LayoutCandidate)> {
    vec![("i0".to_owned(), inverter()), ("i1".to_owned(), inverter())]
}

fn total(measure: &PlacementMeasure) -> f64 {
    measure.wire_length as f64
        + 0.1 * measure.bounding_box_volume as f64
        + 50.0 * measure.blocked_pins as f64
        + 100.0 * measure.overlapping_pairs as f64
        + 20.0 * measure.spacing_violations as f64
        + 30.0 * measure.pin_access_violations as f64
}

fn temperature(iteration: usize) -> f64 {
    4.0 * 0.95f64.powi(iteration as i32)
}

fn is_cold(iteration: usize) -> bool {
    temperature(iteration) <= 0.01
}

fn is_cheaper(left: &PlacementMeasure, right: &PlacementMeasure) -> bool {
    total(left) < total(right)
}

fn is_accepted(iteration: usize, current: &PlacementMeasure, candidate: &PlacementMeasure, number: u64) -> bool {
    let drawn = (number >> 11) as f64 / (1u64 << 53) as f64;
    drawn < (-(total(candidate) - total(current)) / temperature(iteration)).exp()
}

type Cold = fn(usize) -> bool;
type Cheaper = fn(&PlacementMeasure, &PlacementMeasure) -> bool;
type Accept = fn(usize, &PlacementMeasure, &PlacementMeasure, u64) -> bool;

fn rules() -> AnnealingRules<Cold, Cheaper, Accept> {
    AnnealingRules { cooled: is_cold, cheaper: is_cheaper, accept: is_accepted }
}

#[test]
fn annealed_placement_adapter_places_instances_legally() {
    let attempts = placement_candidates_annealed(&rules(), &topology(), &selected(), 2).unwrap();

    assert!(!attempts.is_empty());
    for placed in &attempts {
        assert_eq!(placed.len(), 2);
        assert_eq!(placed[0].module_name, "inv");
        assert_eq!(placed[0].candidate_index, 0);
        assert_eq!(placed[1].candidate_index, 1);

        let (first_min, first_max) = bounds(&placed[0]);
        let (second_min, second_max) = bounds(&placed[1]);
        let overlaps = first_min.0 <= second_max.0
            && second_min.0 <= first_max.0
            && first_min.1 <= second_max.1
            && second_min.1 <= first_max.1
            && first_min.2 <= second_max.2
            && second_min.2 <= first_max.2;
        assert!(!overlaps, "annealed placements overlap: {first_min:?} {second_min:?}");
    }
}

#[test]
fn annealed_placements_differ_and_keep_a_margin() {
    let attempts = placement_candidates_annealed(&rules(), &topology(), &selected(), 2).unwrap();
    assert!((1..=4).contains(&attempts.len()));
    let origins =
        attempts.iter().map(|placed| placed.iter().map(|module| module.origin).collect::<Vec<_>>()).collect::<Vec<_>>();
    for (index, own) in origins.iter().enumerate() {
        assert!(own.iter().all(|origin| origin.0 >= 4 && origin.1 >= 4 && origin.2 >= 4));
        assert!(!origins[..index].contains(own));
    }
}

#[test]
fn designs_that_cannot_be_placed_say_why() {
    let mut unknown = topology();
    unknown.ports[1].name = "z".to_owned();
    let error = placement_candidates_annealed(&rules(), &unknown, &selected(), 9).unwrap_err();
    assert!(matches!(error, AnnealedError::Failed { error } if error.message() == "macro `i0` has no pin `z`"));

    // No sum of a coordinate and such a gap is in range.
    assert!(layouts_in_range(&topology(), &selected(), 2));
    assert!(!layouts_in_range(&topology(), &selected(), usize::MAX));

    // A block that stands far outside the box of its layout is outside every world.
    let mut world = World3D::new(DimSize(120, 4, 4));
    let cobble =
        Block { kind: BlockKind::Cobble { on_count: 0, on_base_count: 0 }, direction: Direction::Unset };
    world.set(Position(1, 1, 1), cobble);
    world.set(Position(110, 1, 1), cobble);
    let mut wide = LayoutCandidate::from_world("wide".to_owned(), world, vec![]).unwrap();
    wide.bbox.max = wide.bbox.min;
    let nothing = ResolvedPnrTopology { ports: vec![], instances: vec![], nets: vec![] };
    let error = placement_candidates_annealed(&rules(), &nothing, &vec![("w".to_owned(), wide)], 2).unwrap_err();
    assert!(matches!(error, AnnealedError::Illegal { legality } if legality.out_of_bounds.len() == 1));
}

#[test]
fn layouts_lie_above_their_boxes() {
    assert!(layouts_fit(&selected()));
    assert!(layout_fits(&inverter()));
    let mut low = inverter();
    low.ports[0].position = Position(0, 1, 1);
    assert!(!layout_fits(&low));
    assert!(!layouts_fit(&vec![("i0".to_owned(), inverter()), ("i1".to_owned(), low)]));
    let mut turned = inverter();
    turned.bbox.max = Position(0, 0, 0);
    assert!(!layout_fits(&turned));
    let mut apart = inverter();
    apart.ports[1].access_points = vec![Position(0, 0, 0)];
    assert!(!layout_fits(&apart));
}

#[test]
fn placement_problems_hold_instances_and_nets() {
    let problem = annealed_problem(&topology(), &selected());
    assert_eq!(problem.instances.len(), 2);
    assert_eq!(problem.macros.len(), 2);
    assert_eq!(problem.macros[1].name, "i1");
    assert_eq!(problem.macros[1].variant, "inv");
    assert_eq!(problem.nets.len(), 1);
    assert_eq!(problem.nets[0].source.instance, 0);
    assert_eq!(problem.nets[0].source.pin, "y");
    assert_eq!(problem.nets[0].sinks[0].instance, 1);
    // Four cells: the smallest cube that holds them has two on a side.
    assert_eq!(world_shape(&selected()), (4, 8));
}

// ---------------------------------------------------------------------------
// Benchmarks
// ---------------------------------------------------------------------------
fn leaf(name: &str) -> RoutableModule {
    let port =
        |name: &str, direction: RoutablePortDirection| RoutablePort { name: name.to_owned(), direction };
    RoutableModule {
        name: name.to_owned(),
        ports: vec![
            port("y", RoutablePortDirection::Output),
            port("b", RoutablePortDirection::Input),
            port("a", RoutablePortDirection::Input),
        ],
        body: RoutableModuleBody::Leaf { nodes: vec![] },
    }
}

fn design() -> RoutableDesign {
    let instance = |name: &str| RoutableInstance { name: name.to_owned(), module: "inv".to_owned(), origin: None };
    RoutableDesign {
        version: 1,
        target: "redstone-v1".to_owned(),
        top: "top".to_owned(),
        modules: vec![
            leaf("inv"),
            RoutableModule {
                name: "top".to_owned(),
                ports: vec![],
                body: RoutableModuleBody::Composite { instances: vec![instance("i0"), instance("i1")], nets: vec![] },
            },
        ],
    }
}

#[test]
fn footprints_have_inputs_left_and_outputs_right() {
    let template = structural_template(&leaf("inv"), 17);
    assert_eq!(template.size, DimSize(5, 5, 2));
    let names = template.pins.iter().map(|pin| pin.name.as_str()).collect::<Vec<_>>();
    assert_eq!(names, vec!["a", "b", "y"]);
    assert_eq!(template.pin("b").unwrap().position, Position(0, 1, 0));
    assert_eq!(template.pin("a").unwrap().position, Position(0, 3, 0));
    assert_eq!(template.pin("y").unwrap().position, Position(4, 2, 0));
    assert_eq!(template.pin("y").unwrap().facing, Direction::East);
    assert_eq!(structural_template(&leaf("inv"), 0).size, DimSize(1, 1, 1));
}

#[test]
fn designs_are_measured_leaf_by_leaf() {
    let logical = LogicalDesign { version: 1, top: "top".to_owned(), modules: vec![] };
    let metrics = measure(&|_: &RoutableModule| Ok(41), "b", &logical, &design()).unwrap();
    assert_eq!(metrics.name, "b");
    assert_eq!(metrics.modules, 2);
    assert_eq!(metrics.leaves, 1);
    assert_eq!(metrics.cells, 0);
    assert_eq!(metrics.max_prepared_nodes, 41);
    assert_eq!(metrics.over_limit_leaves, 1);
    let fails = |_: &RoutableModule| Err("no".to_owned());
    assert_eq!(measure(&fails, "b", &logical, &design()).err(), Some("no".to_owned()));
}

#[test]
fn placements_are_measured_for_composites() {
    let prepared = |_: &RoutableModule| Ok::<usize, String>(9);
    let problem = benchmark_problem(&prepared, &design(), &topology()).unwrap();
    assert_eq!(problem.macros.len(), 1);
    assert_eq!(problem.instances.len(), 2);
    assert_eq!(problem.nets.len(), 1);
    assert_eq!(benchmark_world(&problem.macros), DimSize(16, 16, 8));
    let metrics = measure_placement(&prepared, &rules(), "b", &design(), &topology()).unwrap();
    assert_eq!(metrics.name, "b");
    assert_eq!(metrics.macros, 1);
    assert_eq!(metrics.instances, 2);
    assert_eq!(metrics.nets, 1);
    assert!(metrics.legal);
    // Two boxes of nine cells stand apart.
    assert!(metrics.bounding_box_volume >= 18);
    assert!(metrics.macros <= metrics.instances);
    let world = benchmark_world(&problem.macros);
    let placed = place_initial(&problem, &InitialPlacementConfig { world, ..Default::default() }).unwrap();
    assert_eq!(metrics.seed_wire_length, placed.wire_length);
    let direct = measure_problem(&rules(), "b", &problem, world).unwrap();
    assert_eq!(direct.wire_length, metrics.wire_length);
    // Footprints of so many nodes do not fit into any world.
    let huge = |_: &RoutableModule| Ok::<usize, String>(usize::MAX);
    assert!(matches!(
        measure_placement(&huge, &rules(), "b", &design(), &topology()),
        Err(PlacementBenchmarkError::OutOfRange)
    ));
    assert!(matches!(
        measure_problem(&rules(), "b", &problem, DimSize(2, 2, 1)),
        Err(PlacementBenchmarkError::Unplaced { .. })
    ));

    let mut leaf_top = design();
    leaf_top.top = "inv".to_owned();
    assert!(matches!(
        measure_placement(&prepared, &rules(), "b", &leaf_top, &topology()),
        Err(PlacementBenchmarkError::Problem { error: BenchmarkError::NotComposite { top } }) if top == "inv"
    ));
    let mut no_top = design();
    no_top.top = "none".to_owned();
    assert!(matches!(
        measure_placement(&prepared, &rules(), "b", &no_top, &topology()),
        Err(PlacementBenchmarkError::Problem { error: BenchmarkError::NoTop { top } }) if top == "none"
    ));
    let mut missing = design();
    missing.modules.remove(0);
    assert!(matches!(
        benchmark_problem(&prepared, &missing, &topology()),
        Err(BenchmarkError::MissingModule { module }) if module == "inv"
    ));
}

/// Six gates in three rows between two inputs and an output.
#[test]
fn random_10_placement_is_legal_and_connected() {
    let row = |index: usize| if index < 3 { "and" } else if index < 5 { "or" } else { "not" };
    let instances = (0..6)
        .map(|index| RoutableInstance { name: format!("g{index}"), module: row(index).to_owned(), origin: None })
        .collect::<Vec<_>>();
    let routable = RoutableDesign {
        version: 1,
        target: "redstone-v1".to_owned(),
        top: "random_10".to_owned(),
        modules: vec![
            leaf("and"),
            leaf("not"),
            leaf("or"),
            RoutableModule {
                name: "random_10".to_owned(),
                ports: vec![],
                body: RoutableModuleBody::Composite { instances, nets: vec![] },
            },
        ],
    };
    let port = |name: &str| ResolvedPort { name: name.to_owned() };
    let net = |id: usize, driver: ResolvedEndpoint, sinks: Vec<ResolvedEndpoint>| ResolvedNet {
        id,
        display_name: format!("n{id}"),
        driver,
        sinks,
    };
    let pin = |instance: usize, port: usize| ResolvedEndpoint::InstancePort { instance, port };
    let topology = ResolvedPnrTopology {
        ports: vec![port("a"), port("b"), port("y"), port("x0"), port("x1"), port("out")],
        instances: (0..6).map(|index| ResolvedInstance { display_name: format!("g{index}") }).collect(),
        nets: vec![
            net(0, ResolvedEndpoint::TopPort { port: 3 }, vec![pin(0, 0), pin(1, 0), pin(2, 0)]),
            net(1, ResolvedEndpoint::TopPort { port: 4 }, vec![pin(0, 1), pin(1, 1), pin(2, 1)]),
            net(2, pin(0, 2), vec![pin(3, 0)]),
            net(3, pin(1, 2), vec![pin(3, 1), pin(4, 0)]),
            net(4, pin(2, 2), vec![pin(4, 1)]),
            net(5, pin(3, 2), vec![pin(5, 0)]),
            net(6, pin(4, 2), vec![pin(5, 1)]),
            net(7, pin(5, 2), vec![ResolvedEndpoint::TopPort { port: 5 }]),
        ],
    };
    let prepared = |module: &RoutableModule| Ok::<usize, String>(if module.name == "not" { 4 } else { 9 });
    let metrics = measure_placement(&prepared, &rules(), "random_10", &routable, &topology).unwrap();

    assert!(metrics.legal, "{metrics:?}");
    assert!(metrics.instances > 0, "{metrics:?}");
    assert!(metrics.nets > 0, "{metrics:?}");
    assert!(metrics.wire_length > 0, "{metrics:?}");
    assert_eq!(metrics.instances, 6);
    assert_eq!(metrics.nets, 5);
}

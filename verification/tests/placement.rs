use redstone_compiler::transform::place_and_route::global_pnr::ir::{
    LayoutCandidate, PhysicalPort, PhysicalPortDirection, PortConnection,
};
use redstone_compiler::transform::place_and_route::placement_ir::{
    derive_facing, MacroRotation, MacroTemplate, PhysicalNet, PinRef,
};
use redstone_compiler::transform::place_and_route::placement_problem::PlacementProblem;
use redstone_compiler::world::block::{Block, BlockKind};
use redstone_compiler::world::grid::World3D;
use redstone_compiler::world::position::{DimSize, Direction, Position};

fn cobble() -> Block {
    Block {
        kind: BlockKind::Cobble {
            on_count: 0,
            on_base_count: 0,
        },
        direction: Direction::Unset,
    }
}

fn torch() -> Block {
    Block {
        kind: BlockKind::Torch { is_on: false },
        direction: Direction::Bottom,
    }
}

fn not_candidate() -> LayoutCandidate {
    // A minimal NOT cell: support cobble with a torch on top, one block in
    // from the bounding box minimum so normalization is exercised.
    let mut world = World3D::new(DimSize(4, 4, 4));
    world.set(Position(1, 1, 1), cobble());
    world.set(Position(1, 1, 2), torch());
    let ports = vec![
        PhysicalPort {
            name: "a".to_owned(),
            direction: PhysicalPortDirection::Input,
            position: Position(1, 1, 1),
            route_position: Some(Position(1, 1, 1)),
            access_points: vec![Position(2, 1, 1)],
            connection: PortConnection::Direct,
        },
        PhysicalPort {
            name: "y".to_owned(),
            direction: PhysicalPortDirection::Output,
            position: Position(1, 1, 2),
            route_position: Some(Position(1, 1, 2)),
            access_points: vec![Position(1, 2, 2)],
            connection: PortConnection::Direct,
        },
    ];
    LayoutCandidate::from_world("not".to_owned(), world, ports).expect("candidate")
}

#[test]
fn macro_template_round_trips_through_a_candidate() {
    let candidate = not_candidate();
    let template = MacroTemplate::from_candidate(&candidate, "not");

    assert_eq!(template.name, "not");
    assert_eq!(template.size, DimSize(1, 1, 2));
    assert_eq!(template.blocks.len(), 2);
    assert!(template.verified);

    // Normalization moves the bbox minimum to the origin.
    let cobble_position = template
        .blocks
        .iter()
        .find(|(_, block)| block.kind.is_cobble())
        .map(|(position, _)| *position)
        .expect("cobble block");
    assert_eq!(cobble_position, Position(0, 0, 0));

    // Pins keep their interface and gain local escape cells and facings.
    let input = template.pin("a").expect("input pin");
    assert_eq!(input.position, Position(0, 0, 0));
    assert_eq!(input.escape, vec![Position(1, 0, 0)]);
    assert_eq!(input.facing, Direction::East);
    let output = template.pin("y").expect("output pin");
    assert_eq!(output.position, Position(0, 0, 1));
    assert_eq!(output.facing, Direction::North);

    // Instantiation restores absolute positions.
    let placed = template.instantiate(Position(10, 10, 0), MacroRotation::Unrotated).unwrap();
    assert!(placed
        .iter()
        .any(|(position, block)| *position == Position(10, 10, 0) && block.kind.is_cobble()));
    assert!(placed
        .iter()
        .any(|(position, block)| *position == Position(10, 10, 1) && block.kind.is_torch()));
    assert_eq!(
        template.pin_position(Position(10, 10, 0), "y").unwrap(),
        Position(10, 10, 1)
    );
}

#[test]
fn placement_problem_composes_macros_and_measures_wire_length() {
    let template = MacroTemplate::from_candidate(&not_candidate(), "not");
    let mut problem = PlacementProblem::new();
    problem.add_macro(template);

    let first = problem.add_instance("not", Position(0, 0, 0), MacroRotation::Unrotated).unwrap();
    let second = problem.add_instance("not", Position(5, 0, 0), MacroRotation::Unrotated).unwrap();
    problem.nets.push(PhysicalNet {
        name: "n0".to_owned(),
        source: PinRef {
            instance: first,
            pin: "y".to_owned(),
        },
        sinks: vec![PinRef {
            instance: second,
            pin: "a".to_owned(),
        }],
        route: None,
        region_sequence: None,
        congestion: 0,
    });

    assert_eq!(
        problem.pin_position(&problem.nets[0].source).unwrap(),
        Position(0, 0, 1)
    );
    assert_eq!(
        problem.pin_position(&problem.nets[0].sinks[0]).unwrap(),
        Position(5, 0, 0)
    );
    assert_eq!(problem.estimate_wire_length().unwrap(), 6);

    let world = problem.to_world(DimSize(8, 4, 4)).unwrap();
    assert_eq!(world.iter_block().len(), 4);
    let blocks = problem.instance_blocks(second).unwrap();
    assert_eq!(blocks.len(), 2);
    assert!(blocks.iter().all(|(cell, _)| cell.0 >= 5));
    assert!(problem.instance_blocks(2).is_err());
}

#[test]
fn placement_problem_rejects_overlap_and_bad_references() {
    let template = MacroTemplate::from_candidate(&not_candidate(), "not");
    let mut problem = PlacementProblem::new();
    problem.add_macro(template);
    problem.add_instance("not", Position(0, 0, 0), MacroRotation::Unrotated).unwrap();
    problem.add_instance("not", Position(0, 0, 0), MacroRotation::Unrotated).unwrap();

    let error = problem.to_world(DimSize(4, 4, 4)).err().unwrap().message();
    assert!(error.contains("overlaps"), "{error}");

    let unknown = problem.pin_position(&PinRef {
        instance: 9,
        pin: "y".to_owned(),
    });
    assert!(unknown.is_err());
}

#[test]
fn facing_prefers_escape_cells_then_boundary() {
    assert_eq!(
        derive_facing(Position(0, 0, 0), DimSize(2, 1, 1), &vec![Position(0, 1, 0)]),
        Direction::North
    );
    assert_eq!(
        derive_facing(Position(1, 0, 0), DimSize(2, 1, 1), &vec![]),
        Direction::East
    );
    assert_eq!(
        derive_facing(Position(0, 0, 0), DimSize(2, 2, 2), &vec![]),
        Direction::West
    );
    assert_eq!(
        derive_facing(Position(1, 1, 1), DimSize(3, 3, 3), &vec![]),
        Direction::Unset
    );
}

#[test]
fn placement_legality_reports_overlaps_and_bounds() {
    let template = MacroTemplate::from_candidate(&not_candidate(), "not");
    let mut problem = PlacementProblem::new();
    problem.add_macro(template);

    let first = problem.add_instance("not", Position(0, 0, 0), MacroRotation::Unrotated).unwrap();
    let second = problem.add_instance("not", Position(0, 0, 0), MacroRotation::Unrotated).unwrap();
    assert_eq!(problem.overlaps(), vec![(first, second)]);

    let legality = problem.legality(DimSize(8, 4, 4));
    assert!(!legality.is_legal());
    assert!(legality.out_of_bounds.is_empty());

    let third = problem.add_instance("not", Position(6, 0, 0), MacroRotation::Unrotated).unwrap();
    assert_eq!(
        problem.out_of_bounds(DimSize(4, 4, 4)),
        vec![(third, Position(6, 0, 0)), (third, Position(6, 0, 1))]
    );
}

#[test]
fn placement_bounding_box_covers_all_instances() {
    let template = MacroTemplate::from_candidate(&not_candidate(), "not");
    let mut problem = PlacementProblem::new();
    problem.add_macro(template);

    assert_eq!(problem.bounding_box(), None);

    problem.add_instance("not", Position(0, 0, 0), MacroRotation::Unrotated).unwrap();
    problem.add_instance("not", Position(5, 2, 0), MacroRotation::Unrotated).unwrap();
    assert_eq!(
        problem.bounding_box(),
        Some((Position(0, 0, 0), Position(5, 2, 1)))
    );
}

#[test]
fn pin_facing_and_net_metrics_are_available_per_net() {
    let template = MacroTemplate::from_candidate(&not_candidate(), "not");
    let mut problem = PlacementProblem::new();
    problem.add_macro(template);

    let first = problem.add_instance("not", Position(0, 0, 0), MacroRotation::Unrotated).unwrap();
    let second = problem.add_instance("not", Position(5, 0, 0), MacroRotation::Unrotated).unwrap();
    problem.nets.push(PhysicalNet {
        name: "n0".to_owned(),
        source: PinRef {
            instance: first,
            pin: "y".to_owned(),
        },
        sinks: vec![PinRef {
            instance: second,
            pin: "a".to_owned(),
        }],
        route: None,
        region_sequence: None,
        congestion: 0,
    });

    assert_eq!(
        problem.pin_facing(&PinRef {
            instance: first,
            pin: "y".to_owned()
        }).unwrap(),
        Direction::North
    );
    assert_eq!(
        problem.pin_facing(&PinRef {
            instance: second,
            pin: "a".to_owned()
        }).unwrap(),
        Direction::East
    );
    assert_eq!(problem.net_half_perimeter(&problem.nets[0]).unwrap(), 6);
    assert_eq!(problem.estimate_wire_length().unwrap(), 6);
}

#[test]
fn lengths_do_not_depend_on_order_or_common_moves() {
    let mut problem = PlacementProblem::new();
    problem.add_macro(MacroTemplate::from_candidate(&not_candidate(), "not"));
    let places = [Position(0, 0, 0), Position(5, 0, 0), Position(2, 7, 0)];
    for place in places {
        problem.add_instance("not", place, MacroRotation::Unrotated).unwrap();
    }
    let pin = |instance: usize, pin: &str| PinRef { instance, pin: pin.to_owned() };
    let net = |source: PinRef, sinks: Vec<PinRef>| PhysicalNet {
        name: "n".to_owned(),
        source,
        sinks,
        route: None,
        region_sequence: None,
        congestion: 0,
    };
    assert_eq!(problem.estimate_wire_length().unwrap(), 0);
    let forth = net(pin(0, "y"), vec![pin(1, "a"), pin(2, "a")]);
    let back = net(pin(0, "y"), vec![pin(2, "a"), pin(1, "a")]);
    let single = net(pin(0, "y"), vec![pin(2, "a")]);
    // From 0, 0, 1 over 5, 0, 0 and 2, 7, 0.
    assert_eq!(problem.net_half_perimeter(&forth).unwrap(), 13);
    assert_eq!(problem.net_half_perimeter(&back).unwrap(), 13);
    assert_eq!(problem.net_half_perimeter(&single).unwrap(), 10);
    let lost = net(pin(0, "y"), vec![pin(1, "a"), pin(2, "none")]);
    assert_eq!(problem.net_half_perimeter(&lost).unwrap_err().message(), "macro `not` has no pin `none`");

    problem.nets = vec![forth.clone(), single.clone()];
    assert_eq!(problem.estimate_wire_length().unwrap(), 23);
    problem.nets = vec![single, forth];
    assert_eq!(problem.estimate_wire_length().unwrap(), 23);
    for instance in &mut problem.instances {
        instance.position = Position(instance.position.0 + 3, instance.position.1 + 4, instance.position.2 + 5);
    }
    assert_eq!(problem.estimate_wire_length().unwrap(), 23);
}

#[test]
fn worlds_hold_the_blocks_of_all_instances() {
    let mut problem = PlacementProblem::new();
    problem.add_macro(MacroTemplate::from_candidate(&not_candidate(), "not"));
    problem.add_instance("not", Position(0, 0, 0), MacroRotation::Unrotated).unwrap();
    problem.add_instance("not", Position(3, 2, 1), MacroRotation::Unrotated).unwrap();
    let world = problem.to_world(DimSize(4, 3, 3)).unwrap();
    assert_eq!(world.size, DimSize(4, 3, 3));
    let mut cells = world.iter_block().iter().map(|(cell, _)| (cell.0, cell.1, cell.2)).collect::<Vec<_>>();
    cells.sort();
    assert_eq!(cells, vec![(0, 0, 0), (0, 0, 1), (3, 2, 1), (3, 2, 2)]);

    assert!(problem.to_world(DimSize(4, 3, 2)).is_err());
    problem.instances[1].position = Position(0, 0, 1);
    assert!(problem.to_world(DimSize(4, 3, 3)).is_err());
}

use redstone_compiler::transform::place_and_route::global_pnr::ir::{PhysicalPortDirection, PortConnection};
use redstone_compiler::transform::place_and_route::placement_ir::{
    MacroPin, MacroRotation, MacroTemplate, PhysicalNet, PinRef,
};
use redstone_compiler::transform::place_and_route::placement_problem::PlacementProblem;
use redstone_compiler::transform::place_and_route::sa_placer::anneal::{AnnealingPlan, AnnealingRules};
use redstone_compiler::transform::place_and_route::sa_placer::initial::{
    place_initial, repair_overlaps, seed_placement, PlacementSolution,
};
use redstone_compiler::transform::place_and_route::sa_placer::measure::{placement_measure, PlacementMeasure};
use redstone_compiler::transform::place_and_route::sa_placer::moves::{propose_move, DeterministicRng};
use redstone_compiler::transform::place_and_route::sa_placer::seed::InitialPlacementConfig;
use redstone_compiler::world::block::{Block, BlockKind};
use redstone_compiler::world::position::{DimSize, Direction, Position};

fn cobble() -> Block {
    Block {
        kind: BlockKind::Cobble {
            on_count: 0,
            on_base_count: 0,
        },
        direction: Direction::Unset,
    }
}

fn torch() -> Block {
    Block {
        kind: BlockKind::Torch { is_on: false },
        direction: Direction::Bottom,
    }
}

fn not_template(name: &str) -> MacroTemplate {
    MacroTemplate {
        name: name.to_owned(),
        variant: "not".to_owned(),
        size: DimSize(1, 1, 2),
        blocks: vec![(Position(0, 0, 0), cobble()), (Position(0, 0, 1), torch())],
        forbidden_routing_cells: Vec::new(),
        pins: vec![
            MacroPin {
                name: "a".to_owned(),
                position: Position(0, 0, 0),
                direction: PhysicalPortDirection::Input,
                connection: PortConnection::Direct,
                facing: Direction::East,
                escape: vec![Position(1, 0, 0)],
            },
            MacroPin {
                name: "y".to_owned(),
                position: Position(0, 0, 1),
                direction: PhysicalPortDirection::Output,
                connection: PortConnection::Direct,
                facing: Direction::North,
                escape: vec![Position(0, 1, 1)],
            },
        ],
        halo: 0,
        allowed_rotations: vec![MacroRotation::Unrotated],
        verified: true,
    }
}

fn chain_problem(count: usize) -> PlacementProblem {
    let mut problem = PlacementProblem::new();
    problem.add_macro(not_template("not"));
    for _ in 0..count {
        problem
            .add_instance("not", Position(0, 0, 0), MacroRotation::Unrotated)
            .expect("instance");
    }
    for index in 0..count.saturating_sub(1) {
        problem.nets.push(PhysicalNet {
            name: format!("n{index}"),
            source: PinRef {
                instance: index,
                pin: "y".to_owned(),
            },
            sinks: vec![PinRef {
                instance: index + 1,
                pin: "a".to_owned(),
            }],
            route: None,
            region_sequence: None,
            congestion: 0,
        });
    }
    problem
}

#[test]
fn initial_placement_is_deterministic_and_legal() {
    let problem = chain_problem(4);
    let config = InitialPlacementConfig {
        world: DimSize(32, 32, 8),
        ..Default::default()
    };

    let first = place_initial(&problem, &config).unwrap();
    let second = place_initial(&problem, &config).unwrap();

    assert_eq!(format!("{:?}", first.instances), format!("{:?}", second.instances));
    assert!(first.is_legal(), "{:?}", first.legality);
    assert!(first.wire_length > 0);

    let mut placed = problem.clone();
    placed.instances = first.instances.clone();
    let world = placed.to_world(config.world).unwrap();
    assert_eq!(world.iter_block().len(), 8);
}

#[test]
fn barycenter_reduces_wire_length_from_seed() {
    let mut problem = PlacementProblem::new();
    problem.add_macro(not_template("not"));
    problem
        .add_instance("not", Position(0, 0, 0), MacroRotation::Unrotated)
        .expect("source");
    problem
        .add_instance("not", Position(0, 0, 0), MacroRotation::Unrotated)
        .expect("unused");
    problem
        .add_instance("not", Position(0, 0, 0), MacroRotation::Unrotated)
        .expect("sink");
    problem.nets.push(PhysicalNet {
        name: "n0".to_owned(),
        source: PinRef {
            instance: 0,
            pin: "y".to_owned(),
        },
        sinks: vec![PinRef {
            instance: 2,
            pin: "a".to_owned(),
        }],
        route: None,
        region_sequence: None,
        congestion: 0,
    });
    let config = InitialPlacementConfig {
        world: DimSize(32, 32, 8),
        ..Default::default()
    };

    let seeded = seed_placement(&problem, &config).unwrap();
    let mut seed_problem = problem.clone();
    seed_problem.instances = seeded;
    let seed_wire_length = seed_problem.estimate_wire_length().unwrap();

    let solution = place_initial(&problem, &config).unwrap();

    assert!(solution.is_legal(), "{:?}", solution.legality);
    assert!(
        solution.wire_length < seed_wire_length,
        "seed={seed_wire_length} final={}",
        solution.wire_length
    );
}

#[test]
fn repair_separates_overlapping_instances() {
    let mut problem = PlacementProblem::new();
    problem.add_macro(not_template("not"));
    problem
        .add_instance("not", Position(0, 0, 0), MacroRotation::Unrotated)
        .expect("first");
    problem
        .add_instance("not", Position(0, 0, 0), MacroRotation::Unrotated)
        .expect("second");
    let mut instances = problem.instances.clone();
    let config = InitialPlacementConfig {
        world: DimSize(16, 16, 8),
        ..Default::default()
    };

    assert!(!problem.legality(config.world).is_legal());
    repair_overlaps(&problem, &mut instances, &config).unwrap();

    let mut placed = problem.clone();
    placed.instances = instances;
    let legality = placed.legality(config.world);
    assert!(legality.is_legal(), "{legality:?}");
    assert_eq!(placed.overlaps(), Vec::new());
}

#[test]
fn initial_placement_reports_a_world_that_is_too_small() {
    let problem = chain_problem(3);
    let config = InitialPlacementConfig {
        world: DimSize(1, 1, 1),
        spacing: 0,
        ..Default::default()
    };

    let error = place_initial(&problem, &config).unwrap_err().message();
    assert!(error.contains("does not fit"), "{error}");
}

#[test]
fn placement_cost_counts_overlaps_and_blocked_pins() {
    let problem = chain_problem(2);
    let config = InitialPlacementConfig::default();
    let mut instances = seed_placement(&problem, &config).unwrap();

    let legal = placement_measure(&problem, &instances, 2, config.world).unwrap();
    assert_eq!(legal.overlapping_pairs, 0);
    assert_eq!(legal.blocked_pins, 0);
    assert!(legal.wire_length > 0);

    instances[1].position = instances[0].position;
    let overlapped = placement_measure(&problem, &instances, 2, config.world).unwrap();
    assert!(overlapped.overlapping_pairs > 0);
    assert!(total(&overlapped) > total(&legal));
}

#[test]
fn proposed_moves_repeat_for_a_seed_and_stay_in_the_world() {
    let problem = chain_problem(3);
    let config = InitialPlacementConfig::default();
    let start = place_initial(&problem, &config).unwrap().instances;
    let mut first = DeterministicRng::new(7);
    let mut second = DeterministicRng::new(7);
    let mut instances = start.clone();
    for _ in 0..50 {
        let next = propose_move(&problem, &instances, &mut first, &config, 4).unwrap();
        let again = propose_move(&problem, &instances, &mut second, &config, 4).unwrap();
        assert_eq!(format!("{next:?}"), format!("{again:?}"));
        let moved = next.iter().zip(&instances).filter(|(a, b)| a.position != b.position).count();
        assert!(moved <= 2);
        instances = next;
    }
    assert!(DeterministicRng::new(0).next_u64() != 0);
}

// ---------------------------------------------------------------------------
// Annealing
// ---------------------------------------------------------------------------
fn plan(initial: InitialPlacementConfig, iterations: usize, moves: usize, restarts: usize) -> AnnealingPlan {
    AnnealingPlan {
        initial,
        seed: 1,
        iterations,
        moves_per_temperature: moves,
        max_translate_step: 2,
        restarts,
    }
}

fn total(measure: &PlacementMeasure) -> f64 {
    measure.wire_length as f64
        + 0.1 * measure.bounding_box_volume as f64
        + 50.0 * measure.blocked_pins as f64
        + 100.0 * measure.overlapping_pairs as f64
        + 20.0 * measure.spacing_violations as f64
        + 30.0 * measure.pin_access_violations as f64
}

fn temperature(iteration: usize) -> f64 {
    4.0 * 0.95f64.powi(iteration as i32)
}

fn anneal(problem: &PlacementProblem, plan: &AnnealingPlan) -> PlacementSolution {
    let rules = AnnealingRules {
        cooled: |iteration: usize| temperature(iteration) <= 0.01,
        cheaper: |left: &PlacementMeasure, right: &PlacementMeasure| total(left) < total(right),
        accept: |iteration: usize, current: &PlacementMeasure, candidate: &PlacementMeasure, number: u64| {
            let drawn = (number >> 11) as f64 / (1u64 << 53) as f64;
            drawn < (-(total(candidate) - total(current)) / temperature(iteration)).exp()
        },
    };
    rules.place_annealed(problem, plan).unwrap()
}

#[test]
fn annealing_keeps_or_improves_the_initial_cost() {
    let problem = chain_problem(5);
    let config = InitialPlacementConfig { world: DimSize(32, 32, 8), ..Default::default() };
    let plan = plan(config, 200, 16, 2);

    let initial = place_initial(&problem, &config).unwrap();
    let initial_cost = placement_measure(&problem, &initial.instances, config.spacing, config.world).unwrap();
    let annealed = anneal(&problem, &plan);
    let annealed_cost = placement_measure(&problem, &annealed.instances, config.spacing, config.world).unwrap();

    assert!(annealed.is_legal(), "{:?}", annealed.legality);
    assert!(total(&annealed_cost) <= total(&initial_cost) + 1e-9);
}

#[test]
fn annealing_is_deterministic() {
    let problem = chain_problem(4);
    let plan = plan(InitialPlacementConfig::default(), 100, 8, 1);

    let first = anneal(&problem, &plan);
    let second = anneal(&problem, &plan);

    assert_eq!(format!("{:?}", first.instances), format!("{:?}", second.instances));
}

#[test]
fn annealing_respects_world_bounds_and_materializes() {
    let problem = chain_problem(4);
    let config = InitialPlacementConfig { world: DimSize(16, 16, 6), spacing: 1, ..Default::default() };
    let plan = plan(config, 100, 8, 1);

    let solution = anneal(&problem, &plan);
    let mut placed = problem.clone();
    placed.instances = solution.instances.clone();
    let world = placed.to_world(config.world).unwrap();

    assert_eq!(world.iter_block().len(), 8);
}

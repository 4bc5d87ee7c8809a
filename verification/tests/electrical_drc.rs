use redstone_compiler::transform::place_and_route::electrical::{CellLinks, ElectricalFacts};
use redstone_compiler::transform::place_and_route::electrical_drc::{
    analyze, ConnectivityConfidence, PinContract, PinRecord, PlacedAnalysis, Violation, ViolationReason,
};
use redstone_compiler::world::block::{Block, BlockKind};
use redstone_compiler::world::grid::World3D;
use redstone_compiler::world::position::{DimSize, Direction, Position};

/// What acts on what: dust on dust beside it, switches, torches and blocks of
/// redstone on everything next to them but the block that holds them.
fn facts(world: &World3D) -> ElectricalFacts {
    let mut facts = ElectricalFacts { dust_targets: vec![], power_targets: vec![], cobble_sources: vec![] };
    let drives = |position: Position, block: &Block, target: Position| match block.kind {
        BlockKind::Torch { .. } => position.walk(block.direction) != Some(target),
        BlockKind::Switch { .. } | BlockKind::RedstoneBlock => true,
        _ => false,
    };
    for (position, block) in world.iter_block() {
        let next = position.forwards();
        if block.kind.is_redstone() {
            let targets = position.cardinal();
            facts.dust_targets.push(CellLinks { cell: position, targets });
        } else if block.kind.is_cobble() {
            let targets =
                next.into_iter().filter(|source| drives(*source, &world.get(*source), position)).collect();
            facts.cobble_sources.push(CellLinks { cell: position, targets });
        } else {
            let targets = next.into_iter().filter(|target| drives(position, &block, *target)).collect();
            facts.power_targets.push(CellLinks { cell: position, targets });
        }
    }
    facts
}

fn cobble() -> Block {
    Block {
        kind: BlockKind::Cobble {
            on_count: 0,
            on_base_count: 0,
        },
        direction: Direction::Unset,
    }
}

fn torch(direction: Direction) -> Block {
    Block {
        kind: BlockKind::Torch { is_on: false },
        direction,
    }
}

fn switch(direction: Direction) -> Block {
    Block {
        kind: BlockKind::Switch { is_on: false },
        direction,
    }
}

fn world(blocks: Vec<(Position, Block)>) -> World3D {
    let mut world = World3D::new(DimSize(8, 8, 4));
    for (position, block) in blocks {
        world.set(position, block);
    }
    world
}

fn analysis(anchors: Vec<(usize, Position)>, pins: Vec<PinRecord>) -> PlacedAnalysis {
    PlacedAnalysis { anchors, pins }
}

/// The confirmed `state_next` shape: the second inverter's support cobble is
/// adjacent to both the `state` input switch and the first inverter's torch,
/// so the switch is a foreign driver.
#[test]
fn foreign_switch_adjacent_to_not_input_is_a_single_violation() {
    let state = Position(0, 5, 1);
    let n16 = Position(1, 4, 1);
    let n20 = Position(0, 3, 1);
    let n20_support = Position(0, 4, 1);
    let n16_support = Position(2, 4, 1);

    let w = world(vec![
        (state, switch(Direction::East)),
        (n16, torch(Direction::East)),
        (n16_support, cobble()),
        (n20, torch(Direction::North)),
        (n20_support, cobble()),
    ]);

    let a = analysis(
        vec![(5, state), (16, n16), (20, n20)],
        vec![PinRecord {
            node: 20,
            position: n20_support,
            contract: PinContract::Single { expected_net: 16 },
        }],
    );

    let violations = analyze(&w, &a, &facts(&w));
    assert_eq!(
        violations,
        vec![Violation {
            node: 20,
            position: n20_support,
            drivers: vec![(5, state)],
            reason: ViolationReason::ExtraDriver,
            confidence: ConnectivityConfidence::Certain,
        }]
    );
}

/// A clean double inversion: the second support is driven only by the first
/// torch, so there is no violation.
#[test]
fn double_not_with_single_driver_is_clean() {
    let state = Position(0, 5, 1);
    let n16 = Position(2, 4, 1);
    let n16_support = Position(3, 4, 1);
    let n20 = Position(1, 3, 1);
    let n20_support = Position(1, 4, 1);

    let w = world(vec![
        (state, switch(Direction::East)),
        (n16, torch(Direction::East)),
        (n16_support, cobble()),
        (n20, torch(Direction::North)),
        (n20_support, cobble()),
    ]);

    let a = analysis(
        vec![(5, state), (16, n16), (20, n20)],
        vec![
            PinRecord {
                node: 16,
                position: n16_support,
                contract: PinContract::Single { expected_net: 5 },
            },
            PinRecord {
                node: 20,
                position: n20_support,
                contract: PinContract::Single { expected_net: 16 },
            },
        ],
    );

    assert!(analyze(&w, &a, &facts(&w)).is_empty());
}

/// Fanout: one source driving two pins is not a violation.
#[test]
fn fanout_of_a_single_source_is_clean() {
    let source = Position(2, 3, 1);
    let n16 = Position(1, 2, 1);
    let n17 = Position(3, 2, 1);

    let w = world(vec![
        (
            source,
            Block {
                kind: BlockKind::RedstoneBlock,
                direction: Direction::Unset,
            },
        ),
        (n16, torch(Direction::North)),
        (Position(1, 3, 1), cobble()),
        (n17, torch(Direction::North)),
        (Position(3, 3, 1), cobble()),
    ]);

    let a = analysis(
        vec![(7, source), (16, n16), (17, n17)],
        vec![
            PinRecord {
                node: 16,
                position: Position(1, 3, 1),
                contract: PinContract::Single { expected_net: 7 },
            },
            PinRecord {
                node: 17,
                position: Position(3, 3, 1),
                contract: PinContract::Single { expected_net: 7 },
            },
        ],
    );

    assert!(analyze(&w, &a, &facts(&w)).is_empty());
}

fn dust() -> Block {
    Block {
        kind: BlockKind::Redstone {
            on_count: 0,
            state: 0,
            strength: 0,
        },
        direction: Direction::Unset,
    }
}

/// The `tail_n8` shape: the tap dust is reached by the second branch
/// through a powered cobble (torch -> cobble -> dust). The cobble is a
/// conducting relay, so both branches are observed and the merge is clean.
#[test]
fn or_merge_reached_through_cobble_is_clean() {
    let a_switch = Position(2, 4, 1);
    let d1 = Position(2, 3, 1);
    let d2 = Position(1, 3, 1);
    let c = Position(1, 3, 0);
    let b_torch = Position(0, 3, 0);

    let w = world(vec![
        (a_switch, switch(Direction::East)),
        (d1, dust()),
        (d2, dust()),
        (c, cobble()),
        (b_torch, torch(Direction::North)),
    ]);

    let a = analysis(
        vec![(1, a_switch), (16, b_torch)],
        vec![PinRecord {
            node: 17,
            position: d2,
            contract: PinContract::Merge {
                input_nets: vec![1, 16],
            },
        }],
    );

    assert!(analyze(&w, &a, &facts(&w)).is_empty());
}

/// The same shape without the second branch must report the missing input
/// with `SimulationRequired` confidence (report-only, not enforced).
#[test]
fn or_merge_missing_branch_is_reported() {
    let a_switch = Position(2, 4, 1);
    let d1 = Position(2, 3, 1);
    let d2 = Position(1, 3, 1);
    let c = Position(1, 3, 0);

    let w = world(vec![
        (a_switch, switch(Direction::East)),
        (d1, dust()),
        (d2, dust()),
        (c, cobble()),
    ]);

    let a = analysis(
        vec![(1, a_switch)],
        vec![PinRecord {
            node: 17,
            position: d2,
            contract: PinContract::Merge {
                input_nets: vec![1, 16],
            },
        }],
    );

    assert_eq!(
        analyze(&w, &a, &facts(&w)),
        vec![Violation {
            node: 17,
            position: d2,
            drivers: Vec::new(),
            reason: ViolationReason::MissingBranch(16),
            confidence: ConnectivityConfidence::SimulationRequired,
        }]
    );
}

/// A foreign source joining the merge zone must be reported.
#[test]
fn or_merge_foreign_driver_is_reported() {
    let a_switch = Position(2, 4, 1);
    let d1 = Position(2, 3, 1);
    let d2 = Position(1, 3, 1);
    let c = Position(1, 3, 0);
    let b_torch = Position(0, 3, 0);
    let foreign = Position(1, 2, 1);

    let w = world(vec![
        (a_switch, switch(Direction::East)),
        (d1, dust()),
        (d2, dust()),
        (c, cobble()),
        (b_torch, torch(Direction::North)),
        (foreign, switch(Direction::East)),
    ]);

    let a = analysis(
        vec![(1, a_switch), (16, b_torch), (99, foreign)],
        vec![PinRecord {
            node: 17,
            position: d2,
            contract: PinContract::Merge {
                input_nets: vec![1, 16],
            },
        }],
    );

    assert_eq!(
        analyze(&w, &a, &facts(&w)),
        vec![Violation {
            node: 17,
            position: d2,
            drivers: vec![(99, d2)],
            reason: ViolationReason::ForeignNet(99),
            confidence: ConnectivityConfidence::SimulationRequired,
        }]
    );
}

/// Fanout into an OR input is not a merge violation.
#[test]
fn fanout_into_or_is_clean() {
    let a_switch = Position(2, 4, 1);
    let d1 = Position(2, 3, 1);
    let d2 = Position(1, 3, 1);
    let c = Position(1, 3, 0);
    let b_torch = Position(0, 3, 0);
    let d3 = Position(2, 5, 1);

    let w = world(vec![
        (a_switch, switch(Direction::East)),
        (d1, dust()),
        (d2, dust()),
        (c, cobble()),
        (b_torch, torch(Direction::North)),
        (d3, dust()),
    ]);

    let a = analysis(
        vec![(1, a_switch), (16, b_torch)],
        vec![PinRecord {
            node: 17,
            position: d2,
            contract: PinContract::Merge {
                input_nets: vec![1, 16],
            },
        }],
    );

    assert!(analyze(&w, &a, &facts(&w)).is_empty());
}

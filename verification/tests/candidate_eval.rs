use redstone_compiler::transform::place_and_route::candidate_eval::{
    evaluate, CandidateEvaluator, CandidateKind, CpuCandidateEvaluator, PlacementCandidate, FOREIGN_DRIVER_PENALTY,
};
use redstone_compiler::world::block::{Block, BlockKind};
use redstone_compiler::world::grid::World3D;
use redstone_compiler::world::position::{DimSize, Direction, Position};

fn world(blocks: Vec<(Position, Block)>) -> World3D {
    let mut world = World3D::new(DimSize(8, 8, 4));
    for (position, block) in blocks {
        world.set(position, block);
    }
    world
}

fn cobble() -> Block {
    Block {
        kind: BlockKind::Cobble { on_count: 0, on_base_count: 0 },
        direction: Direction::Unset,
    }
}

fn torch_block(direction: Direction) -> Block {
    Block { kind: BlockKind::Torch { is_on: false }, direction }
}

fn candidate(torch: Position, direction: Direction, support: Position) -> PlacementCandidate {
    PlacementCandidate {
        entry: 0,
        kind: CandidateKind::Torch,
        torch,
        direction,
        support,
        source: Position(0, 0, 0),
    }
}

#[test]
fn free_cells_are_valid_with_route_cost() {
    let w = world(vec![]);
    let scores = evaluate(&w, &vec![candidate(Position(1, 1, 1), Direction::East, Position(2, 1, 1))]);
    assert_eq!(scores.len(), 1);
    assert!(scores[0].valid);
    assert_eq!(scores[0].drc_penalty, 0);
    assert_eq!(scores[0].estimated_route_cost, 4);
}

#[test]
fn occupied_torch_cell_is_invalid() {
    let w = world(vec![(Position(1, 1, 1), cobble())]);
    let scores = evaluate(&w, &vec![candidate(Position(1, 1, 1), Direction::East, Position(2, 1, 1))]);
    assert!(!scores[0].valid);
}

#[test]
fn existing_cobble_support_is_allowed() {
    let w = world(vec![(Position(2, 1, 1), cobble())]);
    let scores = evaluate(&w, &vec![candidate(Position(1, 1, 1), Direction::East, Position(2, 1, 1))]);
    assert!(scores[0].valid);
}

#[test]
fn out_of_bounds_is_invalid() {
    let w = world(vec![]);
    let scores = evaluate(&w, &vec![candidate(Position(1, 1, 1), Direction::East, Position(9, 1, 1))]);
    assert!(!scores[0].valid);
}

#[test]
fn foreign_driver_neighbour_adds_penalty() {
    let w = world(vec![(Position(3, 1, 1), torch_block(Direction::West))]);
    let scores = evaluate(&w, &vec![candidate(Position(1, 1, 1), Direction::East, Position(2, 1, 1))]);
    assert!(scores[0].valid);
    assert_eq!(scores[0].drc_penalty, FOREIGN_DRIVER_PENALTY);
}

#[test]
fn the_expected_driver_adds_no_penalty() {
    let w = world(vec![
        (Position(3, 1, 1), torch_block(Direction::West)),
        (Position(2, 2, 1), torch_block(Direction::West)),
    ]);
    let mut expected = candidate(Position(1, 1, 1), Direction::East, Position(2, 1, 1));
    expected.source = Position(3, 1, 1);
    let scores = CpuCandidateEvaluator.evaluate(&w, &vec![expected]);
    assert!(scores[0].valid);
    assert_eq!(scores[0].drc_penalty, 100);
    assert_eq!(scores[0].estimated_route_cost, 1);
}

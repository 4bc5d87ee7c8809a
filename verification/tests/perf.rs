use redstone_compiler::gpu::{
    bytes_from_words, decode_scores, direction_code, group_count, pack_candidates, pack_cells, pack_kind, pack_params,
    words_from_bytes,
};
use redstone_compiler::perf::{world_bytes, PerfCounters, MEBIBYTE};
use redstone_compiler::transform::place_and_route::candidate_eval::{CandidateKind, PlacementCandidate};
use redstone_compiler::world::block::{Block, BlockKind};
use redstone_compiler::world::grid::World3D;
use redstone_compiler::world::position::{DimSize, Direction, Position};

const BLOCK_BYTES: usize = std::mem::size_of::<Block>();

#[test]
fn clone_counters_track_world_clones() {
    let mut counters = PerfCounters::default();
    let before_clones = counters.world_clone_count();
    let before_bytes = counters.world_clone_bytes();
    let size = DimSize(2, 2, 2);
    let world = World3D::new(size);
    let _clone = world.clone();
    counters.record_world_clone(world.size, BLOCK_BYTES);

    assert!(counters.world_clone_count() > before_clones);
    assert!(counters.world_clone_bytes() >= before_bytes + world_bytes(size, BLOCK_BYTES));
}

#[test]
fn budget_check_reports_the_stage() {
    let mut counters = PerfCounters::default();
    counters.budget_bytes = 1;
    let error = counters.check_budget("unit test", Some(2 * MEBIBYTE)).unwrap_err().message();
    assert!(error.contains("memory budget exceeded during unit test"), "{error}");
    assert!(counters.budget_exceeded());
    assert_eq!(
        error,
        "memory budget exceeded during unit test: RSS 2 MiB > budget 0 MiB; reduce the design or raise --memory-budget-mb"
    );
    assert_eq!(counters.peak_rss_bytes(), 2 * MEBIBYTE);
}

#[test]
fn zero_budget_never_fails() {
    let mut counters = PerfCounters::default();
    assert!(counters.check_budget("unit test", Some(usize::MAX)).is_ok());
    assert!(!counters.rss_over_budget(Some(usize::MAX)));
}

#[test]
fn counters_are_kept_and_reset() {
    let mut counters = PerfCounters::default();
    counters.set_budget_mb(3);
    assert_eq!(counters.budget_bytes(), 3 * 1024 * 1024);
    counters.set_budget_mb(usize::MAX);
    assert_eq!(counters.budget_bytes(), usize::MAX);
    counters.set_verbose(true);
    assert!(counters.verbose());
    let stage = counters.stage("route");
    counters.record_world_alloc(DimSize(2, 3, 4), 10);
    counters.record_world_clone(DimSize(1, 1, 1), 10);
    assert_eq!(counters.world_alloc_bytes(), 240);
    assert_eq!(stage.spent(&counters), (1, 10, 240));
    assert_eq!(counters.refresh_peak_rss(Some(7)), Some(7));
    assert_eq!(counters.refresh_peak_rss(Some(5)), Some(5));
    assert_eq!(counters.peak_rss_bytes(), 7);
    assert!(counters.has_summary());
    counters.reset_for_tests();
    assert!(!counters.has_summary());
    assert_eq!(counters, PerfCounters::default());
}

#[test]
fn worlds_are_packed_cell_by_cell() {
    let mut world = World3D::new(DimSize(2, 2, 2));
    let torch = Block { kind: BlockKind::Torch { is_on: true }, direction: Direction::West };
    world.set(Position(1, 0, 1), torch);
    assert_eq!(pack_cells(&world), vec![0, 0, 0, 0, 0, 3, 0, 0]);
    assert_eq!(pack_kind(BlockKind::RedstoneBlock), 6);
    assert_eq!(direction_code(Direction::North), 6);
    assert_eq!(pack_params(DimSize(2, 3, 4), 5), vec![2, 3, 4, 5]);
    assert_eq!(group_count(0), 0);
    assert_eq!(group_count(64), 1);
    assert_eq!(group_count(65), 2);
}

#[test]
fn candidates_are_packed_and_scores_come_back() {
    let candidate = PlacementCandidate {
        entry: 9,
        kind: CandidateKind::Torch,
        torch: Position(1, 2, 3),
        direction: Direction::East,
        support: Position(4, 5, 6),
        source: Position(7, 8, 0),
    };
    assert_eq!(pack_candidates(&vec![candidate]), vec![9, 1, 2, 3, 4, 5, 6, 3, 7, 8, 0]);
    let words = vec![1u32, 200, 0x0403_0201];
    let bytes = bytes_from_words(&words);
    assert_eq!(bytes, vec![1, 0, 0, 0, 200, 0, 0, 0, 1, 2, 3, 4]);
    assert_eq!(words_from_bytes(&bytes), words);
    let scores = decode_scores(&words);
    assert_eq!(scores.len(), 1);
    assert!(scores[0].valid);
    assert_eq!(scores[0].drc_penalty, 200);
    assert_eq!(scores[0].estimated_route_cost, 0x0403_0201);
}

//! Judging where a torch could stand, before anything is placed.

use crate::world::block::BlockKind;
use crate::world::grid::World3D;
use crate::world::position::{distance, in_bounds, is_next_to, Direction, Position};
use vstd::prelude::*;

verus! {

/// The penalty of a power source next to the support that does not belong there.
pub const FOREIGN_DRIVER_PENALTY: u32 = 100;

#[derive(Clone, Copy, Debug, PartialEq, Eq, Structural)]
pub enum CandidateKind {
    Torch,
}

/// A place for a torch.
#[derive(Clone, Copy, Debug, PartialEq, Eq, Structural)]
pub struct PlacementCandidate {
    /// What produced the candidate.
    pub entry: u32,
    pub kind: CandidateKind,
    pub torch: Position,
    pub direction: Direction,
    /// The block that holds the torch.
    pub support: Position,
    /// What is meant to power the support.
    pub source: Position,
}

/// A verdict on a candidate.
#[derive(Clone, Copy, Debug, PartialEq, Eq, Structural)]
pub struct CandidateScore {
    pub valid: bool,
    pub drc_penalty: u32,
    pub estimated_route_cost: u32,
}

impl Default for CandidateScore {
    fn default() -> (score: Self)
        ensures
            score == (CandidateScore { valid: false, drc_penalty: 0, estimated_route_cost: 0 }),
    {
        CandidateScore { valid: false, drc_penalty: 0, estimated_route_cost: 0 }
    }
}

/// Whether a torch and its support can stand: the torch in a free cell, the
/// support in a free cell or one that has a support block.
pub open spec fn can_stand(world: World3D, candidate: PlacementCandidate) -> bool {
    &&& in_bounds(world.size, candidate.torch)
    &&& world.at(candidate.torch).kind is Air
    &&& in_bounds(world.size, candidate.support)
    &&& world.at(candidate.support).kind is Air || world.at(candidate.support).kind is Cobble
}

/// Whether a block is a source of power.
pub open spec fn is_driver(kind: BlockKind) -> bool {
    kind is Torch || kind is Switch || kind is Repeater || kind is RedstoneBlock
}

/// The cells next to the support that hold a power source other than the
/// expected one.
pub open spec fn foreign_drivers(world: World3D, candidate: PlacementCandidate) -> Set<Position> {
    Set::new(
        |cell: Position|
            is_next_to(candidate.support, cell) && in_bounds(world.size, cell) && cell != candidate.source && is_driver(
                world.at(cell).kind,
            ),
    )
}

/// The verdict on a candidate.
pub open spec fn score_of(world: World3D, candidate: PlacementCandidate) -> CandidateScore {
    if can_stand(world, candidate) {
        CandidateScore {
            valid: true,
            drc_penalty: (foreign_drivers(world, candidate).len() * FOREIGN_DRIVER_PENALTY) as u32,
            estimated_route_cost: distance(candidate.source, candidate.support) as u32,
        }
    } else {
        CandidateScore { valid: false, drc_penalty: 10_000, estimated_route_cost: 0 }
    }
}

fn drives(kind: &BlockKind) -> (driver: bool)
    ensures
        driver == is_driver(*kind),
{
    kind.is_torch() || kind.is_switch() || kind.is_repeater() || matches!(kind, BlockKind::RedstoneBlock)
}

fn foreign_driver_penalty(world: &World3D, candidate: &PlacementCandidate) -> (penalty: u32)
    requires
        world.wf(),
    ensures
        penalty == foreign_drivers(*world, *candidate).len() * FOREIGN_DRIVER_PENALTY,
        foreign_drivers(*world, *candidate).finite(),
{
    let cells = candidate.support.forwards();
    let mut penalty: u32 = 0;
    let ghost mut found = Set::<Position>::empty();
    let mut index: usize = 0;
    while index < cells.len()
        invariant
            index <= cells.len(),
            cells.len() <= 6,
            world.wf(),
            forall|i: int| 0 <= i < cells.len() ==> is_next_to(candidate.support, #[trigger] cells[i]),
            forall|i: int, j: int| 0 <= i < j < cells.len() ==> cells[i] != cells[j],
            found.finite(),
            found.len() <= index,
            penalty == found.len() * FOREIGN_DRIVER_PENALTY,
            forall|cell: Position| #[trigger]
                found.contains(cell) <==> foreign_drivers(*world, *candidate).contains(cell) && cells@.take(
                    index as int,
                ).contains(cell),
        decreases cells.len() - index,
    {
        let cell = cells[index];
        let ghost before = found;
        assert(is_next_to(candidate.support, cells@[index as int]));
        let foreign = world.size.bound_on(cell) && cell != candidate.source && drives(&world.get(cell).kind);
        proof {
            let seen = cells@.take(index as int);
            let now = cells@.take(index + 1);
            assert(now =~= seen.push(cell));
            assert(!seen.contains(cell));
            assert forall|other: Position| #[trigger] now.contains(other) <==> seen.contains(other) || other == cell by {
                if seen.contains(other) {
                    let i = choose|i: int| 0 <= i < seen.len() && seen[i] == other;
                    assert(now[i] == other);
                }
                if other == cell {
                    assert(now[index as int] == cell);
                }
            }
            if foreign {
                found = found.insert(cell);
            }
        }
        if foreign {
            penalty += FOREIGN_DRIVER_PENALTY;
        }
        index += 1;
    }
    proof {
        assert(cells@.take(index as int) =~= cells@);
        assert(found =~= foreign_drivers(*world, *candidate));
    }
    penalty
}

fn evaluate_one(world: &World3D, candidate: &PlacementCandidate) -> (score: CandidateScore)
    requires
        world.wf(),
        distance(candidate.source, candidate.support) <= u32::MAX,
    ensures
        score == score_of(*world, *candidate),
{
    let torch_ok = world.size.bound_on(candidate.torch) && world.get(candidate.torch).kind.is_air();
    let support_ok = world.size.bound_on(candidate.support) && (world.get(candidate.support).kind.is_air() || world.get(
        candidate.support,
    ).kind.is_cobble());
    if !torch_ok || !support_ok {
        return CandidateScore { valid: false, drc_penalty: 10_000, estimated_route_cost: 0 };
    }
    CandidateScore {
        valid: true,
        drc_penalty: foreign_driver_penalty(world, candidate),
        estimated_route_cost: candidate.source.manhattan_distance(&candidate.support) as u32,
    }
}

/// Whether the distances of some candidates are in range.
pub open spec fn candidates_fit(candidates: Seq<PlacementCandidate>) -> bool {
    forall|i: int|
        0 <= i < candidates.len() ==> distance((#[trigger] candidates[i]).source, candidates[i].support) <= u32::MAX
}

/// The verdicts on some candidates.
pub open spec fn scores_of(world: World3D, candidates: Seq<PlacementCandidate>) -> Seq<CandidateScore> {
    candidates.map_values(|candidate: PlacementCandidate| score_of(world, candidate))
}

/// A way to judge candidates. A candidate that cannot stand is invalid; power
/// sources next to a support only make it rank lower.
pub trait CandidateEvaluator {
    fn evaluate(&self, world: &World3D, candidates: &Vec<PlacementCandidate>) -> (scores: Vec<CandidateScore>)
        requires
            world.wf(),
            candidates_fit(candidates@),
        ensures
            scores@ == scores_of(*world, candidates@),
    ;
}

/// Judges candidates one by one.
pub struct CpuCandidateEvaluator;

impl CandidateEvaluator for CpuCandidateEvaluator {
    fn evaluate(&self, world: &World3D, candidates: &Vec<PlacementCandidate>) -> (scores: Vec<CandidateScore>) {
        let mut scores: Vec<CandidateScore> = Vec::new();
        let mut index: usize = 0;
        while index < candidates.len()
            invariant
                index <= candidates.len(),
                world.wf(),
                candidates_fit(candidates@),
                scores.len() == index,
                forall|i: int| 0 <= i < index ==> #[trigger] scores[i] == score_of(*world, candidates[i]),
            decreases candidates.len() - index,
        {
            assert(distance(candidates@[index as int].source, candidates@[index as int].support) <= u32::MAX);
            let score = evaluate_one(world, &candidates[index]);
            scores.push(score);
            index += 1;
        }
        assert(scores@ =~= scores_of(*world, candidates@));
        scores
    }
}

/// The verdict on each of some candidates.
pub fn evaluate(world: &World3D, candidates: &Vec<PlacementCandidate>) -> (scores: Vec<CandidateScore>)
    requires
        world.wf(),
        candidates_fit(candidates@),
    ensures
        scores@ == scores_of(*world, candidates@),
{
    CpuCandidateEvaluator.evaluate(world, candidates)
}

/// Whether a candidate is valid depends on where it stands alone: power sources
/// never make it invalid.
pub proof fn drivers_never_invalidate(world: World3D, candidate: PlacementCandidate)
    ensures
        score_of(world, candidate).valid == can_stand(world, candidate),
{
}

} // verus!

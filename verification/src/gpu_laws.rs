//! What words tell of what they were made of.

use crate::gpu::{all_candidate_words, are_world_words, candidate_words, cell_index, code_of, kind_code};
use crate::transform::place_and_route::candidate_eval::PlacementCandidate;
use crate::world::block::BlockKind;
use crate::world::grid::World3D;
use crate::world::position::{in_bounds, Direction, Position};
use vstd::prelude::*;

verus! {

/// Whether the coordinates of a cell are in the range of words.
pub open spec fn cell_fits(cell: Position) -> bool {
    cell.0 <= u32::MAX && cell.1 <= u32::MAX && cell.2 <= u32::MAX
}

/// Whether the cells of a candidate are in the range of words.
pub open spec fn candidate_fits(candidate: PlacementCandidate) -> bool {
    cell_fits(candidate.torch) && cell_fits(candidate.support) && cell_fits(candidate.source)
}

proof fn words_have_room(candidates: Seq<PlacementCandidate>, count: nat)
    ensures
        all_candidate_words(candidates, count).len() == 11 * count,
    decreases count,
{
    if count > 0 {
        words_have_room(candidates, (count - 1) as nat);
    }
}

proof fn words_hold_candidate(candidates: Seq<PlacementCandidate>, count: nat, index: int, k: int)
    requires
        0 <= index < count,
        0 <= k < 11,
    ensures
        all_candidate_words(candidates, count)[11 * index + k] == candidate_words(candidates[index])[k],
    decreases count,
{
    words_have_room(candidates, (count - 1) as nat);
    words_have_room(candidates, count);
    if index < count - 1 {
        words_hold_candidate(candidates, (count - 1) as nat, index, k);
    }
}

/// Directions have different codes.
pub proof fn codes_tell_directions_apart(left: Direction, right: Direction)
    ensures
        code_of(left) == code_of(right) <==> left == right,
{
}

/// Kinds of blocks have different codes.
pub proof fn codes_tell_kinds_apart(left: BlockKind, right: BlockKind)
    ensures
        kind_code(left) == kind_code(right) ==> {
            &&& left is Air <==> right is Air
            &&& left is Cobble <==> right is Cobble
            &&& left is Redstone <==> right is Redstone
            &&& left is Torch <==> right is Torch
            &&& left is Repeater <==> right is Repeater
            &&& left is Switch <==> right is Switch
            &&& left is RedstoneBlock <==> right is RedstoneBlock
        },
{
}

/// The words of candidates whose cells are in range tell what each of them was made
/// of, where it stands, what it stands on and what powers it.
pub proof fn words_tell_candidates(left: Seq<PlacementCandidate>, right: Seq<PlacementCandidate>)
    requires
        forall|i: int| 0 <= i < left.len() ==> candidate_fits(#[trigger] left[i]),
        forall|i: int| 0 <= i < right.len() ==> candidate_fits(#[trigger] right[i]),
        all_candidate_words(left, left.len()) == all_candidate_words(right, right.len()),
    ensures
        left.len() == right.len(),
        forall|i: int|
            0 <= i < left.len() ==> {
                &&& (#[trigger] left[i]).entry == right[i].entry
                &&& left[i].torch == right[i].torch
                &&& left[i].support == right[i].support
                &&& left[i].source == right[i].source
                &&& left[i].direction == right[i].direction
            },
{
    words_have_room(left, left.len());
    words_have_room(right, right.len());
    assert forall|i: int| 0 <= i < left.len() implies {
        &&& (#[trigger] left[i]).entry == right[i].entry
        &&& left[i].torch == right[i].torch
        &&& left[i].support == right[i].support
        &&& left[i].source == right[i].source
        &&& left[i].direction == right[i].direction
    } by {
        assert(candidate_fits(left[i]) && candidate_fits(right[i]));
        let one = candidate_words(left[i]);
        let two = candidate_words(right[i]);
        assert forall|k: int| 0 <= k < 11 implies #[trigger] one[k] == two[k] by {
            words_hold_candidate(left, left.len(), i, k);
            words_hold_candidate(right, right.len(), i, k);
        }
        assert(one[0] == two[0]);
        assert(one[1] == two[1] && one[2] == two[2] && one[3] == two[3]);
        assert(one[4] == two[4] && one[5] == two[5] && one[6] == two[6]);
        assert(one[7] == two[7]);
        assert(one[8] == two[8] && one[9] == two[9] && one[10] == two[10]);
        codes_tell_directions_apart(left[i].direction, right[i].direction);
    }
}

/// The words of a world tell in which cells it has which kinds of blocks.
pub proof fn words_tell_worlds(left: World3D, right: World3D, words: Seq<u32>, cell: Position)
    requires
        left.size == right.size,
        are_world_words(left, words),
        are_world_words(right, words),
        in_bounds(left.size, cell),
    ensures
        left.at(cell).kind is Air <==> right.at(cell).kind is Air,
        left.at(cell).kind is Cobble <==> right.at(cell).kind is Cobble,
        left.at(cell).kind is Redstone <==> right.at(cell).kind is Redstone,
        left.at(cell).kind is Torch <==> right.at(cell).kind is Torch,
        left.at(cell).kind is Repeater <==> right.at(cell).kind is Repeater,
        left.at(cell).kind is Switch <==> right.at(cell).kind is Switch,
        left.at(cell).kind is RedstoneBlock <==> right.at(cell).kind is RedstoneBlock,
{
    assert(words[cell_index(left.size, cell)] == kind_code(left.at(cell).kind));
    assert(words[cell_index(right.size, cell)] == kind_code(right.at(cell).kind));
    codes_tell_kinds_apart(left.at(cell).kind, right.at(cell).kind);
}

} // verus!

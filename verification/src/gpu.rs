//! Worlds and candidates as words for a device, and the scores that come back.

use crate::transform::place_and_route::candidate_eval::{CandidateScore, PlacementCandidate};
use crate::world::block::BlockKind;
use crate::world::grid::{block_in_listed, lists_cell, World3D};
use crate::world::position::{in_bounds, DimSize, Direction, Position};
use vstd::prelude::*;

verus! {

/// How many candidates one group of a device judges.
pub const GROUP_SIZE: u32 = 64;

/// The code of a block.
pub open spec fn kind_code(kind: BlockKind) -> u32 {
    match kind {
        BlockKind::Air => 0,
        BlockKind::Cobble { .. } => 1,
        BlockKind::Redstone { .. } => 2,
        BlockKind::Torch { .. } => 3,
        BlockKind::Repeater { .. } => 4,
        BlockKind::Switch { .. } => 5,
        BlockKind::RedstoneBlock => 6,
    }
}

/// The code of a block.
pub fn pack_kind(kind: BlockKind) -> (code: u32)
    ensures
        code == kind_code(kind),
{
    match kind {
        BlockKind::Air => 0,
        BlockKind::Cobble { .. } => 1,
        BlockKind::Redstone { .. } => 2,
        BlockKind::Torch { .. } => 3,
        BlockKind::Repeater { .. } => 4,
        BlockKind::Switch { .. } => 5,
        BlockKind::RedstoneBlock => 6,
    }
}

/// The code of a direction.
pub open spec fn code_of(direction: Direction) -> u32 {
    match direction {
        Direction::Unset => 0,
        Direction::Bottom => 1,
        Direction::Top => 2,
        Direction::East => 3,
        Direction::West => 4,
        Direction::South => 5,
        Direction::North => 6,
    }
}

/// The code of a direction.
pub fn direction_code(direction: Direction) -> (code: u32)
    ensures
        code == code_of(direction),
{
    match direction {
        Direction::Unset => 0,
        Direction::Bottom => 1,
        Direction::Top => 2,
        Direction::East => 3,
        Direction::West => 4,
        Direction::South => 5,
        Direction::North => 6,
    }
}

/// The number of cells of a world.
pub open spec fn cell_count(size: DimSize) -> int {
    size.0 * size.1 * size.2
}

/// Where a cell is among the words of a world.
pub open spec fn cell_index(size: DimSize, cell: Position) -> int {
    cell.0 + cell.1 * size.0 + cell.2 * (size.0 * size.1)
}

proof fn cell_index_fits(size: DimSize, cell: Position)
    requires
        in_bounds(size, cell),
    ensures
        0 <= cell_index(size, cell) < cell_count(size),
        0 <= cell.1 * size.0,
        0 <= cell.2 * (size.0 * size.1),
        cell.1 * size.0 <= cell_index(size, cell),
        cell.2 * (size.0 * size.1) <= cell_index(size, cell),
        size.0 * size.1 <= cell_count(size),
{
    let x = cell.0 as int;
    let y = cell.1 as int;
    let z = cell.2 as int;
    let sx = size.0 as int;
    let sy = size.1 as int;
    let sz = size.2 as int;
    assert(y * sx >= 0 && z * (sx * sy) >= 0 && x + y * sx + z * (sx * sy) < sx * sy * sz && sx * sy <= sx * sy * sz)
        by (nonlinear_arith)
        requires
            0 <= x < sx,
            0 <= y < sy,
            0 <= z < sz,
    {
        assert(x + y * sx <= (y + 1) * sx - 1);
        assert((y + 1) * sx <= sy * sx);
        assert(z * (sx * sy) <= (sz - 1) * (sx * sy));
        assert((sz - 1) * (sx * sy) + sx * sy == sx * sy * sz);
        assert(sx * sy >= 0);
    }
}

/// Two cells of a world have two places.
pub proof fn cell_index_is_injective(size: DimSize, left: Position, right: Position)
    requires
        in_bounds(size, left),
        in_bounds(size, right),
        cell_index(size, left) == cell_index(size, right),
    ensures
        left == right,
{
    let a = left.0 as int;
    let b = left.1 as int;
    let c = left.2 as int;
    let x = right.0 as int;
    let y = right.1 as int;
    let z = right.2 as int;
    let sx = size.0 as int;
    let sy = size.1 as int;
    let plane = sx * sy;
    assert(a + b * sx < plane && x + y * sx < plane && a + b * sx >= 0 && x + y * sx >= 0) by (nonlinear_arith)
        requires
            0 <= a < sx,
            0 <= x < sx,
            0 <= b < sy,
            0 <= y < sy,
            plane == sx * sy,
    {
        assert(b * sx + sx <= sy * sx);
        assert(y * sx + sx <= sy * sx);
    }
    let low = a + b * sx;
    let other = x + y * sx;
    assert(c == z) by (nonlinear_arith)
        requires
            low + c * plane == other + z * plane,
            0 <= low < plane,
            0 <= other < plane,
    {
        if c < z {
            assert((c + 1) * plane <= z * plane);
        }
        if z < c {
            assert((z + 1) * plane <= c * plane);
        }
    }
    assert(b == y) by (nonlinear_arith)
        requires
            a + b * sx == x + y * sx,
            0 <= a < sx,
            0 <= x < sx,
    {
        if b < y {
            assert((b + 1) * sx <= y * sx);
        }
        if y < b {
            assert((y + 1) * sx <= b * sx);
        }
    }
}

/// Whether words are those of a world: the code of the block of each cell, and
/// nothing where there is no block.
pub open spec fn are_world_words(world: World3D, words: Seq<u32>) -> bool {
    &&& words.len() == cell_count(world.size)
    &&& forall|cell: Position| #[trigger]
        in_bounds(world.size, cell) ==> words[cell_index(world.size, cell)] == kind_code(world.at(cell).kind)
}

/// The words of a world.
pub fn pack_cells(world: &World3D) -> (words: Vec<u32>)
    requires
        world.wf(),
        cell_count(world.size) <= usize::MAX,
        world.size.0 * world.size.1 <= usize::MAX,
    ensures
        are_world_words(*world, words@),
{
    let ghost size = world.size;
    let plane: usize = world.size.0 * world.size.1;
    let total: usize = plane * world.size.2;
    assert(total == cell_count(size));
    let mut words: Vec<u32> = Vec::new();
    let mut index: usize = 0;
    while index < total
        invariant
            index <= total,
            words.len() == index,
            forall|i: int| 0 <= i < index ==> #[trigger] words@[i] == 0,
        decreases total - index,
    {
        words.push(0);
        index += 1;
    }
    let listed = world.iter_block();
    proof {
        assert forall|cell: Position| #[trigger] in_bounds(size, cell) implies words@[cell_index(size, cell)]
            == code_before(*world, cell, 0) by {
            cell_index_fits(size, cell);
        }
    }
    let mut part: usize = 0;
    while part < listed.len()
        invariant
            part <= listed.len(),
            size == world.size,
            world.wf(),
            listed@ == world.listed(),
            total == cell_count(size),
            plane == size.0 * size.1,
            words.len() == total,
            forall|cell: Position| #[trigger]
                in_bounds(size, cell) ==> words@[cell_index(size, cell)] == code_before(*world, cell, part as nat),
        decreases listed.len() - part,
    {
        let cell = listed[part].0;
        assert(in_bounds(world.size, world.listed()[part as int].0));
        proof {
            cell_index_fits(size, cell);
        }
        let at: usize = cell.0 + cell.1 * world.size.0 + cell.2 * plane;
        assert(at == cell_index(size, cell));
        let code: u32 = pack_kind(listed[part].1.kind);
        let ghost before = words@;
        words.set(at, code);
        proof {
            assert forall|other: Position| #[trigger] in_bounds(size, other) implies words@[cell_index(size, other)]
                == code_before(*world, other, (part + 1) as nat) by {
                cell_index_fits(size, other);
                if cell_index(size, other) == at {
                    cell_index_is_injective(size, other, cell);
                } else {
                    assert(before[cell_index(size, other)] == code_before(*world, other, part as nat));
                }
            }
        }
        part += 1;
    }
    proof {
        assert forall|cell: Position| #[trigger] in_bounds(size, cell) implies words@[cell_index(size, cell)]
            == kind_code(world.at(cell).kind) by {
            codes_agree(*world, cell, listed@.len());
        }
    }
    words
}

/// The code of the last of the first `count` blocks in a cell.
spec fn code_before(world: World3D, cell: Position, count: nat) -> u32
    decreases count,
{
    if count == 0 {
        0
    } else if world.listed()[count - 1].0 == cell {
        kind_code(world.listed()[count - 1].1.kind)
    } else {
        code_before(world, cell, (count - 1) as nat)
    }
}

proof fn codes_agree(world: World3D, cell: Position, count: nat)
    requires
        world.wf(),
        count <= world.listed().len(),
    ensures
        count == world.listed().len() ==> code_before(world, cell, count) == kind_code(world.at(cell).kind),
        code_before(world, cell, count) == kind_code(world.at(cell).kind) || (forall|i: int|
            0 <= i < count ==> (#[trigger] world.listed()[i]).0 != cell) && code_before(world, cell, count) == 0,
    decreases count,
{
    if count > 0 {
        codes_agree(world, cell, (count - 1) as nat);
        if world.listed()[count - 1].0 == cell {
            world.listed_at(count - 1);
        }
    }
    if count == world.listed().len() && (forall|i: int| 0 <= i < count ==> (#[trigger] world.listed()[i]).0 != cell) {
        if lists_cell(world.listed(), cell) {
            block_in_listed(world.listed(), cell);
        }
    }
}

/// A number cut to a word.
pub open spec fn cut(number: usize) -> u32 {
    number as u32
}

#[verifier::truncate]
fn cut_word(number: usize) -> (word: u32)
    ensures
        word == cut(number),
{
    number as u32
}

/// The words of a candidate.
pub open spec fn candidate_words(candidate: PlacementCandidate) -> Seq<u32> {
    seq![
        candidate.entry,
        cut(candidate.torch.0),
        cut(candidate.torch.1),
        cut(candidate.torch.2),
        cut(candidate.support.0),
        cut(candidate.support.1),
        cut(candidate.support.2),
        code_of(candidate.direction),
        cut(candidate.source.0),
        cut(candidate.source.1),
        cut(candidate.source.2),
    ]
}

/// The words of the first `count` candidates.
pub open spec fn all_candidate_words(candidates: Seq<PlacementCandidate>, count: nat) -> Seq<u32>
    decreases count,
{
    if count == 0 {
        Seq::empty()
    } else {
        all_candidate_words(candidates, (count - 1) as nat) + candidate_words(candidates[count - 1])
    }
}

/// The words of candidates.
pub fn pack_candidates(candidates: &Vec<PlacementCandidate>) -> (words: Vec<u32>)
    ensures
        words@ == all_candidate_words(candidates@, candidates@.len()),
{
    let mut words: Vec<u32> = Vec::new();
    assert(words@ =~= all_candidate_words(candidates@, 0));
    let mut index: usize = 0;
    while index < candidates.len()
        invariant
            index <= candidates.len(),
            words@ == all_candidate_words(candidates@, index as nat),
        decreases candidates.len() - index,
    {
        let candidate = candidates[index];
        let ghost before = words@;
        words.push(candidate.entry);
        words.push(cut_word(candidate.torch.0));
        words.push(cut_word(candidate.torch.1));
        words.push(cut_word(candidate.torch.2));
        words.push(cut_word(candidate.support.0));
        words.push(cut_word(candidate.support.1));
        words.push(cut_word(candidate.support.2));
        words.push(direction_code(candidate.direction));
        words.push(cut_word(candidate.source.0));
        words.push(cut_word(candidate.source.1));
        words.push(cut_word(candidate.source.2));
        assert(words@ =~= before + candidate_words(candidate));
        index += 1;
    }
    words
}

/// The words that tell a device the size of a world and the number of candidates.
pub fn pack_params(size: DimSize, count: usize) -> (words: Vec<u32>)
    ensures
        words@ == seq![cut(size.0), cut(size.1), cut(size.2), cut(count)],
{
    let words = vec![cut_word(size.0), cut_word(size.1), cut_word(size.2), cut_word(count)];
    assert(words@ =~= seq![cut(size.0), cut(size.1), cut(size.2), cut(count)]);
    words
}

/// How many groups of a device judge some candidates.
pub fn group_count(candidates: u32) -> (groups: u32)
    ensures
        groups == (candidates + GROUP_SIZE - 1) / GROUP_SIZE as int,
{
    let whole: u32 = candidates / GROUP_SIZE;
    if candidates % GROUP_SIZE == 0 {
        whole
    } else {
        whole + 1
    }
}

// ---------------------------------------------------------------------------
// Bytes
// ---------------------------------------------------------------------------
/// The bytes of a word, the lowest first.
pub open spec fn word_bytes(word: u32) -> Seq<u8> {
    seq![
        (word % 256) as u8,
        (word / 256 % 256) as u8,
        (word / 65536 % 256) as u8,
        (word / 16777216) as u8,
    ]
}

/// The bytes of the first `count` words.
pub open spec fn all_bytes(words: Seq<u32>, count: nat) -> Seq<u8>
    decreases count,
{
    if count == 0 {
        Seq::empty()
    } else {
        all_bytes(words, (count - 1) as nat) + word_bytes(words[count - 1])
    }
}

/// The bytes of words.
pub fn bytes_from_words(words: &Vec<u32>) -> (bytes: Vec<u8>)
    ensures
        bytes@ == all_bytes(words@, words@.len()),
{
    let mut bytes: Vec<u8> = Vec::new();
    assert(bytes@ =~= all_bytes(words@, 0));
    let mut index: usize = 0;
    while index < words.len()
        invariant
            index <= words.len(),
            bytes@ == all_bytes(words@, index as nat),
        decreases words.len() - index,
    {
        let word: u32 = words[index];
        let ghost before = bytes@;
        bytes.push((word % 256) as u8);
        bytes.push((word / 256 % 256) as u8);
        bytes.push((word / 65536 % 256) as u8);
        bytes.push((word / 16777216) as u8);
        assert(bytes@ =~= before + word_bytes(word));
        index += 1;
    }
    bytes
}

/// The word of four bytes from `start` on.
pub open spec fn word_at(bytes: Seq<u8>, start: int) -> u32 {
    (bytes[start] + bytes[start + 1] * 256 + bytes[start + 2] * 65536 + bytes[start + 3] * 16777216) as u32
}

/// The words of bytes. What is left behind the last four is dropped.
pub open spec fn words_of(bytes: Seq<u8>) -> Seq<u32> {
    Seq::new((bytes.len() / 4) as nat, |i: int| word_at(bytes, i * 4))
}

/// The words of bytes.
pub fn words_from_bytes(bytes: &Vec<u8>) -> (words: Vec<u32>)
    ensures
        words@ == words_of(bytes@),
{
    let count: usize = bytes.len() / 4;
    let mut words: Vec<u32> = Vec::new();
    let mut index: usize = 0;
    while index < count
        invariant
            index <= count,
            count == bytes.len() / 4,
            words.len() == index,
            forall|i: int| 0 <= i < index ==> #[trigger] words@[i] == word_at(bytes@, i * 4),
        decreases count - index,
    {
        let start: usize = index * 4;
        let word: u32 = (bytes[start] as u32) + (bytes[start + 1] as u32) * 256 + (bytes[start + 2] as u32) * 65536 + (
        bytes[start + 3] as u32) * 16777216;
        words.push(word);
        index += 1;
    }
    assert(words@ =~= words_of(bytes@));
    words
}

proof fn bytes_length(words: Seq<u32>, count: nat)
    ensures
        all_bytes(words, count).len() == count * 4,
    decreases count,
{
    if count > 0 {
        bytes_length(words, (count - 1) as nat);
    }
}

proof fn word_survives(word: u32)
    ensures
        word_at(word_bytes(word), 0) == word,
{
}

proof fn bytes_hold_word(words: Seq<u32>, count: nat, index: int)
    requires
        0 <= index < count <= words.len(),
    ensures
        all_bytes(words, count).len() == count * 4,
        word_at(all_bytes(words, count), index * 4) == words[index],
    decreases count,
{
    bytes_length(words, count);
    bytes_length(words, (count - 1) as nat);
    let rest = all_bytes(words, (count - 1) as nat);
    let last = word_bytes(words[count - 1]);
    let all = all_bytes(words, count);
    if index == count - 1 {
        word_survives(words[index]);
        assert(all[index * 4] == last[0]);
        assert(all[index * 4 + 1] == last[1]);
        assert(all[index * 4 + 2] == last[2]);
        assert(all[index * 4 + 3] == last[3]);
    } else {
        bytes_hold_word(words, (count - 1) as nat, index);
        assert(all[index * 4] == rest[index * 4]);
        assert(all[index * 4 + 1] == rest[index * 4 + 1]);
        assert(all[index * 4 + 2] == rest[index * 4 + 2]);
        assert(all[index * 4 + 3] == rest[index * 4 + 3]);
    }
}

/// Words come back from their bytes.
pub proof fn words_come_back(words: Seq<u32>)
    ensures
        words_of(all_bytes(words, words.len())) == words,
{
    let bytes = all_bytes(words, words.len());
    bytes_length(words, words.len());
    assert forall|i: int| 0 <= i < words.len() implies words_of(bytes)[i] == words[i] by {
        bytes_hold_word(words, words.len(), i);
    }
    assert(words_of(bytes) =~= words);
}

/// The scores of words, three for each.
pub open spec fn scores_of(words: Seq<u32>) -> Seq<CandidateScore> {
    Seq::new(
        (words.len() / 3) as nat,
        |i: int|
            CandidateScore {
                valid: words[i * 3] != 0,
                drc_penalty: words[i * 3 + 1],
                estimated_route_cost: words[i * 3 + 2],
            },
    )
}

/// The scores of words.
pub fn decode_scores(words: &Vec<u32>) -> (scores: Vec<CandidateScore>)
    ensures
        scores@ == scores_of(words@),
{
    let count: usize = words.len() / 3;
    let mut scores: Vec<CandidateScore> = Vec::new();
    let mut index: usize = 0;
    while index < count
        invariant
            index <= count,
            count == words.len() / 3,
            scores.len() == index,
            forall|i: int| 0 <= i < index ==> #[trigger] scores@[i] == scores_of(words@)[i],
        decreases count - index,
    {
        let start: usize = index * 3;
        scores.push(
            CandidateScore {
                valid: words[start] != 0,
                drc_penalty: words[start + 1],
                estimated_route_cost: words[start + 2],
            },
        );
        index += 1;
    }
    assert(scores@ =~= scores_of(words@));
    scores
}

} // verus!

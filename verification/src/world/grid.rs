//! A world: a bounded grid of blocks, of which the ones that are not air are
//! kept in cell order.

use super::block::{air, Block};
use super::position::{in_bounds, position_before, DimSize, Position};
use crate::order::SortKey;
use vstd::prelude::*;

verus! {

/// A cell and the block in it.
pub type Placed = (Position, Block);

/// Whether blocks are listed in cell order, each cell once.
pub open spec fn is_listing(blocks: Seq<Placed>) -> bool {
    forall|i: int, j: int| 0 <= i < j < blocks.len() ==> position_before((#[trigger] blocks[i]).0, (#[trigger] blocks[j]).0)
}

/// Whether a list has a block in a cell.
pub open spec fn lists_cell(blocks: Seq<Placed>, position: Position) -> bool {
    exists|i: int| 0 <= i < blocks.len() && (#[trigger] blocks[i]).0 == position
}

/// The block that a list has in a cell, or air.
pub open spec fn block_in(blocks: Seq<Placed>, position: Position) -> Block {
    if lists_cell(blocks, position) {
        blocks[choose|i: int| 0 <= i < blocks.len() && (#[trigger] blocks[i]).0 == position].1
    } else {
        air()
    }
}

/// A bounded grid of blocks.
#[derive(Clone, Debug)]
pub struct World3D {
    pub size: DimSize,
    pub blocks: Vec<Placed>,
}

impl World3D {
    /// The blocks that are not air, in cell order.
    pub open spec fn listed(&self) -> Seq<Placed> {
        self.blocks@
    }

    /// The block in a cell.
    pub open spec fn at(&self, position: Position) -> Block {
        block_in(self.listed(), position)
    }

    /// Blocks are listed in cell order, lie inside the world, and are not air.
    pub open spec fn wf(&self) -> bool {
        &&& is_listing(self.listed())
        &&& forall|i: int|
            0 <= i < self.listed().len() ==> in_bounds(self.size, (#[trigger] self.listed()[i]).0) && !(
            self.listed()[i].1.kind is Air)
    }

    /// An empty world.
    pub fn new(size: DimSize) -> (world: Self)
        ensures
            world.wf(),
            world.size == size,
            world.listed() == Seq::<Placed>::empty(),
    {
        let world = World3D { size, blocks: Vec::new() };
        assert(world.listed() =~= Seq::empty());
        world
    }

    /// A block that is listed is the block of its cell.
    pub proof fn listed_at(&self, index: int)
        requires
            self.wf(),
            0 <= index < self.listed().len(),
        ensures
            self.at(self.listed()[index].0) == self.listed()[index].1,
            lists_cell(self.listed(), self.listed()[index].0),
    {
        listed_block(self.listed(), index);
    }

    /// The block in a cell.
    pub fn get(&self, position: Position) -> (block: Block)
        requires
            self.wf(),
        ensures
            block == self.at(position),
    {
        let ghost listed = self.listed();
        let mut index: usize = 0;
        while index < self.blocks.len()
            invariant
                self.wf(),
                listed == self.listed(),
                listed == self.blocks@,
                index <= self.blocks.len(),
                forall|i: int| 0 <= i < index ==> (#[trigger] listed[i]).0 != position,
            decreases self.blocks.len() - index,
        {
            if self.blocks[index].0 == position {
                proof {
                    listed_block(listed, index as int);
                }
                return self.blocks[index].1;
            }
            index += 1;
        }
        Block::default()
    }

    /// Puts a block into a cell.
    pub fn set(&mut self, position: Position, block: Block)
        requires
            old(self).wf(),
            in_bounds(old(self).size, position),
        ensures
            final(self).wf(),
            final(self).size == old(self).size,
            forall|other: Position| #[trigger]
                final(self).at(other) == (if other == position {
                    if block.kind is Air {
                        air()
                    } else {
                        block
                    }
                } else {
                    old(self).at(other)
                }),
    {
        let ghost before = self.listed();
        let mut place: usize = 0;
        while place < self.blocks.len() && self.blocks[place].0.is_before(&position)
            invariant
                self.blocks@ == before,
                place <= self.blocks.len(),
                forall|i: int| 0 <= i < place ==> position_before((#[trigger] before[i]).0, position),
            decreases self.blocks.len() - place,
        {
            place += 1;
        }
        let present = place < self.blocks.len() && self.blocks[place].0 == position;
        proof {
            assert forall|i: int| place < i < before.len() implies position_before(position, (#[trigger] before[i]).0) by {
                assert(position_before(before[place as int].0, before[i].0));
            }
        }
        if block.kind.is_air() {
            if present {
                self.blocks.remove(place);
                proof {
                    assert(self.listed() == before.remove(place as int));
                    removed_block(before, place as int);
                }
            } else {
                proof {
                    absent_block(before, place as int, position);
                }
            }
        } else if present {
            self.blocks[place] = (position, block);
            proof {
                assert(self.listed() =~= before.update(place as int, (position, block)));
                updated_block(before, place as int, block);
            }
        } else {
            self.blocks.insert(place, (position, block));
            proof {
                assert(self.listed() == before.insert(place as int, (position, block)));
                inserted_block(before, place as int, position, block);
            }
        }
    }

    /// The blocks that are not air, in cell order.
    pub fn iter_block(&self) -> (blocks: Vec<Placed>)
        ensures
            blocks@ == self.listed(),
    {
        copy_placed(&self.blocks)
    }

    /// An equal world.
    pub fn copy(&self) -> (copy: Self)
        ensures
            copy.size == self.size,
            copy.listed() == self.listed(),
    {
        World3D { size: self.size, blocks: self.iter_block() }
    }
}

/// Copies a list of blocks.
pub fn copy_placed(blocks: &Vec<Placed>) -> (copy: Vec<Placed>)
    ensures
        copy@ == blocks@,
{
    let mut copy: Vec<Placed> = Vec::new();
    let mut index: usize = 0;
    while index < blocks.len()
        invariant
            index <= blocks.len(),
            copy.len() == index,
            forall|i: int| 0 <= i < index ==> #[trigger] copy[i] == blocks[i],
        decreases blocks.len() - index,
    {
        copy.push((blocks[index].0, blocks[index].1));
        index += 1;
    }
    assert(copy@ =~= blocks@);
    copy
}

/// Whether two worlds of the same size have the same blocks.
pub open spec fn same_world(left: World3D, right: World3D) -> bool {
    left.size == right.size && left.listed() == right.listed()
}

/// In a listing each cell has one block.
pub proof fn listed_block(blocks: Seq<Placed>, index: int)
    requires
        is_listing(blocks),
        0 <= index < blocks.len(),
    ensures
        lists_cell(blocks, blocks[index].0),
        block_in(blocks, blocks[index].0) == blocks[index].1,
{
    let position = blocks[index].0;
    let found = choose|i: int| 0 <= i < blocks.len() && (#[trigger] blocks[i]).0 == position;
    if found < index {
        assert(position_before(blocks[found].0, blocks[index].0));
    } else if found > index {
        assert(position_before(blocks[index].0, blocks[found].0));
    }
}

/// The block of a cell that is listed is in the list.
pub proof fn block_in_listed(blocks: Seq<Placed>, position: Position)
    requires
        is_listing(blocks),
        lists_cell(blocks, position),
    ensures
        blocks.contains((position, block_in(blocks, position))),
{
    let found = choose|i: int| 0 <= i < blocks.len() && (#[trigger] blocks[i]).0 == position;
    assert(blocks[found] == (position, block_in(blocks, position)));
}

proof fn absent_block(before: Seq<Placed>, place: int, position: Position)
    requires
        is_listing(before),
        0 <= place <= before.len(),
        forall|i: int| 0 <= i < place ==> position_before((#[trigger] before[i]).0, position),
        forall|i: int| place < i < before.len() ==> position_before(position, (#[trigger] before[i]).0),
        place < before.len() ==> before[place].0 != position,
    ensures
        block_in(before, position) == air(),
{
    if lists_cell(before, position) {
        let i = choose|i: int| 0 <= i < before.len() && (#[trigger] before[i]).0 == position;
        assert(i == place);
    }
}

proof fn removed_block(before: Seq<Placed>, place: int)
    requires
        is_listing(before),
        0 <= place < before.len(),
    ensures
        is_listing(before.remove(place)),
        forall|i: int|
            0 <= i < before.remove(place).len() ==> before.contains(#[trigger] before.remove(place)[i]),
        forall|other: Position| #[trigger]
            block_in(before.remove(place), other) == (if other == before[place].0 {
                air()
            } else {
                block_in(before, other)
            }),
{
    let after = before.remove(place);
    assert forall|k: int| 0 <= k < after.len() implies #[trigger] after[k] == before[if k < place { k } else { k + 1 }] by {}
    assert forall|i: int, j: int| 0 <= i < j < after.len() implies position_before(
        (#[trigger] after[i]).0,
        (#[trigger] after[j]).0,
    ) by {
        let a = if i < place { i } else { i + 1 };
        let b = if j < place { j } else { j + 1 };
        assert(position_before(before[a].0, before[b].0));
    }
    assert forall|other: Position| #[trigger] block_in(after, other) == (if other == before[place].0 {
        air()
    } else {
        block_in(before, other)
    }) by {
        if lists_cell(after, other) {
            let k = choose|k: int| 0 <= k < after.len() && (#[trigger] after[k]).0 == other;
            let i = if k < place { k } else { k + 1 };
            listed_block(after, k);
            listed_block(before, i);
            if other == before[place].0 {
                if i < place {
                    assert(position_before(before[i].0, before[place].0));
                } else {
                    assert(position_before(before[place].0, before[i].0));
                }
            }
        } else if lists_cell(before, other) && other != before[place].0 {
            let i = choose|i: int| 0 <= i < before.len() && (#[trigger] before[i]).0 == other;
            let k = if i < place { i } else { i - 1 };
            assert(after[k].0 == other);
        }
    }
}

proof fn updated_block(before: Seq<Placed>, place: int, block: Block)
    requires
        is_listing(before),
        0 <= place < before.len(),
    ensures
        is_listing(before.update(place, (before[place].0, block))),
        forall|other: Position| #[trigger]
            block_in(before.update(place, (before[place].0, block)), other) == (if other == before[place].0 {
                block
            } else {
                block_in(before, other)
            }),
{
    let after = before.update(place, (before[place].0, block));
    assert forall|i: int, j: int| 0 <= i < j < after.len() implies position_before(
        (#[trigger] after[i]).0,
        (#[trigger] after[j]).0,
    ) by {
        assert(position_before(before[i].0, before[j].0));
    }
    assert forall|other: Position| #[trigger] block_in(after, other) == (if other == before[place].0 {
        block
    } else {
        block_in(before, other)
    }) by {
        if lists_cell(after, other) {
            let k = choose|k: int| 0 <= k < after.len() && (#[trigger] after[k]).0 == other;
            listed_block(after, k);
            listed_block(before, k);
            assert(before[k].0 == other);
            if other == before[place].0 && k != place {
                if k < place {
                    assert(position_before(before[k].0, before[place].0));
                } else {
                    assert(position_before(before[place].0, before[k].0));
                }
            }
        } else {
            if lists_cell(before, other) {
                let i = choose|i: int| 0 <= i < before.len() && (#[trigger] before[i]).0 == other;
                assert(after[i].0 == other);
            }
            if other == before[place].0 {
                assert(after[place].0 == other);
            }
        }
    }
}

proof fn inserted_block(before: Seq<Placed>, place: int, position: Position, block: Block)
    requires
        is_listing(before),
        0 <= place <= before.len(),
        forall|i: int| 0 <= i < place ==> position_before((#[trigger] before[i]).0, position),
        forall|i: int| place < i < before.len() ==> position_before(position, (#[trigger] before[i]).0),
        place < before.len() ==> position_before(position, before[place].0),
    ensures
        is_listing(before.insert(place, (position, block))),
        forall|i: int|
            0 <= i < before.insert(place, (position, block)).len() ==> i == place || before.contains(
                #[trigger] before.insert(place, (position, block))[i],
            ),
        forall|other: Position| #[trigger]
            block_in(before.insert(place, (position, block)), other) == (if other == position {
                block
            } else {
                block_in(before, other)
            }),
{
    let after = before.insert(place, (position, block));
    assert forall|k: int| 0 <= k < after.len() && k != place implies #[trigger] after[k] == before[if k < place {
        k
    } else {
        k - 1
    }] by {}
    assert forall|i: int, j: int| 0 <= i < j < after.len() implies position_before(
        (#[trigger] after[i]).0,
        (#[trigger] after[j]).0,
    ) by {
        let a = if i < place { i } else { i - 1 };
        let b = if j < place { j } else { j - 1 };
        if i != place && j != place {
            assert(position_before(before[a].0, before[b].0));
        } else if i == place {
            assert(j - 1 == place || position_before(position, before[j - 1].0));
        }
    }
    assert forall|other: Position| #[trigger] block_in(after, other) == (if other == position {
        block
    } else {
        block_in(before, other)
    }) by {
        if other == position {
            listed_block(after, place);
        } else if lists_cell(after, other) {
            let k = choose|k: int| 0 <= k < after.len() && (#[trigger] after[k]).0 == other;
            assert(k != place);
            listed_block(after, k);
            listed_block(before, if k < place { k } else { k - 1 });
        } else if lists_cell(before, other) {
            let i = choose|i: int| 0 <= i < before.len() && (#[trigger] before[i]).0 == other;
            let k = if i < place { i } else { i + 1 };
            assert(after[k].0 == other);
        }
    }
}

/// The smallest box around some cells.
#[derive(Clone, Copy, Debug, PartialEq, Eq, Structural)]
pub struct BoundingBox {
    pub min: Position,
    pub max: Position,
}

/// Whether a box holds a cell.
pub open spec fn box_holds(bbox: BoundingBox, position: Position) -> bool {
    &&& bbox.min.0 <= position.0 <= bbox.max.0
    &&& bbox.min.1 <= position.1 <= bbox.max.1
    &&& bbox.min.2 <= position.2 <= bbox.max.2
}

/// Whether a box is the smallest around the cells of a list: it holds them all,
/// and each of its sides touches one.
pub open spec fn is_bounding_box(blocks: Seq<Placed>, bbox: BoundingBox) -> bool {
    &&& forall|i: int| 0 <= i < blocks.len() ==> box_holds(bbox, (#[trigger] blocks[i]).0)
    &&& exists|i: int| 0 <= i < blocks.len() && (#[trigger] blocks[i]).0.0 == bbox.min.0
    &&& exists|i: int| 0 <= i < blocks.len() && (#[trigger] blocks[i]).0.1 == bbox.min.1
    &&& exists|i: int| 0 <= i < blocks.len() && (#[trigger] blocks[i]).0.2 == bbox.min.2
    &&& exists|i: int| 0 <= i < blocks.len() && (#[trigger] blocks[i]).0.0 == bbox.max.0
    &&& exists|i: int| 0 <= i < blocks.len() && (#[trigger] blocks[i]).0.1 == bbox.max.1
    &&& exists|i: int| 0 <= i < blocks.len() && (#[trigger] blocks[i]).0.2 == bbox.max.2
}

/// The number of cells along x, y and height.
pub open spec fn box_extent(bbox: BoundingBox) -> (int, int, int) {
    (
        bbox.max.0 - bbox.min.0 + 1,
        bbox.max.1 - bbox.min.1 + 1,
        bbox.max.2 - bbox.min.2 + 1,
    )
}

/// Whether a box has its corners in order and its extents in range.
pub open spec fn box_wf(bbox: BoundingBox) -> bool {
    &&& bbox.min.0 <= bbox.max.0 < usize::MAX
    &&& bbox.min.1 <= bbox.max.1 < usize::MAX
    &&& bbox.min.2 <= bbox.max.2 < usize::MAX
}

impl BoundingBox {
    pub fn width(&self) -> (width: usize)
        requires
            box_wf(*self),
        ensures
            width == box_extent(*self).0,
    {
        self.max.0 - self.min.0 + 1
    }

    pub fn depth(&self) -> (depth: usize)
        requires
            box_wf(*self),
        ensures
            depth == box_extent(*self).1,
    {
        self.max.1 - self.min.1 + 1
    }

    pub fn height(&self) -> (height: usize)
        requires
            box_wf(*self),
        ensures
            height == box_extent(*self).2,
    {
        self.max.2 - self.min.2 + 1
    }
}

fn lower(left: usize, right: usize) -> (low: usize)
    ensures
        low == if left < right { left } else { right },
{
    if left < right {
        left
    } else {
        right
    }
}

fn upper(left: usize, right: usize) -> (high: usize)
    ensures
        high == if left < right { right } else { left },
{
    if left < right {
        right
    } else {
        left
    }
}

/// The smallest box around the blocks of a world, if it has any.
pub fn bounding_box(world: &World3D) -> (bbox: Option<BoundingBox>)
    requires
        world.wf(),
    ensures
        match bbox {
            Some(bbox) => world.listed().len() > 0 && is_bounding_box(world.listed(), bbox) && box_wf(bbox)
                && in_bounds(world.size, bbox.max),
            None => world.listed().len() == 0,
        },
{
    let blocks = world.iter_block();
    let ghost listed = world.listed();
    if blocks.len() == 0 {
        return None;
    }
    let first = blocks[0].0;
    let mut min = first;
    let mut max = first;
    let ghost mut low = (0int, 0int, 0int);
    let ghost mut high = (0int, 0int, 0int);
    let mut index: usize = 1;
    while index < blocks.len()
        invariant
            blocks@ == listed,
            1 <= index <= blocks.len(),
            forall|i: int|
                0 <= i < index ==> box_holds((BoundingBox { min, max }), (#[trigger] listed[i]).0),
            0 <= low.0 < index && listed[low.0].0.0 == min.0,
            0 <= low.1 < index && listed[low.1].0.1 == min.1,
            0 <= low.2 < index && listed[low.2].0.2 == min.2,
            0 <= high.0 < index && listed[high.0].0.0 == max.0,
            0 <= high.1 < index && listed[high.1].0.1 == max.1,
            0 <= high.2 < index && listed[high.2].0.2 == max.2,
        decreases blocks.len() - index,
    {
        let position = blocks[index].0;
        let ghost old_min = min;
        let ghost old_max = max;
        min = Position(lower(min.0, position.0), lower(min.1, position.1), lower(min.2, position.2));
        max = Position(upper(max.0, position.0), upper(max.1, position.1), upper(max.2, position.2));
        proof {
            let at = index as int;
            low = (
                if min.0 == old_min.0 { low.0 } else { at },
                if min.1 == old_min.1 { low.1 } else { at },
                if min.2 == old_min.2 { low.2 } else { at },
            );
            high = (
                if max.0 == old_max.0 { high.0 } else { at },
                if max.1 == old_max.1 { high.1 } else { at },
                if max.2 == old_max.2 { high.2 } else { at },
            );
            assert forall|i: int| 0 <= i < index + 1 implies box_holds(
                (BoundingBox { min, max }),
                (#[trigger] listed[i]).0,
            ) by {
                if i < index {
                    assert(box_holds((BoundingBox { min: old_min, max: old_max }), listed[i].0));
                }
            }
        }
        index += 1;
    }
    let bbox = BoundingBox { min, max };
    proof {
        assert(listed[low.0].0.0 == bbox.min.0);
        assert(listed[low.1].0.1 == bbox.min.1);
        assert(listed[low.2].0.2 == bbox.min.2);
        assert(listed[high.0].0.0 == bbox.max.0);
        assert(listed[high.1].0.1 == bbox.max.1);
        assert(listed[high.2].0.2 == bbox.max.2);
        assert(in_bounds(world.size, listed[high.0].0));
        assert(in_bounds(world.size, listed[high.1].0));
        assert(in_bounds(world.size, listed[high.2].0));
        assert(box_holds(bbox, listed[0].0));
    }
    Some(bbox)
}

} // verus!

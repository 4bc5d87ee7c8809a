//! Blocks.

use super::position::{Direction, Position};
use vstd::prelude::*;

verus! {

/// What stands in a cell.
#[derive(Clone, Copy, Debug, PartialEq, Eq, Hash, Structural)]
pub enum BlockKind {
    Air,
    Cobble { on_count: usize, on_base_count: usize },
    Redstone { on_count: usize, state: usize, strength: usize },
    Torch { is_on: bool },
    Repeater {
        is_on: bool,
        is_locked: bool,
        delay: usize,
        lock_input1: Option<Position>,
        lock_input2: Option<Position>,
    },
    Switch { is_on: bool },
    RedstoneBlock,
}

impl BlockKind {
    pub fn is_air(&self) -> (is: bool)
        ensures
            is == (*self is Air),
    {
        matches!(self, BlockKind::Air)
    }

    pub fn is_cobble(&self) -> (is: bool)
        ensures
            is == (*self is Cobble),
    {
        matches!(self, BlockKind::Cobble { .. })
    }

    pub fn is_redstone(&self) -> (is: bool)
        ensures
            is == (*self is Redstone),
    {
        matches!(self, BlockKind::Redstone { .. })
    }

    pub fn is_torch(&self) -> (is: bool)
        ensures
            is == (*self is Torch),
    {
        matches!(self, BlockKind::Torch { .. })
    }

    pub fn is_repeater(&self) -> (is: bool)
        ensures
            is == (*self is Repeater),
    {
        matches!(self, BlockKind::Repeater { .. })
    }

    pub fn is_switch(&self) -> (is: bool)
        ensures
            is == (*self is Switch),
    {
        matches!(self, BlockKind::Switch { .. })
    }
}

/// A block and the direction that it faces.
#[derive(Clone, Copy, Debug, PartialEq, Eq, Hash, Structural)]
pub struct Block {
    pub kind: BlockKind,
    pub direction: Direction,
}

/// The empty block.
pub open spec fn air() -> Block {
    Block { kind: BlockKind::Air, direction: Direction::Unset }
}

impl Default for Block {
    fn default() -> (block: Self)
        ensures
            block == air(),
    {
        Block { kind: BlockKind::Air, direction: Direction::Unset }
    }
}

} // verus!

//! The smallest unit of board state: a cell is empty or holds a block, and a
//! block is either a colored normal block or a garbage block.

use vstd::prelude::*;

verus! {

/// Color of a normal block. Only equality matters; colors are not ordered.
#[derive(Clone, Copy, Debug, PartialEq, Eq, Structural)]
pub enum BlockColor {
    Red,
    Green,
    Blue,
    Yellow,
    Purple,
}

/// A block on the board: a colored normal block, which can take part in
/// matches, or a garbage block, which never has a color and never matches.
/// Garbage is `cracked` once a clear has happened next to its component.
#[derive(Clone, Copy, Debug, PartialEq, Eq, Structural)]
pub enum Block {
    Normal { color: BlockColor },
    Garbage { cracked: bool },
}

impl Block {
    /// The color of a normal block; garbage has none.
    pub fn color(self) -> (c: Option<BlockColor>)
        ensures
            c == (match self {
                Block::Normal { color } => Some(color),
                Block::Garbage { .. } => None::<BlockColor>,
            }),
    {
        match self {
            Block::Normal { color } => Some(color),
            Block::Garbage { .. } => None,
        }
    }

    /// True exactly on garbage blocks.
    pub fn is_garbage(self) -> (r: bool)
        ensures
            r == (self is Garbage),
    {
        match self {
            Block::Garbage { .. } => true,
            Block::Normal { .. } => false,
        }
    }
}

} // verus!

//! The board: a dense, row-major array of `width * height` optional blocks,
//! with `y == 0` as the bottom row. All access is by coordinate.

use vstd::prelude::*;
use vstd::arithmetic::div_mod::lemma_fundamental_div_mod_converse_div;
use vstd::arithmetic::div_mod::lemma_fundamental_div_mod_converse_mod;
use crate::block::Block;
use crate::block::BlockColor;
use crate::cursor::SwapCmd;

verus! {

/// True when the cell holds a garbage block.
pub open spec fn is_garbage_cell(c: Option<Block>) -> bool {
    match c {
        Some(b) => b is Garbage,
        None => false,
    }
}

/// True when the cell holds a colored normal block.
pub open spec fn is_normal_cell(c: Option<Block>) -> bool {
    match c {
        Some(b) => b is Normal,
        None => false,
    }
}

/// The color of the cell's block, if it is a normal block.
pub open spec fn cell_color(c: Option<Block>) -> Option<BlockColor> {
    match c {
        Some(Block::Normal { color }) => Some(color),
        _ => None,
    }
}

/// True when both cells hold normal blocks of the same color.
pub open spec fn same_normal_color(a: Option<Block>, b: Option<Block>) -> bool {
    match (cell_color(a), cell_color(b)) {
        (Some(x), Some(y)) => x == y,
        _ => false,
    }
}

/// True when the cell holds a normal block of color `col`.
pub open spec fn cell_has_color(c: Option<Block>, col: BlockColor) -> bool {
    cell_color(c) == Some(col)
}

/// Relates a coordinate pair to its row-major position: for in-range
/// coordinates the flat index is in range and determines the pair uniquely.
pub proof fn lemma_flat(w: int, h: int, x: int, y: int)
    requires
        0 <= x < w,
        0 <= y < h,
    ensures
        0 <= y * w + x < w * h,
        (y * w + x) % w == x,
        (y * w + x) / w == y,
{
    assert(0 <= y * w + x < w * h) by (nonlinear_arith)
        requires
            0 <= x < w,
            0 <= y < h,
    ;
    lemma_fundamental_div_mod_converse_mod(y * w + x, w, y, x);
    lemma_fundamental_div_mod_converse_div(y * w + x, w, y, x);
}

/// A fixed-size 2-D board of cells. The cell array always has exactly
/// `width * height` entries, in row-major order with `y == 0` at the bottom.
pub struct Grid {
    pub width: usize,
    pub height: usize,
    pub cells: Vec<Option<Block>>,
}

impl Grid {
    /// Structural invariant: the dense array matches the declared size.
    pub open spec fn wf(&self) -> bool {
        self.cells@.len() == self.width * self.height
    }

    /// True when `(x, y)` is a coordinate of this board.
    pub open spec fn in_bounds(&self, x: int, y: int) -> bool {
        0 <= x < self.width && 0 <= y < self.height
    }

    /// The cell at `(x, y)`.
    pub open spec fn at(&self, x: int, y: int) -> Option<Block> {
        self.cells@[y * self.width + x]
    }

    /// True when `other` has the same dimensions as this board.
    pub open spec fn same_dims(&self, other: &Grid) -> bool {
        self.width == other.width && self.height == other.height
    }

    /// An empty board of the given size.
    pub fn new(width: usize, height: usize) -> (g: Grid)
        requires
            width * height <= usize::MAX,
        ensures
            g.wf(),
            g.width == width,
            g.height == height,
            forall|x: int, y: int| g.in_bounds(x, y) ==> g.at(x, y) is None,
    {
        let n = width * height;
        let mut cells: Vec<Option<Block>> = Vec::new();
        let mut i: usize = 0;
        while i < n
            invariant
                cells@.len() == i,
                i <= n,
                forall|j: int| 0 <= j < i ==> cells@[j] is None,
            decreases n - i,
        {
            cells.push(None);
            i = i + 1;
        }
        let g = Grid { width, height, cells };
        proof {
            assert forall|x: int, y: int| g.in_bounds(x, y) implies g.at(x, y) is None by {
                lemma_flat(width as int, height as int, x, y);
            }
        }
        g
    }

    /// The row-major position of `(x, y)`.
    fn idx_of(&self, x: usize, y: usize) -> (i: usize)
        requires
            self.wf(),
            self.in_bounds(x as int, y as int),
        ensures
            i == y * self.width + x,
            i < self.cells@.len(),
    {
        proof {
            lemma_flat(self.width as int, self.height as int, x as int, y as int);
        }
        let n = self.cells.len();
        y * self.width + x
    }

    /// Read the cell at `(x, y)`. Callers must pre-validate the coordinates.
    pub fn get(&self, x: usize, y: usize) -> (c: Option<Block>)
        requires
            self.wf(),
            self.in_bounds(x as int, y as int),
        ensures
            c == self.at(x as int, y as int),
    {
        let i = self.idx_of(x, y);
        self.cells[i]
    }

    /// Write the cell at `(x, y)`. Callers must pre-validate the coordinates.
    pub fn set(&mut self, x: usize, y: usize, block: Option<Block>)
        requires
            old(self).wf(),
            old(self).in_bounds(x as int, y as int),
        ensures
            final(self).wf(),
            final(self).same_dims(old(self)),
            final(self).at(x as int, y as int) == block,
            forall|i: int, j: int|
                old(self).in_bounds(i, j) && !(i == x && j == y)
                    ==> final(self).at(i, j) == old(self).at(i, j),
    {
        let idx = self.idx_of(x, y);
        self.cells.set(idx, block);
        proof {
            let w = self.width as int;
            let h = self.height as int;
            assert forall|i: int, j: int|
                old(self).in_bounds(i, j) && !(i == x && j == y)
                implies final(self).at(i, j) == old(self).at(i, j) by {
                lemma_flat(w, h, i, j);
                lemma_flat(w, h, x as int, y as int);
            }
        }
    }

    /// Exchange the contents of two cells. Callers must pre-validate both
    /// coordinates.
    pub fn swap(&mut self, ax: usize, ay: usize, bx: usize, by: usize)
        requires
            old(self).wf(),
            old(self).in_bounds(ax as int, ay as int),
            old(self).in_bounds(bx as int, by as int),
        ensures
            final(self).wf(),
            final(self).same_dims(old(self)),
            final(self).at(ax as int, ay as int) == old(self).at(bx as int, by as int),
            final(self).at(bx as int, by as int) == old(self).at(ax as int, ay as int),
            forall|i: int, j: int|
                old(self).in_bounds(i, j) && !(i == ax && j == ay) && !(i == bx && j == by)
                    ==> final(self).at(i, j) == old(self).at(i, j),
    {
        let a = self.get(ax, ay);
        let b = self.get(bx, by);
        self.set(ax, ay, b);
        self.set(bx, by, a);
    }

    /// Empty every cell.
    pub fn clear(&mut self)
        requires
            old(self).wf(),
        ensures
            final(self).wf(),
            final(self).same_dims(old(self)),
            forall|x: int, y: int| final(self).in_bounds(x, y) ==> final(self).at(x, y) is None,
    {
        let n = self.cells.len();
        let w = self.width;
        let h = self.height;
        let fresh = Grid::new(w, h);
        self.cells = fresh.cells;
    }

    /// Swap the two cells named by `cmd`, refusing (with no mutation) any
    /// out-of-range coordinate and any swap that touches a garbage block.
    pub fn swap_in_bounds(&mut self, cmd: SwapCmd) -> (ok: bool)
        requires
            old(self).wf(),
        ensures
            final(self).wf(),
            final(self).same_dims(old(self)),
            ok == {
                &&& old(self).in_bounds(cmd.ax as int, cmd.ay as int)
                &&& old(self).in_bounds(cmd.bx as int, cmd.by as int)
                &&& !is_garbage_cell(old(self).at(cmd.ax as int, cmd.ay as int))
                &&& !is_garbage_cell(old(self).at(cmd.bx as int, cmd.by as int))
            },
            !ok ==> *final(self) == *old(self),
            ok ==> {
                &&& final(self).at(cmd.ax as int, cmd.ay as int)
                    == old(self).at(cmd.bx as int, cmd.by as int)
                &&& final(self).at(cmd.bx as int, cmd.by as int)
                    == old(self).at(cmd.ax as int, cmd.ay as int)
                &&& forall|i: int, j: int|
                    old(self).in_bounds(i, j) && !(i == cmd.ax && j == cmd.ay)
                        && !(i == cmd.bx && j == cmd.by)
                        ==> final(self).at(i, j) == old(self).at(i, j)
            },
    {
        if cmd.ax >= self.width || cmd.bx >= self.width || cmd.ay >= self.height
            || cmd.by >= self.height {
            return false;
        }
        let a = self.get(cmd.ax, cmd.ay);
        let b = self.get(cmd.bx, cmd.by);
        let a_garbage = match a {
            Some(blk) => blk.is_garbage(),
            None => false,
        };
        let b_garbage = match b {
            Some(blk) => blk.is_garbage(),
            None => false,
        };
        if a_garbage || b_garbage {
            return false;
        }
        self.swap(cmd.ax, cmd.ay, cmd.bx, cmd.by);
        true
    }

    /// True when some cell of the topmost row is occupied: the overflow /
    /// loss condition.
    pub open spec fn spec_top_row_occupied(&self) -> bool {
        self.height > 0 && exists|x: int|
            0 <= x < self.width && (#[trigger] self.at(x, self.height - 1)) is Some
    }

    /// Decide `spec_top_row_occupied`.
    pub fn top_row_occupied(&self) -> (r: bool)
        requires
            self.wf(),
        ensures
            r == self.spec_top_row_occupied(),
    {
        if self.height == 0 {
            return false;
        }
        let y = self.height - 1;
        let mut x: usize = 0;
        while x < self.width
            invariant
                self.wf(),
                y == self.height - 1,
                x <= self.width,
                forall|i: int| 0 <= i < x ==> self.at(i, y as int) is None,
            decreases self.width - x,
        {
            if self.get(x, y).is_some() {
                return true;
            }
            x = x + 1;
        }
        false
    }

    /// True when placing a normal block of color `col` at `(x, y)` would
    /// complete a horizontal run of three through that cell, or a vertical
    /// run of three with the two cells above it. Used by the fresh-block
    /// placers to avoid creating a match at placement time; falling blocks
    /// fill from below, so only the upward vertical window is consulted.
    pub open spec fn spec_would_create_match(&self, x: int, y: int, col: BlockColor) -> bool {
        let left1 = if x >= 1 { self.at(x - 1, y) } else { None };
        let left2 = if x >= 2 { self.at(x - 2, y) } else { None };
        let right1 = if x + 1 < self.width { self.at(x + 1, y) } else { None };
        let right2 = if x + 2 < self.width { self.at(x + 2, y) } else { None };
        let up1 = if y + 1 < self.height { self.at(x, y + 1) } else { None };
        let up2 = if y + 2 < self.height { self.at(x, y + 2) } else { None };
        ||| (cell_has_color(left1, col) && cell_has_color(left2, col))
        ||| (cell_has_color(right1, col) && cell_has_color(right2, col))
        ||| (cell_has_color(left1, col) && cell_has_color(right1, col))
        ||| (y + 2 < self.height && cell_has_color(up1, col) && cell_has_color(up2, col))
    }

    /// Decide `spec_would_create_match` for a candidate placement.
    pub fn would_create_match(&self, x: usize, y: usize, col: BlockColor) -> (r: bool)
        requires
            self.wf(),
            self.in_bounds(x as int, y as int),
        ensures
            r == self.spec_would_create_match(x as int, y as int, col),
    {
        let left1 = if x >= 1 { self.get(x - 1, y) } else { None };
        let left2 = if x >= 2 { self.get(x - 2, y) } else { None };
        let right1 = if x < self.width - 1 { self.get(x + 1, y) } else { None };
        let right2 = if self.width >= 2 && x < self.width - 2 { self.get(x + 2, y) } else { None };
        let l1 = cell_matches_color(left1, col);
        let l2 = cell_matches_color(left2, col);
        let r1 = cell_matches_color(right1, col);
        let r2 = cell_matches_color(right2, col);
        if (l1 && l2) || (r1 && r2) || (l1 && r1) {
            return true;
        }
        if self.height >= 2 && y < self.height - 2 {
            let u1 = cell_matches_color(self.get(x, y + 1), col);
            let u2 = cell_matches_color(self.get(x, y + 2), col);
            if u1 && u2 {
                return true;
            }
        }
        false
    }
}

/// Decide `cell_has_color`.
fn cell_matches_color(c: Option<Block>, col: BlockColor) -> (r: bool)
    ensures
        r == cell_has_color(c, col),
{
    match c {
        Some(Block::Normal { color }) => color == col,
        _ => false,
    }
}

} // verus!

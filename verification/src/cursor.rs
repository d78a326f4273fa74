//! The player's 2-wide, 1-tall selector and the swap command it produces.

use vstd::prelude::*;

verus! {

/// Clamp `v` into the closed range `[0, hi]`.
pub open spec fn clamp_to(v: int, hi: int) -> int {
    if v < 0 {
        0
    } else if v > hi {
        hi
    } else {
        v
    }
}

/// Position of the left cell of a horizontal 2-cell selector.
/// Valid positions satisfy `0 <= x <= width - 2` and `0 <= y <= height - 1`;
/// movement clamps into that range rather than wrapping or failing.
#[derive(Clone, Copy, Debug, PartialEq, Eq, Structural)]
pub struct Cursor {
    pub x: usize,
    pub y: usize,
}

/// The pair of adjacent cells a swap acts on, always the cursor's horizontal
/// footprint: `(ax, ay)` and the cell directly to its right.
#[derive(Clone, Copy, Debug, PartialEq, Eq, Structural)]
pub struct SwapCmd {
    pub ax: usize,
    pub ay: usize,
    pub bx: usize,
    pub by: usize,
}

impl SwapCmd {
    /// The swap footprint whose left cell is `(x, y)`.
    pub fn right_of(x: usize, y: usize) -> (cmd: SwapCmd)
        requires
            x < usize::MAX,
        ensures
            cmd.ax == x,
            cmd.ay == y,
            cmd.bx == x + 1,
            cmd.by == y,
    {
        SwapCmd { ax: x, ay: y, bx: x + 1, by: y }
    }
}

/// Move `cur` by `d` and clamp the result into `[0, hi]`, without overflow.
fn step_clamped(cur: usize, d: isize, hi: usize) -> (r: usize)
    ensures
        r == clamp_to(cur + d, hi as int),
{
    if d >= 0 {
        let du = d as usize;
        if cur >= hi {
            hi
        } else if du > hi - cur {
            hi
        } else {
            cur + du
        }
    } else {
        // `-(d + 1)` is safe even for the smallest `isize` value.
        let du = (-(d + 1)) as usize + 1;
        let lowered = if du > cur {
            0
        } else {
            cur - du
        };
        if lowered > hi {
            hi
        } else {
            lowered
        }
    }
}

impl Cursor {
    /// A cursor at the given position.
    pub fn new(x: usize, y: usize) -> (c: Cursor)
        ensures
            c.x == x,
            c.y == y,
    {
        Cursor { x, y }
    }

    /// Move the cursor by the given deltas, clamped to the valid selector
    /// range of a `width` x `height` board. Returns whether the position
    /// actually changed. Boards too narrow or too short to hold the selector
    /// leave the cursor untouched.
    pub fn move_by(&mut self, dx: isize, dy: isize, width: usize, height: usize) -> (changed: bool)
        ensures
            width < 2 || height == 0 ==> *final(self) == *old(self) && !changed,
            width >= 2 && height > 0 ==> {
                &&& final(self).x == clamp_to(old(self).x + dx, width - 2)
                &&& final(self).y == clamp_to(old(self).y + dy, height - 1)
                &&& changed == (final(self).x != old(self).x || final(self).y != old(self).y)
            },
    {
        if width < 2 || height == 0 {
            return false;
        }
        let max_x = width - 2;
        let max_y = height - 1;
        let nx = step_clamped(self.x, dx, max_x);
        let ny = step_clamped(self.y, dy, max_y);
        let changed = nx != self.x || ny != self.y;
        self.x = nx;
        self.y = ny;
        changed
    }
}

} // verus!

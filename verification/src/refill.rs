//! Placing fresh colored blocks: the starting test pattern and the rising
//! bottom row. Colors are drawn at random and re-drawn a bounded number of
//! times when the draw would complete a match at the placement cell; if
//! every retry collides the last draw is accepted, so an accidental match
//! stays possible but rare.

use vstd::prelude::*;
use crate::block::Block;
use crate::block::BlockColor;
use crate::grid::Grid;
use crate::grid::is_normal_cell;
use crate::rng::random_color;

verus! {

/// Number of re-draws allowed before a colliding color is accepted anyway.
pub const COLOR_RETRIES: u32 = 10;

impl Grid {
    /// A color for `(x, y)`, re-drawn while it would complete a match there,
    /// up to the retry bound. Any color may come back.
    pub(crate) fn pick_color_avoiding_match(&self, x: usize, y: usize) -> (c: BlockColor)
        requires
            self.wf(),
            self.in_bounds(x as int, y as int),
    {
        let mut color = random_color();
        let mut t: u32 = 0;
        while t < COLOR_RETRIES
            invariant
                self.wf(),
                self.in_bounds(x as int, y as int),
            decreases COLOR_RETRIES - t,
        {
            if !self.would_create_match(x, y, color) {
                return color;
            }
            color = random_color();
            t = t + 1;
        }
        color
    }

    /// Fill the bottom half of the board with colored blocks, avoiding
    /// placement-time matches where the bounded retry allows; the upper half
    /// is left untouched.
    pub fn fill_test_pattern(&mut self)
        requires
            old(self).wf(),
        ensures
            final(self).wf(),
            final(self).same_dims(old(self)),
            forall|x: int, y: int|
                old(self).in_bounds(x, y) && y < old(self).height / 2 ==> is_normal_cell(
                    #[trigger] final(self).at(x, y),
                ),
            forall|x: int, y: int|
                old(self).in_bounds(x, y) && y >= old(self).height / 2
                    ==> #[trigger] final(self).at(x, y) == old(self).at(x, y),
    {
        let filled_rows = self.height / 2;
        let w = self.width;
        let mut y: usize = 0;
        while y < filled_rows
            invariant
                self.wf(),
                self.same_dims(old(self)),
                w == self.width,
                filled_rows == old(self).height / 2,
                filled_rows <= self.height,
                y <= filled_rows,
                forall|a: int, b: int|
                    old(self).in_bounds(a, b) && b < y ==> is_normal_cell(
                        #[trigger] self.at(a, b),
                    ),
                forall|a: int, b: int|
                    old(self).in_bounds(a, b) && b >= y ==> #[trigger] self.at(a, b) == old(
                        self,
                    ).at(a, b),
            decreases filled_rows - y,
        {
            let mut x: usize = 0;
            while x < w
                invariant
                    self.wf(),
                    self.same_dims(old(self)),
                    w == self.width,
                    filled_rows == old(self).height / 2,
                    filled_rows <= self.height,
                    y < filled_rows,
                    x <= w,
                    forall|a: int, b: int|
                        old(self).in_bounds(a, b) && (b < y || (b == y && a < x))
                            ==> is_normal_cell(#[trigger] self.at(a, b)),
                    forall|a: int, b: int|
                        old(self).in_bounds(a, b) && (b > y || (b == y && a >= x))
                            ==> #[trigger] self.at(a, b) == old(self).at(a, b),
                decreases w - x,
            {
                let color = self.pick_color_avoiding_match(x, y);
                self.set(x, y, Some(Block::Normal { color }));
                x = x + 1;
            }
            y = y + 1;
        }
    }

    /// Shift the whole stack up one row and fill the bottom row with fresh
    /// colored blocks. When the board is degenerate or the top row is
    /// occupied, nothing changes: rising into an occupied top row is the
    /// caller's loss condition, detected through `top_row_occupied`.
    pub fn push_bottom_row(&mut self)
        requires
            old(self).wf(),
        ensures
            final(self).wf(),
            final(self).same_dims(old(self)),
            old(self).width == 0 || old(self).height == 0 || old(self).spec_top_row_occupied()
                ==> *final(self) == *old(self),
            !(old(self).width == 0 || old(self).height == 0 || old(self).spec_top_row_occupied())
                ==> {
                &&& forall|x: int, y: int|
                    old(self).in_bounds(x, y) && y >= 1 ==> #[trigger] final(self).at(x, y) == old(
                        self,
                    ).at(x, y - 1)
                &&& forall|x: int|
                    0 <= x < old(self).width ==> is_normal_cell(#[trigger] final(self).at(x, 0))
            },
    {
        if self.height == 0 || self.width == 0 {
            return;
        }
        if self.top_row_occupied() {
            return;
        }
        let w = self.width;
        let h = self.height;
        let mut yy: usize = h;
        while yy > 1
            invariant
                self.wf(),
                self.same_dims(old(self)),
                w == self.width,
                h == self.height,
                h > 0,
                w > 0,
                1 <= yy <= h,
                forall|a: int, b: int|
                    old(self).in_bounds(a, b) && b >= yy ==> #[trigger] self.at(a, b) == old(
                        self,
                    ).at(a, b - 1),
                forall|a: int, b: int|
                    old(self).in_bounds(a, b) && b < yy ==> #[trigger] self.at(a, b) == old(
                        self,
                    ).at(a, b),
            decreases yy,
        {
            let y = yy - 1;
            let mut x: usize = 0;
            while x < w
                invariant
                    self.wf(),
                    self.same_dims(old(self)),
                    w == self.width,
                    h == self.height,
                    1 <= y < h,
                    yy == y + 1,
                    x <= w,
                    forall|a: int, b: int|
                        old(self).in_bounds(a, b) && (b > y || (b == y && a < x))
                            ==> #[trigger] self.at(a, b) == old(self).at(a, b - 1),
                    forall|a: int, b: int|
                        old(self).in_bounds(a, b) && (b < y || (b == y && a >= x))
                            ==> #[trigger] self.at(a, b) == old(self).at(a, b),
                decreases w - x,
            {
                let below = self.get(x, y - 1);
                self.set(x, y, below);
                x = x + 1;
            }
            yy = yy - 1;
        }
        let mut x: usize = 0;
        while x < w
            invariant
                self.wf(),
                self.same_dims(old(self)),
                w == self.width,
                h == self.height,
                h > 0,
                x <= w,
                forall|a: int, b: int|
                    old(self).in_bounds(a, b) && b >= 1 ==> #[trigger] self.at(a, b) == old(
                        self,
                    ).at(a, b - 1),
                forall|a: int| 0 <= a < x ==> is_normal_cell(#[trigger] self.at(a, 0)),
            decreases w - x,
        {
            let color = self.pick_color_avoiding_match(x, 0);
            self.set(x, 0, Some(Block::Normal { color }));
            x = x + 1;
        }
    }
}

} // verus!

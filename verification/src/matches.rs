//! Match detection and clearing: a cell is part of a match when it lies in a
//! horizontal or vertical run of at least three same-colored normal blocks.
//! A clear pass empties every matched cell and reports how many cells were
//! cleared and how many 4-connected groups the matched cells formed.

use vstd::prelude::*;
use crate::block::Block;
use crate::connect::connected;
use crate::connect::component_of;
use crate::connect::in_grid;
use crate::connect::lemma_conn_nodes;
use crate::connect::mask_get;
use crate::connect::mask_read;
use crate::connect::mask_set_true;
use crate::connect::node_at;
use crate::grid::Grid;
use crate::grid::lemma_flat;
use crate::grid::same_normal_color;
use crate::util::count_true;
use crate::util::lemma_count_true_take_step;
use crate::util::lemma_count_true_take_all;

verus! {

/// Result of one clear pass: the number of cells cleared, the number of
/// disjoint matched groups (4-connected components of the mark mask), and
/// the mark mask itself, consumed by garbage cracking.
pub struct ClearStats {
    pub cleared: u32,
    pub groups: u32,
    pub marks: Vec<bool>,
}

/// A horizontal window of three same-colored normal blocks starting at
/// `(s, y)`.
pub open spec fn horiz_window3(g: &Grid, s: int, y: int) -> bool {
    &&& 0 <= s
    &&& s + 2 < g.width
    &&& 0 <= y < g.height
    &&& same_normal_color(g.at(s, y), g.at(s + 1, y))
    &&& same_normal_color(g.at(s + 1, y), g.at(s + 2, y))
}

/// A vertical window of three same-colored normal blocks starting at
/// `(x, s)`.
pub open spec fn vert_window3(g: &Grid, x: int, s: int) -> bool {
    &&& 0 <= x < g.width
    &&& 0 <= s
    &&& s + 2 < g.height
    &&& same_normal_color(g.at(x, s), g.at(x, s + 1))
    &&& same_normal_color(g.at(x, s + 1), g.at(x, s + 2))
}

/// The cell lies in some maximal horizontal run of three or more
/// same-colored normal blocks; equivalently, some window of three
/// same-colored cells contains it.
pub open spec fn in_horiz_match(g: &Grid, x: int, y: int) -> bool {
    exists|s: int| #![auto] s <= x < s + 3 && horiz_window3(g, s, y)
}

/// The vertical counterpart of `in_horiz_match`.
pub open spec fn in_vert_match(g: &Grid, x: int, y: int) -> bool {
    exists|s: int| #![auto] s <= y < s + 3 && vert_window3(g, x, s)
}

/// The cell takes part in a match, horizontally or vertically.
pub open spec fn marked(g: &Grid, x: int, y: int) -> bool {
    in_horiz_match(g, x, y) || in_vert_match(g, x, y)
}

/// The mark mask of the whole board, row-major.
pub open spec fn mark_seq(g: &Grid) -> Seq<bool> {
    Seq::new((g.width * g.height) as nat, |i: int| marked(g, i % g.width as int, i / g.width as int))
}

/// Number of matched cells on the board.
pub open spec fn match_count(g: &Grid) -> int {
    count_true(mark_seq(g))
}

/// True when any cell of the board takes part in a match.
pub open spec fn spec_has_matches(g: &Grid) -> bool {
    exists|x: int, y: int| g.in_bounds(x, y) && #[trigger] marked(g, x, y)
}

/// The mark mask reads back the `marked` predicate at in-bounds cells.
pub proof fn lemma_mark_seq_get(g: &Grid, x: int, y: int)
    requires
        g.wf(),
        g.in_bounds(x, y),
    ensures
        mask_get(mark_seq(g), g.width as int, x, y) == marked(g, x, y),
{
    lemma_flat(g.width as int, g.height as int, x, y);
}

/// A cell `(x, y)` of the mark mask is the representative of its matched
/// group: a marked cell no other cell of its 4-connected group precedes in
/// row-major scan order. Each group has exactly one representative, so
/// counting representatives counts groups.
pub open spec fn group_rep(marks: Seq<bool>, w: int, h: int, x: int, y: int) -> bool {
    node_at(marks, w, h, x, y) && forall|a: int, b: int|
        #[trigger] connected(marks, w, h, x, y, a, b) ==> y * w + x <= b * w + a
}

/// The group-representative mask, row-major.
pub open spec fn rep_seq(marks: Seq<bool>, w: int, h: int) -> Seq<bool> {
    Seq::new((w * h) as nat, |i: int| group_rep(marks, w, h, i % w, i / w))
}

/// Number of 4-connected groups of the mark mask.
pub open spec fn group_count(marks: Seq<bool>, w: int, h: int) -> int {
    count_true(rep_seq(marks, w, h))
}

/// Decide `same_normal_color`.
fn cells_same_normal(a: Option<Block>, b: Option<Block>) -> (r: bool)
    ensures
        r == same_normal_color(a, b),
{
    match (a, b) {
        (Some(Block::Normal { color: c1 }), Some(Block::Normal { color: c2 })) => c1 == c2,
        _ => false,
    }
}

/// Cells marked by horizontal windows that precede `(s0, y0)` in scan order.
pub open spec fn hmark_upto(g: &Grid, x: int, y: int, y0: int, s0: int) -> bool {
    exists|s: int| #![auto]
        s <= x < s + 3 && horiz_window3(g, s, y) && (y < y0 || (y == y0 && s < s0))
}

/// Cells marked by vertical windows that precede `(x0, s0)` in column scan
/// order.
pub open spec fn vmark_upto(g: &Grid, x: int, y: int, x0: int, s0: int) -> bool {
    exists|s: int| #![auto]
        s <= y < s + 3 && vert_window3(g, x, s) && (x < x0 || (x == x0 && s < s0))
}

impl Grid {
    /// The mark mask of the board: one boolean per cell, true exactly on the
    /// cells that take part in a match.
    pub fn find_matches(&self) -> (marks: Vec<bool>)
        requires
            self.wf(),
        ensures
            marks@ == mark_seq(self),
            forall|x: int, y: int|
                self.in_bounds(x, y) ==> #[trigger] mask_get(marks@, self.width as int, x, y)
                    == marked(self, x, y),
    {
        let w = self.width;
        let h = self.height;
        let ghost wi = w as int;
        let ghost hi = h as int;
        let n = self.cells.len();
        let mut marks: Vec<bool> = Vec::new();
        let mut i: usize = 0;
        while i < n
            invariant
                marks@.len() == i,
                i <= n,
                forall|j: int| 0 <= j < i ==> !marks@[j],
            decreases n - i,
        {
            marks.push(false);
            i = i + 1;
        }
        proof {
            assert forall|x: int, y: int|
                self.in_bounds(x, y) implies #[trigger] mask_get(marks@, wi, x, y) == hmark_upto(
                self,
                x,
                y,
                0,
                0,
            ) by {
                lemma_flat(wi, hi, x, y);
            }
        }
        let smax = if w >= 3 {
            w - 2
        } else {
            0
        };
        let mut y0: usize = 0;
        while y0 < h
            invariant
                self.wf(),
                wi == self.width,
                hi == self.height,
                w == self.width,
                h == self.height,
                smax == if w >= 3 { (w - 2) as int } else { 0int },
                y0 <= h,
                marks@.len() == w * h,
                forall|x: int, y: int|
                    self.in_bounds(x, y) ==> #[trigger] mask_get(marks@, wi, x, y) == hmark_upto(
                        self,
                        x,
                        y,
                        y0 as int,
                        0,
                    ),
            decreases h - y0,
        {
            let mut s0: usize = 0;
            while s0 < smax
                invariant
                    self.wf(),
                    wi == self.width,
                    hi == self.height,
                    w == self.width,
                    h == self.height,
                    smax == if w >= 3 { (w - 2) as int } else { 0int },
                    w >= 3 || smax == 0,
                    s0 <= smax,
                    y0 < h,
                    marks@.len() == w * h,
                    forall|x: int, y: int|
                        self.in_bounds(x, y) ==> #[trigger] mask_get(marks@, wi, x, y)
                            == hmark_upto(self, x, y, y0 as int, s0 as int),
                decreases smax - s0,
            {
                let c0 = self.get(s0, y0);
                let c1 = self.get(s0 + 1, y0);
                let c2 = self.get(s0 + 2, y0);
                let is_window = cells_same_normal(c0, c1) && cells_same_normal(c1, c2);
                let ghost pre = marks@;
                if is_window {
                    mask_set_true(&mut marks, w, h, s0, y0);
                    mask_set_true(&mut marks, w, h, s0 + 1, y0);
                    mask_set_true(&mut marks, w, h, s0 + 2, y0);
                }
                proof {
                    assert(is_window == horiz_window3(self, s0 as int, y0 as int));
                    assert forall|x: int, y: int|
                        self.in_bounds(x, y) implies #[trigger] mask_get(marks@, wi, x, y)
                        == hmark_upto(self, x, y, y0 as int, s0 + 1) by {
                        let newly = y == y0 as int && s0 <= x < s0 + 3 && horiz_window3(
                            self,
                            s0 as int,
                            y0 as int,
                        );
                        assert(mask_get(marks@, wi, x, y) == (mask_get(pre, wi, x, y) || newly));
                        if mask_get(pre, wi, x, y) {
                            assert(hmark_upto(self, x, y, y0 as int, s0 as int));
                            assert(hmark_upto(self, x, y, y0 as int, s0 + 1));
                        }
                        if newly {
                            assert(hmark_upto(self, x, y, y0 as int, s0 + 1));
                        }
                        if hmark_upto(self, x, y, y0 as int, s0 + 1) {
                            let s = choose|s: int| #![auto]
                                s <= x < s + 3 && horiz_window3(self, s, y) && (y < y0 as int || (y
                                    == y0 as int && s < s0 + 1));
                            if y < y0 as int || s < s0 as int {
                                assert(hmark_upto(self, x, y, y0 as int, s0 as int));
                            } else {
                                assert(s == s0 as int && y == y0 as int);
                                assert(newly);
                            }
                            assert(mask_get(marks@, wi, x, y));
                        }
                    }
                }
                s0 = s0 + 1;
            }
            proof {
                assert forall|x: int, y: int|
                    self.in_bounds(x, y) implies #[trigger] mask_get(marks@, wi, x, y)
                    == hmark_upto(self, x, y, y0 + 1, 0) by {
                    if hmark_upto(self, x, y, y0 + 1, 0) {
                        let s = choose|s: int| #![auto]
                            s <= x < s + 3 && horiz_window3(self, s, y) && (y < y0 + 1 || (y == y0
                                + 1 && s < 0));
                        assert(s <= x < s + 3 && horiz_window3(self, s, y) && y <= y0 as int);
                        assert(s + 2 < wi);
                        assert(hmark_upto(self, x, y, y0 as int, smax as int));
                    }
                    if hmark_upto(self, x, y, y0 as int, smax as int) {
                        assert(hmark_upto(self, x, y, y0 + 1, 0));
                    }
                }
            }
            y0 = y0 + 1;
        }
        proof {
            assert forall|x: int, y: int|
                self.in_bounds(x, y) implies #[trigger] mask_get(marks@, wi, x, y)
                == in_horiz_match(self, x, y) by {
                if mask_get(marks@, wi, x, y) {
                    assert(hmark_upto(self, x, y, hi, 0));
                }
                if in_horiz_match(self, x, y) {
                    let s = choose|s: int| #![auto] s <= x < s + 3 && horiz_window3(self, s, y);
                    assert(hmark_upto(self, x, y, hi, 0));
                }
            }
        }
        // Vertical pass: union in every vertical window of three.
        let smax_v = if h >= 3 {
            h - 2
        } else {
            0
        };
        let mut x0: usize = 0;
        while x0 < w
            invariant
                self.wf(),
                wi == self.width,
                hi == self.height,
                w == self.width,
                h == self.height,
                smax_v == if h >= 3 { (h - 2) as int } else { 0int },
                x0 <= w,
                marks@.len() == w * h,
                forall|x: int, y: int|
                    self.in_bounds(x, y) ==> #[trigger] mask_get(marks@, wi, x, y)
                        == (in_horiz_match(self, x, y) || vmark_upto(self, x, y, x0 as int, 0)),
            decreases w - x0,
        {
            let mut s0: usize = 0;
            while s0 < smax_v
                invariant
                    self.wf(),
                    wi == self.width,
                    hi == self.height,
                    w == self.width,
                    h == self.height,
                    smax_v == if h >= 3 { (h - 2) as int } else { 0int },
                    h >= 3 || smax_v == 0,
                    s0 <= smax_v,
                    x0 < w,
                    marks@.len() == w * h,
                    forall|x: int, y: int|
                        self.in_bounds(x, y) ==> #[trigger] mask_get(marks@, wi, x, y)
                            == (in_horiz_match(self, x, y) || vmark_upto(
                            self,
                            x,
                            y,
                            x0 as int,
                            s0 as int,
                        )),
                decreases smax_v - s0,
            {
                let c0 = self.get(x0, s0);
                let c1 = self.get(x0, s0 + 1);
                let c2 = self.get(x0, s0 + 2);
                let is_window = cells_same_normal(c0, c1) && cells_same_normal(c1, c2);
                let ghost pre = marks@;
                if is_window {
                    mask_set_true(&mut marks, w, h, x0, s0);
                    mask_set_true(&mut marks, w, h, x0, s0 + 1);
                    mask_set_true(&mut marks, w, h, x0, s0 + 2);
                }
                proof {
                    assert(is_window == vert_window3(self, x0 as int, s0 as int));
                    assert forall|x: int, y: int|
                        self.in_bounds(x, y) implies #[trigger] mask_get(marks@, wi, x, y)
                        == (in_horiz_match(self, x, y) || vmark_upto(self, x, y, x0 as int, s0 + 1))
                        by {
                        let newly = x == x0 as int && s0 <= y < s0 + 3 && vert_window3(
                            self,
                            x0 as int,
                            s0 as int,
                        );
                        assert(mask_get(marks@, wi, x, y) == (mask_get(pre, wi, x, y) || newly));
                        if newly {
                            assert(vmark_upto(self, x, y, x0 as int, s0 + 1));
                        }
                        if vmark_upto(self, x, y, x0 as int, s0 + 1) && !in_horiz_match(
                            self,
                            x,
                            y,
                        ) {
                            let s = choose|s: int| #![auto]
                                s <= y < s + 3 && vert_window3(self, x, s) && (x < x0 as int || (x
                                    == x0 as int && s < s0 + 1));
                            if x < x0 as int || s < s0 as int {
                                assert(vmark_upto(self, x, y, x0 as int, s0 as int));
                            } else {
                                assert(s == s0 as int && x == x0 as int);
                                assert(newly);
                            }
                            assert(mask_get(marks@, wi, x, y));
                        }
                    }
                }
                s0 = s0 + 1;
            }
            proof {
                assert forall|x: int, y: int|
                    self.in_bounds(x, y) implies #[trigger] mask_get(marks@, wi, x, y)
                    == (in_horiz_match(self, x, y) || vmark_upto(self, x, y, x0 + 1, 0)) by {
                    if vmark_upto(self, x, y, x0 + 1, 0) && !in_horiz_match(self, x, y) {
                        let s = choose|s: int| #![auto]
                            s <= y < s + 3 && vert_window3(self, x, s) && (x < x0 + 1 || (x == x0
                                + 1 && s < 0));
                        assert(s + 2 < hi);
                        assert(vmark_upto(self, x, y, x0 as int, smax_v as int));
                    }
                    if vmark_upto(self, x, y, x0 as int, smax_v as int) {
                        assert(vmark_upto(self, x, y, x0 + 1, 0));
                    }
                }
            }
            x0 = x0 + 1;
        }
        proof {
            assert forall|x: int, y: int|
                self.in_bounds(x, y) implies #[trigger] mask_get(marks@, wi, x, y) == marked(
                self,
                x,
                y,
            ) by {
                if mask_get(marks@, wi, x, y) && !in_horiz_match(self, x, y) {
                    assert(vmark_upto(self, x, y, wi, 0));
                }
                if in_vert_match(self, x, y) {
                    let s = choose|s: int| #![auto] s <= y < s + 3 && vert_window3(self, x, s);
                    assert(vmark_upto(self, x, y, wi, 0));
                }
            }
            assert(marks@ =~= mark_seq(self)) by {
                assert forall|i: int| 0 <= i < marks@.len() implies marks@[i] == mark_seq(self)[i]
                    by {
                    lemma_unflat(wi, hi, i);
                    let x = i % wi;
                    let y = i / wi;
                    assert(mask_get(marks@, wi, x, y) == marks@[y * wi + x]);
                    assert(mask_get(marks@, wi, x, y) == marked(self, x, y));
                }
            }
        }
        marks
    }

    /// True when any cell takes part in a match.
    pub fn has_matches(&self) -> (r: bool)
        requires
            self.wf(),
        ensures
            r == spec_has_matches(self),
    {
        let marks = self.find_matches();
        let w = self.width;
        let h = self.height;
        let mut y: usize = 0;
        while y < h
            invariant
                marks@.len() == w * h,
                w == self.width,
                h == self.height,
                self.wf(),
                y <= h,
                forall|a: int, b: int|
                    self.in_bounds(a, b) && b < y ==> !#[trigger] marked(self, a, b),
                forall|a: int, b: int|
                    self.in_bounds(a, b) ==> #[trigger] mask_get(marks@, w as int, a, b) == marked(
                        self,
                        a,
                        b,
                    ),
            decreases h - y,
        {
            let mut x: usize = 0;
            while x < w
                invariant
                    marks@.len() == w * h,
                    w == self.width,
                    h == self.height,
                    self.wf(),
                    y < h,
                    x <= w,
                    forall|a: int, b: int|
                        self.in_bounds(a, b) && b < y ==> !#[trigger] marked(self, a, b),
                    forall|a: int| 0 <= a < x ==> !#[trigger] marked(self, a, y as int),
                    forall|a: int, b: int|
                        self.in_bounds(a, b) ==> #[trigger] mask_get(marks@, w as int, a, b)
                            == marked(self, a, b),
                decreases w - x,
            {
                if mask_read(&marks, w, h, x, y) {
                    return true;
                }
                x = x + 1;
            }
            y = y + 1;
        }
        false
    }
}

impl Grid {
    /// Empty every cell that `marks` marks; the result counts the marked
    /// cells.
    fn clear_marked(&mut self, marks: &Vec<bool>) -> (cleared: u32)
        requires
            old(self).wf(),
            marks@.len() == old(self).width * old(self).height,
            old(self).width * old(self).height <= u32::MAX,
        ensures
            final(self).wf(),
            final(self).same_dims(old(self)),
            cleared == count_true(marks@),
            forall|x: int, y: int|
                old(self).in_bounds(x, y) ==> final(self).at(x, y) == (if mask_get(
                    marks@,
                    old(self).width as int,
                    x,
                    y,
                ) {
                    None
                } else {
                    old(self).at(x, y)
                }),
    {
        let n = self.cells.len();
        let mut i: usize = 0;
        let mut cleared: u32 = 0;
        while i < n
            invariant
                self.width == old(self).width,
                self.height == old(self).height,
                self.cells@.len() == n,
                n == old(self).cells@.len(),
                marks@.len() == n,
                n <= u32::MAX,
                i <= n,
                cleared == count_true(marks@.take(i as int)),
                forall|j: int|
                    0 <= j < i ==> self.cells@[j] == (if marks@[j] {
                        None
                    } else {
                        old(self).cells@[j]
                    }),
                forall|j: int| i <= j < n ==> self.cells@[j] == old(self).cells@[j],
            decreases n - i,
        {
            proof {
                lemma_count_true_take_step(marks@, i as int);
                crate::util::lemma_count_true_bounds(marks@.take(i as int));
            }
            if marks[i] {
                self.cells.set(i, None);
                cleared = cleared + 1;
            }
            i = i + 1;
        }
        proof {
            lemma_count_true_take_all(marks@);
            let w = old(self).width as int;
            let h = old(self).height as int;
            assert forall|x: int, y: int|
                old(self).in_bounds(x, y) implies final(self).at(x, y) == (if mask_get(
                marks@,
                w,
                x,
                y,
            ) {
                None
            } else {
                old(self).at(x, y)
            }) by {
                lemma_flat(w, h, x, y);
            }
        }
        cleared
    }
}

/// Count the 4-connected groups of a mark mask by counting, for each group,
/// the cell of it that comes first in row-major scan order.
fn count_groups(marks: &Vec<bool>, width: usize, height: usize) -> (groups: u32)
    requires
        marks@.len() == width * height,
        width * height <= u32::MAX,
    ensures
        groups == group_count(marks@, width as int, height as int),
{
    let ghost w = width as int;
    let ghost h = height as int;
    let ghost reps = rep_seq(marks@, w, h);
    let n_cells = marks.len();
    let mut groups: u32 = 0;
    let mut y: usize = 0;
    let mut idx: usize = 0;
    while y < height
        invariant
            marks@.len() == width * height,
            width * height <= u32::MAX,
            w == width as int,
            h == height as int,
            reps == rep_seq(marks@, w, h),
            y <= height,
            idx == y * w,
            groups == count_true(reps.take(idx as int)),
        decreases height - y,
    {
        let mut x: usize = 0;
        while x < width
            invariant
                marks@.len() == width * height,
                width * height <= u32::MAX,
                w == width as int,
                h == height as int,
                reps == rep_seq(marks@, w, h),
                y < height,
                x <= width,
                idx == y * w + x,
                groups == count_true(reps.take(idx as int)),
            decreases width - x,
        {
            proof {
                lemma_flat(w, h, x as int, y as int);
                lemma_count_true_take_step(reps, idx as int);
                crate::util::lemma_count_true_bounds(reps.take(idx as int));
            }
            let is_rep: bool;
            if mask_read(marks, width, height, x, y) {
                let comp = component_of(marks, width, height, x, y);
                let mut found = false;
                let mut b: usize = 0;
                while b < height
                    invariant
                        comp@.len() == width * height,
                        marks@.len() == width * height,
                        w == width as int,
                        h == height as int,
                        x < width,
                        y < height,
                        b <= height,
                        idx == y * w + x,
                        forall|a2: int, b2: int|
                            in_grid(w, h, a2, b2) ==> #[trigger] mask_get(comp@, w, a2, b2)
                                == connected(marks@, w, h, x as int, y as int, a2, b2),
                        found == exists|a2: int, b2: int|
                            in_grid(w, h, a2, b2) && b2 < b && #[trigger] mask_get(comp@, w, a2, b2)
                                && b2 * w + a2 < idx,
                    decreases height - b,
                {
                    let mut a: usize = 0;
                    while a < width
                        invariant
                            comp@.len() == width * height,
                            marks@.len() == width * height,
                            w == width as int,
                            h == height as int,
                            x < width,
                            y < height,
                            b < height,
                            a <= width,
                            idx == y * w + x,
                            forall|a2: int, b2: int|
                                in_grid(w, h, a2, b2) ==> #[trigger] mask_get(comp@, w, a2, b2)
                                    == connected(marks@, w, h, x as int, y as int, a2, b2),
                            found == exists|a2: int, b2: int|
                                in_grid(w, h, a2, b2) && (b2 < b || (b2 == b && a2 < a))
                                    && #[trigger] mask_get(comp@, w, a2, b2) && b2 * w + a2 < idx,
                        decreases width - a,
                    {
                        proof {
                            lemma_flat(w, h, a as int, b as int);
                        }
                        let nc = comp.len();
                        if mask_read(&comp, width, height, a, b) && b * width + a < idx {
                            found = true;
                        }
                        a = a + 1;
                    }
                    b = b + 1;
                }
                is_rep = !found;
                proof {
                    if is_rep {
                        assert forall|a2: int, b2: int|
                            #[trigger] connected(marks@, w, h, x as int, y as int, a2, b2) implies (
                        y as int) * w + x <= b2 * w + a2 by {
                            lemma_conn_nodes(marks@, w, h, x as int, y as int, a2, b2);
                            assert(in_grid(w, h, a2, b2));
                            assert(mask_get(comp@, w, a2, b2));
                        }
                        assert(group_rep(marks@, w, h, x as int, y as int));
                    } else {
                        let (a2, b2) = choose|a2: int, b2: int|
                            in_grid(w, h, a2, b2) && b2 < h && #[trigger] mask_get(comp@, w, a2, b2)
                                && b2 * w + a2 < idx;
                        assert(connected(marks@, w, h, x as int, y as int, a2, b2));
                        assert(!group_rep(marks@, w, h, x as int, y as int));
                    }
                }
            } else {
                is_rep = false;
                proof {
                    assert(!group_rep(marks@, w, h, x as int, y as int));
                }
            }
            proof {
                lemma_unflat(w, h, idx as int);
                assert(idx as int % w == x as int && idx as int / w == y as int);
                assert(reps[idx as int] == group_rep(marks@, w, h, x as int, y as int));
                assert(reps[idx as int] == is_rep);
            }
            if is_rep {
                groups = groups + 1;
            }
            idx = idx + 1;
            x = x + 1;
        }
        proof {
            assert(((y + 1) as int) * w == (y as int) * w + w) by (nonlinear_arith);
        }
        y = y + 1;
    }
    proof {
        assert(idx == h * w) by (nonlinear_arith)
            requires
                idx == h * w || idx == (h as int) * w,
        ;
        assert(reps.len() == w * h);
        assert(reps.take(idx as int) =~= reps);
    }
    groups
}

impl Grid {
    /// One clear pass: find every matched cell, empty it, and report the
    /// number of cells cleared, the number of matched groups, and the mark
    /// mask itself. A board without matches reports zeros and stays
    /// unchanged.
    pub fn clear_matches_once_with_stats(&mut self) -> (stats: ClearStats)
        requires
            old(self).wf(),
            old(self).width * old(self).height <= u32::MAX,
        ensures
            final(self).wf(),
            final(self).same_dims(old(self)),
            stats.marks@ == mark_seq(old(self)),
            stats.cleared == match_count(old(self)),
            stats.groups == group_count(
                mark_seq(old(self)),
                old(self).width as int,
                old(self).height as int,
            ),
            forall|x: int, y: int|
                old(self).in_bounds(x, y) ==> final(self).at(x, y) == (if marked(old(self), x, y) {
                    None
                } else {
                    old(self).at(x, y)
                }),
    {
        let marks = self.find_matches();
        let groups = count_groups(&marks, self.width, self.height);
        let cleared = self.clear_marked(&marks);
        proof {
            let w = old(self).width as int;
            let h = old(self).height as int;
            assert forall|x: int, y: int|
                old(self).in_bounds(x, y) implies final(self).at(x, y) == (if marked(
                old(self),
                x,
                y,
            ) {
                None
            } else {
                old(self).at(x, y)
            }) by {
                lemma_mark_seq_get(old(self), x, y);
            }
        }
        ClearStats { cleared, groups, marks }
    }

    /// One clear pass, reporting only the number of cells cleared.
    pub fn clear_matches_once(&mut self) -> (cleared: u32)
        requires
            old(self).wf(),
            old(self).width * old(self).height <= u32::MAX,
        ensures
            final(self).wf(),
            final(self).same_dims(old(self)),
            cleared == match_count(old(self)),
            forall|x: int, y: int|
                old(self).in_bounds(x, y) ==> final(self).at(x, y) == (if marked(old(self), x, y) {
                    None
                } else {
                    old(self).at(x, y)
                }),
    {
        let stats = self.clear_matches_once_with_stats();
        stats.cleared
    }
}

/// On a board without matches a clear pass owes nothing: it reports zero
/// cleared cells and zero groups, and the per-cell clause of its contract
/// leaves every cell as it was.
pub proof fn lemma_clear_on_stable_board(g: &Grid)
    requires
        g.wf(),
        !spec_has_matches(g),
    ensures
        match_count(g) == 0,
        group_count(mark_seq(g), g.width as int, g.height as int) == 0,
        forall|x: int, y: int| g.in_bounds(x, y) ==> !marked(g, x, y),
{
    let w = g.width as int;
    let h = g.height as int;
    assert forall|x: int, y: int| g.in_bounds(x, y) implies !marked(g, x, y) by {
        assert(!spec_has_matches(g));
    }
    assert forall|i: int| 0 <= i < mark_seq(g).len() implies !mark_seq(g)[i] by {
        lemma_unflat(w, h, i);
    }
    crate::util::lemma_count_true_zero(mark_seq(g));
    assert forall|i: int| 0 <= i < rep_seq(mark_seq(g), w, h).len() implies !rep_seq(
        mark_seq(g),
        w,
        h,
    )[i] by {
        lemma_unflat(w, h, i);
        let x = i % w;
        let y = i / w;
        assert(!mask_get(mark_seq(g), w, x, y) ==> !node_at(mark_seq(g), w, h, x, y));
        assert(mask_get(mark_seq(g), w, x, y) == mark_seq(g)[y * w + x]);
        assert(!group_rep(mark_seq(g), w, h, x, y));
    }
    crate::util::lemma_count_true_zero(rep_seq(mark_seq(g), w, h));
}

/// Matched cells hold normal blocks: garbage never takes part in a match.
pub proof fn lemma_marked_is_normal(g: &Grid, x: int, y: int)
    requires
        g.wf(),
        g.in_bounds(x, y),
        marked(g, x, y),
    ensures
        crate::grid::is_normal_cell(g.at(x, y)),
{
    if in_horiz_match(g, x, y) {
        let s = choose|s: int| #![auto] s <= x < s + 3 && horiz_window3(g, s, y);
        assert(same_normal_color(g.at(s, y), g.at(s + 1, y)));
        assert(same_normal_color(g.at(s + 1, y), g.at(s + 2, y)));
    } else {
        let s = choose|s: int| #![auto] s <= y < s + 3 && vert_window3(g, x, s);
        assert(same_normal_color(g.at(x, s), g.at(x, s + 1)));
        assert(same_normal_color(g.at(x, s + 1), g.at(x, s + 2)));
    }
}

/// Boards with the same dimensions and the same cells have the same matches.
pub proof fn lemma_matches_congruence(g1: &Grid, g2: &Grid)
    requires
        g1.wf(),
        g2.wf(),
        g1.same_dims(g2),
        forall|x: int, y: int| g1.in_bounds(x, y) ==> #[trigger] g1.at(x, y) == g2.at(x, y),
    ensures
        forall|x: int, y: int|
            g1.in_bounds(x, y) ==> #[trigger] marked(g1, x, y) == marked(g2, x, y),
        spec_has_matches(g1) == spec_has_matches(g2),
        mark_seq(g1) == mark_seq(g2),
        match_count(g1) == match_count(g2),
{
    let w = g1.width as int;
    let h = g1.height as int;
    assert forall|x: int, y: int|
        g1.in_bounds(x, y) implies #[trigger] marked(g1, x, y) == marked(g2, x, y) by {
        assert forall|s: int| #[trigger] horiz_window3(g1, s, y) == horiz_window3(g2, s, y) by {
            if 0 <= s && s + 2 < w && 0 <= y < h {
                assert(g1.at(s, y) == g2.at(s, y));
                assert(g1.at(s + 1, y) == g2.at(s + 1, y));
                assert(g1.at(s + 2, y) == g2.at(s + 2, y));
            }
        }
        assert forall|s: int| #[trigger] vert_window3(g1, x, s) == vert_window3(g2, x, s) by {
            if 0 <= x < w && 0 <= s && s + 2 < h {
                assert(g1.at(x, s) == g2.at(x, s));
                assert(g1.at(x, s + 1) == g2.at(x, s + 1));
                assert(g1.at(x, s + 2) == g2.at(x, s + 2));
            }
        }
        if in_horiz_match(g1, x, y) {
            let s = choose|s: int| #![auto] s <= x < s + 3 && horiz_window3(g1, s, y);
            assert(horiz_window3(g2, s, y));
        }
        if in_horiz_match(g2, x, y) {
            let s = choose|s: int| #![auto] s <= x < s + 3 && horiz_window3(g2, s, y);
            assert(horiz_window3(g1, s, y));
        }
        if in_vert_match(g1, x, y) {
            let s = choose|s: int| #![auto] s <= y < s + 3 && vert_window3(g1, x, s);
            assert(vert_window3(g2, x, s));
        }
        if in_vert_match(g2, x, y) {
            let s = choose|s: int| #![auto] s <= y < s + 3 && vert_window3(g2, x, s);
            assert(vert_window3(g1, x, s));
        }
    }
    if spec_has_matches(g1) {
        let (x, y) = choose|x: int, y: int| g1.in_bounds(x, y) && #[trigger] marked(g1, x, y);
        assert(marked(g2, x, y));
    }
    if spec_has_matches(g2) {
        let (x, y) = choose|x: int, y: int| g2.in_bounds(x, y) && #[trigger] marked(g2, x, y);
        assert(marked(g1, x, y));
    }
    assert(mark_seq(g1) =~= mark_seq(g2)) by {
        assert forall|i: int| 0 <= i < mark_seq(g1).len() implies mark_seq(g1)[i] == mark_seq(
            g2,
        )[i] by {
            lemma_unflat(w, h, i);
            assert(marked(g1, i % w, i / w) == marked(g2, i % w, i / w));
        }
    }
}

/// A flat index splits into valid coordinates.
pub proof fn lemma_unflat(w: int, h: int, i: int)
    requires
        w > 0,
        0 <= i < w * h,
    ensures
        0 <= i % w < w,
        0 <= i / w < h,
        (i / w) * w + (i % w) == i,
{
    vstd::arithmetic::div_mod::lemma_fundamental_div_mod(i, w);
    vstd::arithmetic::div_mod::lemma_mod_bound(i, w);
    assert((i / w) * w + (i % w) == i) by (nonlinear_arith)
        requires
            w > 0,
            i == w * (i / w) + i % w,
    ;
    assert(0 <= i / w < h) by (nonlinear_arith)
        requires
            w > 0,
            0 <= i < w * h,
            i == w * (i / w) + i % w,
            0 <= i % w < w,
    ;
}

} // verus!

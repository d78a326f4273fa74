//! Garbage mechanics: cracking whole components that sit next to a clear,
//! converting cracked garbage back into playable blocks, and inserting
//! attack rows of intact garbage below the board's top edge.

use vstd::prelude::*;
use crate::block::Block;
use crate::connect::adj4;
use crate::connect::component_of;
use crate::connect::in_grid;
use crate::connect::lemma_conn_nodes;
use crate::connect::mask_get;
use crate::connect::mask_read;
use crate::grid::Grid;
use crate::grid::lemma_flat;
use crate::gravity::garb_conn;
use crate::gravity::garb_nodes;
use crate::gravity::lemma_garb_nodes_get;
use crate::matches::lemma_unflat;
use crate::util::count_true;
use crate::util::lemma_count_true_take_step;
use crate::util::lemma_count_true_take_all;
use crate::util::lemma_count_true_bounds;

verus! {

/// Some 4-neighbor of `(x, y)` is marked.
pub open spec fn has_adjacent_mark(marks: Seq<bool>, w: int, h: int, x: int, y: int) -> bool {
    exists|a: int, b: int|
        adj4(x, y, a, b) && in_grid(w, h, a, b) && #[trigger] mask_get(marks, w, a, b)
}

/// Some cell of the garbage component of `(x, y)` is 4-adjacent to a marked
/// cell.
pub open spec fn component_touches_mark(g: &Grid, marks: Seq<bool>, x: int, y: int) -> bool {
    exists|a: int, b: int|
        #[trigger] garb_conn(g, x, y, a, b) && has_adjacent_mark(
            marks,
            g.width as int,
            g.height as int,
            a,
            b,
        )
}

/// The cell an adjacent clear cracks: an intact garbage cell whose component
/// touches a marked cell.
pub open spec fn crack_pred(g: &Grid, marks: Seq<bool>, x: int, y: int) -> bool {
    g.at(x, y) == Some(Block::Garbage { cracked: false }) && component_touches_mark(g, marks, x, y)
}

/// The crack mask of the whole board, row-major.
pub open spec fn crack_seq(g: &Grid, marks: Seq<bool>) -> Seq<bool> {
    Seq::new(
        (g.width * g.height) as nat,
        |i: int| crack_pred(g, marks, i % g.width as int, i / g.width as int),
    )
}

/// A cracked garbage cell.
pub open spec fn cracked_pred(g: &Grid, x: int, y: int) -> bool {
    g.at(x, y) == Some(Block::Garbage { cracked: true })
}

/// The cracked-garbage mask of the whole board, row-major.
pub open spec fn cracked_seq(g: &Grid) -> Seq<bool> {
    Seq::new(
        (g.width * g.height) as nat,
        |i: int| cracked_pred(g, i % g.width as int, i / g.width as int),
    )
}

/// Decide `has_adjacent_mark`.
fn adjacent_marked(marks: &Vec<bool>, width: usize, height: usize, x: usize, y: usize) -> (r: bool)
    requires
        marks@.len() == width * height,
        x < width,
        y < height,
    ensures
        r == has_adjacent_mark(marks@, width as int, height as int, x as int, y as int),
{
    let ghost w = width as int;
    let ghost h = height as int;
    if x > 0 && mask_read(marks, width, height, x - 1, y) {
        return true;
    }
    if x + 1 < width && mask_read(marks, width, height, x + 1, y) {
        return true;
    }
    if y > 0 && mask_read(marks, width, height, x, y - 1) {
        return true;
    }
    if y + 1 < height && mask_read(marks, width, height, x, y + 1) {
        return true;
    }
    proof {
        if has_adjacent_mark(marks@, w, h, x as int, y as int) {
            let (a, b) = choose|a: int, b: int|
                adj4(x as int, y as int, a, b) && in_grid(w, h, a, b) && #[trigger] mask_get(
                    marks@,
                    w,
                    a,
                    b,
                );
            assert(false);
        }
    }
    false
}

impl Grid {
    /// For every garbage component with a cell 4-adjacent to a marked
    /// (just-matched) cell, crack every intact cell of the component.
    /// Cracking is all-or-nothing per component and triggered by proximity;
    /// garbage itself never matches. Returns how many cells were cracked.
    pub fn crack_adjacent_garbage(&mut self, marks: &Vec<bool>) -> (cracked: u32)
        requires
            old(self).wf(),
            marks@.len() == old(self).width * old(self).height,
            old(self).width * old(self).height <= u32::MAX,
        ensures
            final(self).wf(),
            final(self).same_dims(old(self)),
            cracked == count_true(crack_seq(old(self), marks@)),
            forall|x: int, y: int|
                old(self).in_bounds(x, y) ==> #[trigger] final(self).at(x, y) == (if crack_pred(
                    old(self),
                    marks@,
                    x,
                    y,
                ) {
                    Some(Block::Garbage { cracked: true })
                } else {
                    old(self).at(x, y)
                }),
    {
        let w = self.width;
        let h = self.height;
        let ghost wi = w as int;
        let ghost hi = h as int;
        let nodes = self.garbage_nodes();
        let n = self.cells.len();
        // First decide, against the unmodified board, which cells crack.
        let mut cm: Vec<bool> = Vec::new();
        let mut y: usize = 0;
        while y < h
            invariant
                self.wf(),
                wi == self.width,
                hi == self.height,
                w == self.width,
                h == self.height,
                nodes@ == garb_nodes(self),
                nodes@.len() == w * h,
                marks@.len() == w * h,
                y <= h,
                cm@.len() == y * wi,
                forall|a: int, b: int|
                    self.in_bounds(a, b) && b < y ==> cm@[b * wi + a] == #[trigger] crack_pred(
                        self,
                        marks@,
                        a,
                        b,
                    ),
            decreases h - y,
        {
            let mut x: usize = 0;
            while x < w
                invariant
                    self.wf(),
                    wi == self.width,
                    hi == self.height,
                    w == self.width,
                    h == self.height,
                    nodes@ == garb_nodes(self),
                    nodes@.len() == w * h,
                    marks@.len() == w * h,
                    y < h,
                    x <= w,
                    cm@.len() == y * wi + x,
                    forall|a: int, b: int|
                        self.in_bounds(a, b) && (b < y || (b == y && a < x)) ==> cm@[b * wi + a]
                            == #[trigger] crack_pred(self, marks@, a, b),
                decreases w - x,
            {
                let cell = self.get(x, y);
                let is_intact = match cell {
                    Some(Block::Garbage { cracked: false }) => true,
                    _ => false,
                };
                let mut cracks = false;
                if is_intact {
                    proof {
                        lemma_garb_nodes_get(self, x as int, y as int);
                    }
                    let comp = component_of(&nodes, w, h, x, y);
                    let mut b: usize = 0;
                    while b < h
                        invariant
                            self.wf(),
                            wi == self.width,
                            hi == self.height,
                            w == self.width,
                            h == self.height,
                            nodes@ == garb_nodes(self),
                            comp@.len() == w * h,
                            marks@.len() == w * h,
                            x < w,
                            y < h,
                            b <= h,
                            forall|a2: int, b2: int|
                                in_grid(wi, hi, a2, b2) ==> #[trigger] mask_get(comp@, wi, a2, b2)
                                    == garb_conn(self, x as int, y as int, a2, b2),
                            cracks == (exists|a2: int, b2: int|
                                in_grid(wi, hi, a2, b2) && b2 < b && #[trigger] mask_get(
                                    comp@,
                                    wi,
                                    a2,
                                    b2,
                                ) && has_adjacent_mark(marks@, wi, hi, a2, b2)),
                        decreases h - b,
                    {
                        let mut a: usize = 0;
                        while a < w
                            invariant
                                self.wf(),
                                wi == self.width,
                                hi == self.height,
                                w == self.width,
                                h == self.height,
                                nodes@ == garb_nodes(self),
                                comp@.len() == w * h,
                                marks@.len() == w * h,
                                x < w,
                                y < h,
                                b < h,
                                a <= w,
                                forall|a2: int, b2: int|
                                    in_grid(wi, hi, a2, b2) ==> #[trigger] mask_get(
                                        comp@,
                                        wi,
                                        a2,
                                        b2,
                                    ) == garb_conn(self, x as int, y as int, a2, b2),
                                cracks == (exists|a2: int, b2: int|
                                    in_grid(wi, hi, a2, b2) && (b2 < b || (b2 == b && a2 < a))
                                        && #[trigger] mask_get(comp@, wi, a2, b2)
                                        && has_adjacent_mark(marks@, wi, hi, a2, b2)),
                            decreases w - a,
                        {
                            if mask_read(&comp, w, h, a, b) && adjacent_marked(marks, w, h, a, b) {
                                cracks = true;
                            }
                            a = a + 1;
                        }
                        b = b + 1;
                    }
                    proof {
                        if cracks {
                            let (a2, b2) = choose|a2: int, b2: int|
                                in_grid(wi, hi, a2, b2) && b2 < hi && #[trigger] mask_get(
                                    comp@,
                                    wi,
                                    a2,
                                    b2,
                                ) && has_adjacent_mark(marks@, wi, hi, a2, b2);
                            assert(garb_conn(self, x as int, y as int, a2, b2));
                            assert(component_touches_mark(self, marks@, x as int, y as int));
                        } else {
                            if component_touches_mark(self, marks@, x as int, y as int) {
                                let (a2, b2) = choose|a2: int, b2: int|
                                    #[trigger] garb_conn(self, x as int, y as int, a2, b2)
                                        && has_adjacent_mark(marks@, wi, hi, a2, b2);
                                lemma_conn_nodes(
                                    garb_nodes(self),
                                    wi,
                                    hi,
                                    x as int,
                                    y as int,
                                    a2,
                                    b2,
                                );
                                assert(mask_get(comp@, wi, a2, b2));
                                assert(false);
                            }
                        }
                        assert((is_intact && cracks) == crack_pred(
                            self,
                            marks@,
                            x as int,
                            y as int,
                        ));
                    }
                } else {
                    proof {
                        assert(!crack_pred(self, marks@, x as int, y as int));
                    }
                }
                cm.push(is_intact && cracks);
                proof {
                    lemma_flat(wi, hi, x as int, y as int);
                    assert forall|a: int, b: int|
                        self.in_bounds(a, b) && (b < y || (b == y && a < x + 1)) implies cm@[b * wi
                        + a] == #[trigger] crack_pred(self, marks@, a, b) by {
                        lemma_flat(wi, hi, a, b);
                        if !(a == x as int && b == y as int) {
                            assert(b * wi + a < y * wi + x) by (nonlinear_arith)
                                requires
                                    0 <= a < wi,
                                    0 <= b,
                                    (b < y || (b == y && a < x)),
                                    x < w,
                                    wi == w,
                            ;
                        }
                    }
                }
                x = x + 1;
            }
            proof {
                assert(((y + 1) as int) * wi == y * wi + wi) by (nonlinear_arith);
            }
            y = y + 1;
        }
        proof {
            assert(hi * wi == wi * hi) by (nonlinear_arith);
            assert(cm@ =~= crack_seq(self, marks@)) by {
                assert forall|i: int| 0 <= i < cm@.len() implies cm@[i] == crack_seq(
                    self,
                    marks@,
                )[i] by {
                    lemma_unflat(wi, hi, i);
                    let a = i % wi;
                    let b = i / wi;
                    assert(cm@[b * wi + a] == crack_pred(self, marks@, a, b));
                }
            }
        }
        // Then apply the crack mask and count.
        let mut i: usize = 0;
        let mut cracked: u32 = 0;
        let ghost g0 = *self;
        while i < n
            invariant
                self.width == g0.width,
                self.height == g0.height,
                self.cells@.len() == n,
                n == g0.cells@.len(),
                cm@.len() == n,
                n <= u32::MAX,
                i <= n,
                cracked == count_true(cm@.take(i as int)),
                forall|j: int|
                    0 <= j < i ==> self.cells@[j] == (if cm@[j] {
                        Some(Block::Garbage { cracked: true })
                    } else {
                        g0.cells@[j]
                    }),
                forall|j: int| i <= j < n ==> self.cells@[j] == g0.cells@[j],
            decreases n - i,
        {
            proof {
                lemma_count_true_take_step(cm@, i as int);
                lemma_count_true_bounds(cm@.take(i as int));
            }
            if cm[i] {
                self.cells.set(i, Some(Block::Garbage { cracked: true }));
                cracked = cracked + 1;
            }
            i = i + 1;
        }
        proof {
            lemma_count_true_take_all(cm@);
            assert forall|x: int, y: int|
                old(self).in_bounds(x, y) implies #[trigger] final(self).at(x, y) == (if crack_pred(
                old(self),
                marks@,
                x,
                y,
            ) {
                Some(Block::Garbage { cracked: true })
            } else {
                old(self).at(x, y)
            }) by {
                lemma_flat(wi, hi, x, y);
            }
        }
        cracked
    }

    /// Convert every cracked garbage cell into a colored normal block, each
    /// color drawn to avoid an immediate match where the bounded retry
    /// allows. Returns how many cells were converted.
    pub fn convert_cracked_garbage(&mut self) -> (converted: u32)
        requires
            old(self).wf(),
            old(self).width * old(self).height <= u32::MAX,
        ensures
            final(self).wf(),
            final(self).same_dims(old(self)),
            converted == count_true(cracked_seq(old(self))),
            forall|x: int, y: int|
                old(self).in_bounds(x, y) && cracked_pred(old(self), x, y)
                    ==> crate::grid::is_normal_cell(#[trigger] final(self).at(x, y)),
            forall|x: int, y: int|
                old(self).in_bounds(x, y) && !cracked_pred(old(self), x, y)
                    ==> #[trigger] final(self).at(x, y) == old(self).at(x, y),
    {
        let w = self.width;
        let h = self.height;
        let ghost wi = w as int;
        let ghost hi = h as int;
        let ghost cs = cracked_seq(old(self));
        let mut converted: u32 = 0;
        let mut y: usize = 0;
        let mut idx: usize = 0;
        while y < h
            invariant
                self.wf(),
                self.same_dims(old(self)),
                wi == self.width,
                hi == self.height,
                w == self.width,
                h == self.height,
                wi * hi <= u32::MAX,
                cs == cracked_seq(old(self)),
                cs.len() == w * h,
                y <= h,
                idx == y * wi,
                converted == count_true(cs.take(idx as int)),
                forall|a: int, b: int|
                    old(self).in_bounds(a, b) && b < y && cracked_pred(old(self), a, b)
                        ==> crate::grid::is_normal_cell(#[trigger] self.at(a, b)),
                forall|a: int, b: int|
                    old(self).in_bounds(a, b) && b < y && !cracked_pred(old(self), a, b)
                        ==> #[trigger] self.at(a, b) == old(self).at(a, b),
                forall|a: int, b: int|
                    old(self).in_bounds(a, b) && b >= y ==> #[trigger] self.at(a, b) == old(
                        self,
                    ).at(a, b),
            decreases h - y,
        {
            let mut x: usize = 0;
            while x < w
                invariant
                    self.wf(),
                    self.same_dims(old(self)),
                    wi == self.width,
                    hi == self.height,
                    w == self.width,
                    h == self.height,
                    wi * hi <= u32::MAX,
                    cs == cracked_seq(old(self)),
                    cs.len() == w * h,
                    y < h,
                    x <= w,
                    idx == y * wi + x,
                    converted == count_true(cs.take(idx as int)),
                    forall|a: int, b: int|
                        old(self).in_bounds(a, b) && (b < y || (b == y && a < x)) && cracked_pred(
                            old(self),
                            a,
                            b,
                        ) ==> crate::grid::is_normal_cell(#[trigger] self.at(a, b)),
                    forall|a: int, b: int|
                        old(self).in_bounds(a, b) && (b < y || (b == y && a < x)) && !cracked_pred(
                            old(self),
                            a,
                            b,
                        ) ==> #[trigger] self.at(a, b) == old(self).at(a, b),
                    forall|a: int, b: int|
                        old(self).in_bounds(a, b) && (b > y || (b == y && a >= x))
                            ==> #[trigger] self.at(a, b) == old(self).at(a, b),
                decreases w - x,
            {
                proof {
                    lemma_flat(wi, hi, x as int, y as int);
                    lemma_count_true_take_step(cs, idx as int);
                    lemma_count_true_bounds(cs.take(idx as int));
                    lemma_unflat(wi, hi, idx as int);
                    assert(cs[idx as int] == cracked_pred(old(self), x as int, y as int));
                }
                let cell = self.get(x, y);
                let is_cracked = match cell {
                    Some(Block::Garbage { cracked: true }) => true,
                    _ => false,
                };
                if is_cracked {
                    let color = self.pick_color_avoiding_match(x, y);
                    self.set(x, y, Some(Block::Normal { color }));
                    converted = converted + 1;
                }
                idx = idx + 1;
                x = x + 1;
            }
            proof {
                assert(((y + 1) as int) * wi == y * wi + wi) by (nonlinear_arith);
            }
            y = y + 1;
        }
        proof {
            assert(idx == hi * wi) by (nonlinear_arith)
                requires
                    idx == hi * wi || idx == (hi as int) * wi,
            ;
            assert(cs.take(idx as int) =~= cs);
        }
        converted
    }

}

/// Clearing matched cells does not touch garbage, so it changes neither the
/// garbage components nor which cells an adjacent clear cracks.
pub proof fn lemma_crack_pred_after_clear(g0: &Grid, g1: &Grid, marks: Seq<bool>)
    requires
        g0.wf(),
        g1.wf(),
        g1.same_dims(g0),
        forall|x: int, y: int|
            g0.in_bounds(x, y) ==> #[trigger] g1.at(x, y) == (if crate::matches::marked(g0, x, y) {
                None
            } else {
                g0.at(x, y)
            }),
    ensures
        garb_nodes(g1) == garb_nodes(g0),
        forall|x: int, y: int|
            g0.in_bounds(x, y) ==> #[trigger] crack_pred(g1, marks, x, y) == crack_pred(
                g0,
                marks,
                x,
                y,
            ),
        forall|x: int, y: int|
            g0.in_bounds(x, y) ==> #[trigger] cracked_pred(g1, x, y) == cracked_pred(g0, x, y),
{
    let w = g0.width as int;
    let h = g0.height as int;
    assert(garb_nodes(g1) =~= garb_nodes(g0)) by {
        assert forall|i: int| 0 <= i < garb_nodes(g1).len() implies garb_nodes(g1)[i] == garb_nodes(
            g0,
        )[i] by {
            lemma_unflat(w, h, i);
            let x = i % w;
            let y = i / w;
            if crate::matches::marked(g0, x, y) {
                crate::matches::lemma_marked_is_normal(g0, x, y);
            }
            assert(g0.cells@[y * w + x] == g0.at(x, y));
            assert(g1.cells@[y * w + x] == g1.at(x, y));
        }
    }
    assert forall|x: int, y: int|
        g0.in_bounds(x, y) implies #[trigger] crack_pred(g1, marks, x, y) == crack_pred(
        g0,
        marks,
        x,
        y,
    ) by {
        if crate::matches::marked(g0, x, y) {
            crate::matches::lemma_marked_is_normal(g0, x, y);
        }
        assert forall|a: int, b: int| #[trigger] garb_conn(g1, x, y, a, b) == garb_conn(
            g0,
            x,
            y,
            a,
            b,
        ) by {}
        if component_touches_mark(g1, marks, x, y) {
            let (a, b) = choose|a: int, b: int|
                #[trigger] garb_conn(g1, x, y, a, b) && has_adjacent_mark(marks, w, h, a, b);
            assert(garb_conn(g0, x, y, a, b));
        }
        if component_touches_mark(g0, marks, x, y) {
            let (a, b) = choose|a: int, b: int|
                #[trigger] garb_conn(g0, x, y, a, b) && has_adjacent_mark(marks, w, h, a, b);
            assert(garb_conn(g1, x, y, a, b));
        }
    }
    assert forall|x: int, y: int|
        g0.in_bounds(x, y) implies #[trigger] cracked_pred(g1, x, y) == cracked_pred(g0, x, y) by {
        if crate::matches::marked(g0, x, y) {
            crate::matches::lemma_marked_is_normal(g0, x, y);
        }
    }
}

/// The attack rows can be inserted: no more rows than the board is tall,
/// every mask as wide as the board, and no marked cell landing on an
/// occupied one. The rows sit directly below the top edge, oldest lowest.
pub open spec fn rows_fit(g: &Grid, rows: Seq<Vec<bool>>) -> bool {
    &&& rows.len() <= g.height
    &&& forall|r: int| 0 <= r < rows.len() ==> (#[trigger] rows[r])@.len() == g.width
    &&& forall|r: int, x: int|
        0 <= r < rows.len() && 0 <= x < g.width && (#[trigger] rows[r]@[x]) ==> g.at(
            x,
            g.height - rows.len() + r,
        ) is None
}

/// The cell `(x, y)` is marked by one of the inserted rows.
pub open spec fn garbage_target(g: &Grid, rows: Seq<Vec<bool>>, x: int, y: int) -> bool {
    &&& g.height - rows.len() <= y < g.height
    &&& rows[y - (g.height - rows.len())]@[x]
}

impl Grid {
    /// Insert attack rows of intact garbage immediately below the top edge,
    /// all-or-nothing: when there are more rows than the board height, a
    /// mask of the wrong width, or any marked cell already occupied, nothing
    /// changes and the call reports failure.
    pub fn insert_garbage_rows_from_top(&mut self, rows: &Vec<Vec<bool>>) -> (ok: bool)
        requires
            old(self).wf(),
        ensures
            final(self).wf(),
            final(self).same_dims(old(self)),
            ok == rows_fit(old(self), rows@),
            !ok ==> *final(self) == *old(self),
            ok ==> forall|x: int, y: int|
                old(self).in_bounds(x, y) ==> #[trigger] final(self).at(x, y) == (
                if garbage_target(old(self), rows@, x, y) {
                    Some(Block::Garbage { cracked: false })
                } else {
                    old(self).at(x, y)
                }),
    {
        let w = self.width;
        let h = self.height;
        let nrows = rows.len();
        if nrows > h {
            return false;
        }
        let mut r: usize = 0;
        while r < nrows
            invariant
                self.wf(),
                w == self.width,
                h == self.height,
                nrows == rows@.len(),
                r <= nrows,
                forall|rr: int| 0 <= rr < r ==> (#[trigger] rows@[rr])@.len() == w,
            decreases nrows - r,
        {
            let row = &rows[r];
            if row.len() != w {
                return false;
            }
            r = r + 1;
        }
        let start_y = h - nrows;
        r = 0;
        while r < nrows
            invariant
                self.wf(),
                w == self.width,
                h == self.height,
                nrows == rows@.len(),
                nrows <= h,
                start_y == h - nrows,
                r <= nrows,
                forall|rr: int| 0 <= rr < nrows ==> (#[trigger] rows@[rr])@.len() == w,
                forall|rr: int, x: int|
                    0 <= rr < r && 0 <= x < w && (#[trigger] rows@[rr]@[x]) ==> self.at(
                        x,
                        start_y + rr,
                    ) is None,
            decreases nrows - r,
        {
            let mut x: usize = 0;
            while x < w
                invariant
                    self.wf(),
                    w == self.width,
                    h == self.height,
                    nrows == rows@.len(),
                    nrows <= h,
                    start_y == h - nrows,
                    r < nrows,
                    x <= w,
                    forall|rr: int| 0 <= rr < nrows ==> (#[trigger] rows@[rr])@.len() == w,
                    forall|rr: int, x2: int|
                        0 <= rr < r && 0 <= x2 < w && (#[trigger] rows@[rr]@[x2]) ==> self.at(
                            x2,
                            start_y + rr,
                        ) is None,
                    forall|x2: int|
                        0 <= x2 < x && (#[trigger] rows@[r as int]@[x2]) ==> self.at(
                            x2,
                            start_y + r,
                        ) is None,
                decreases w - x,
            {
                let row = &rows[r];
                if row[x] && self.get(x, start_y + r).is_some() {
                    return false;
                }
                x = x + 1;
            }
            r = r + 1;
        }
        proof {
            assert(rows_fit(old(self), rows@));
        }
        let ghost g0 = *self;
        r = 0;
        while r < nrows
            invariant
                self.wf(),
                self.same_dims(&g0),
                *old(self) == g0,
                w == self.width,
                h == self.height,
                nrows == rows@.len(),
                nrows <= h,
                start_y == h - nrows,
                r <= nrows,
                forall|rr: int| 0 <= rr < nrows ==> (#[trigger] rows@[rr])@.len() == w,
                forall|x2: int, y2: int|
                    g0.in_bounds(x2, y2) ==> #[trigger] self.at(x2, y2) == (if start_y <= y2
                        < start_y + r && rows@[y2 - start_y]@[x2] {
                        Some(Block::Garbage { cracked: false })
                    } else {
                        g0.at(x2, y2)
                    }),
            decreases nrows - r,
        {
            let mut x: usize = 0;
            while x < w
                invariant
                    self.wf(),
                    self.same_dims(&g0),
                    *old(self) == g0,
                    w == self.width,
                    h == self.height,
                    nrows == rows@.len(),
                    nrows <= h,
                    start_y == h - nrows,
                    r < nrows,
                    x <= w,
                    forall|rr: int| 0 <= rr < nrows ==> (#[trigger] rows@[rr])@.len() == w,
                    forall|x2: int, y2: int|
                        g0.in_bounds(x2, y2) ==> #[trigger] self.at(x2, y2) == (if (start_y <= y2
                            < start_y + r || (y2 == start_y + r && x2 < x)) && rows@[y2
                            - start_y]@[x2] {
                            Some(Block::Garbage { cracked: false })
                        } else {
                            g0.at(x2, y2)
                        }),
                decreases w - x,
            {
                let row = &rows[r];
                if row[x] {
                    self.set(x, start_y + r, Some(Block::Garbage { cracked: false }));
                }
                x = x + 1;
            }
            r = r + 1;
        }
        true
    }
}

} // verus!

//! Gravity: in one tick every loose piece of material advances by exactly one
//! row. Normal blocks fall cell by cell when the cell below is empty; garbage
//! blocks fall as rigid 4-connected components, and a component falls only
//! when every one of its cells is above the bottom row and has empty space or
//! garbage directly below. All fall decisions are made against the pre-step
//! board, so they are order-independent within a tick.

use vstd::prelude::*;
use crate::block::Block;
use crate::connect::adj4;
use crate::connect::connected;
use crate::connect::is_path;
use crate::connect::component_of;
use crate::connect::in_grid;
use crate::connect::lemma_conn_nodes;
use crate::connect::lemma_conn_refl;
use crate::connect::lemma_conn_step;
use crate::connect::lemma_conn_trans;
use crate::connect::mask_get;
use crate::connect::mask_read;
use crate::connect::mask_set_true;
use crate::connect::node_at;
use crate::grid::Grid;
use crate::grid::is_garbage_cell;
use crate::grid::is_normal_cell;
use crate::grid::lemma_flat;
use crate::matches::lemma_unflat;

verus! {

/// The garbage-node mask of the board, row-major.
pub open spec fn garb_nodes(g: &Grid) -> Seq<bool> {
    Seq::new((g.width * g.height) as nat, |i: int| is_garbage_cell(g.cells@[i]))
}

/// The garbage-node mask reads back cell contents at in-bounds cells.
pub proof fn lemma_garb_nodes_get(g: &Grid, x: int, y: int)
    requires
        g.wf(),
        g.in_bounds(x, y),
    ensures
        mask_get(garb_nodes(g), g.width as int, x, y) == is_garbage_cell(g.at(x, y)),
        node_at(garb_nodes(g), g.width as int, g.height as int, x, y) == is_garbage_cell(
            g.at(x, y),
        ),
{
    lemma_flat(g.width as int, g.height as int, x, y);
}

/// Two cells lie in the same garbage component.
pub open spec fn garb_conn(g: &Grid, x: int, y: int, x2: int, y2: int) -> bool {
    connected(garb_nodes(g), g.width as int, g.height as int, x, y, x2, y2)
}

/// The garbage component of `(x, y)` may fall: every cell of the component
/// sits above the bottom row, over empty space or over garbage (which, being
/// adjacent, belongs to the same component).
pub open spec fn garb_can_fall(g: &Grid, x: int, y: int) -> bool {
    is_garbage_cell(g.at(x, y)) && forall|a: int, b: int|
        #[trigger] garb_conn(g, x, y, a, b) ==> b > 0 && !is_normal_cell(g.at(a, b - 1))
}

/// The cell's content falls by one row this tick.
pub open spec fn spec_falls(g: &Grid, x: int, y: int) -> bool {
    match g.at(x, y) {
        None => false,
        Some(Block::Normal { .. }) => y > 0 && g.at(x, y - 1) is None,
        Some(Block::Garbage { .. }) => garb_can_fall(g, x, y),
    }
}

/// The cell's content after one gravity tick: it receives the cell above when
/// that one falls, empties itself when its own content falls away, and is
/// unchanged otherwise.
pub open spec fn spec_stepped(g: &Grid, x: int, y: int) -> Option<Block> {
    if y + 1 < g.height && spec_falls(g, x, y + 1) {
        g.at(x, y + 1)
    } else if spec_falls(g, x, y) {
        None
    } else {
        g.at(x, y)
    }
}

/// True when anything on the board falls this tick.
pub open spec fn spec_any_falls(g: &Grid) -> bool {
    exists|x: int, y: int| g.in_bounds(x, y) && #[trigger] spec_falls(g, x, y)
}

/// Whatever falls was occupied before the tick.
pub proof fn lemma_falls_occupied(g: &Grid, x: int, y: int)
    requires
        spec_falls(g, x, y),
    ensures
        g.at(x, y) is Some,
{
}

/// Nothing in the bottom row ever falls.
pub proof fn lemma_bottom_never_falls(g: &Grid, x: int)
    requires
        g.wf(),
        g.in_bounds(x, 0),
    ensures
        !spec_falls(g, x, 0),
{
    if is_garbage_cell(g.at(x, 0)) {
        lemma_garb_nodes_get(g, x, 0);
        lemma_conn_refl(garb_nodes(g), g.width as int, g.height as int, x, 0);
        assert(garb_conn(g, x, 0, x, 0));
        assert(!garb_can_fall(g, x, 0));
    }
}

/// A falling cell never lands on standing material: when the cell above
/// `(x, y)` falls into it, `(x, y)` was either empty or itself falling.
#[verifier::rlimit(50)]
pub proof fn lemma_no_overwrite(g: &Grid, x: int, y: int)
    requires
        g.wf(),
        g.in_bounds(x, y),
        y + 1 < g.height,
        spec_falls(g, x, y + 1),
        g.at(x, y) is Some,
    ensures
        spec_falls(g, x, y),
{
    let w = g.width as int;
    let h = g.height as int;
    if is_normal_cell(g.at(x, y + 1)) {
        // A normal block falls only into an empty cell.
        assert(g.at(x, y) is None);
    } else {
        assert(garb_can_fall(g, x, y + 1));
        lemma_garb_nodes_get(g, x, y + 1);
        lemma_conn_refl(garb_nodes(g), w, h, x, y + 1);
        assert(garb_conn(g, x, y + 1, x, y + 1));
        assert(!is_normal_cell(g.at(x, y)));
        assert(is_garbage_cell(g.at(x, y)));
        lemma_garb_nodes_get(g, x, y);
        lemma_conn_step(garb_nodes(g), w, h, x, y + 1, x, y + 1, x, y);
        assert(garb_conn(g, x, y + 1, x, y));
        assert forall|a: int, b: int| #[trigger] garb_conn(g, x, y, a, b) implies b > 0
            && !is_normal_cell(g.at(a, b - 1)) by {
            lemma_conn_trans(garb_nodes(g), w, h, x, y + 1, x, y, a, b);
            assert(garb_conn(g, x, y + 1, a, b));
        }
    }
}

/// Cells of one falling component fall together.
#[verifier::rlimit(50)]
pub proof fn lemma_component_member_falls(g: &Grid, x: int, y: int, a: int, b: int)
    requires
        g.wf(),
        garb_can_fall(g, x, y),
        garb_conn(g, x, y, a, b),
    ensures
        garb_can_fall(g, a, b),
        spec_falls(g, a, b),
        g.in_bounds(a, b),
        is_garbage_cell(g.at(a, b)),
        b > 0,
        !is_normal_cell(g.at(a, b - 1)),
{
    let w = g.width as int;
    let h = g.height as int;
    lemma_conn_nodes(garb_nodes(g), w, h, x, y, a, b);
    lemma_garb_nodes_get(g, a, b);
    assert forall|a2: int, b2: int| #[trigger] garb_conn(g, a, b, a2, b2) implies b2 > 0
        && !is_normal_cell(g.at(a2, b2 - 1)) by {
        lemma_conn_trans(garb_nodes(g), w, h, x, y, a, b, a2, b2);
        assert(garb_conn(g, x, y, a2, b2));
    }
    assert(garb_conn(g, x, y, a, b));
}

/// A board where nothing falls is a fixed point of the gravity step, and on
/// it every normal block rests on the bottom row or on an occupied cell.
pub proof fn lemma_settled_fixed_point(g: &Grid)
    requires
        g.wf(),
        !spec_any_falls(g),
    ensures
        forall|x: int, y: int|
            g.in_bounds(x, y) ==> #[trigger] spec_stepped(g, x, y) == g.at(x, y),
        forall|x: int, y: int|
            g.in_bounds(x, y) && is_normal_cell(#[trigger] g.at(x, y)) ==> y == 0 || g.at(
                x,
                y - 1,
            ) is Some,
{
    assert forall|x: int, y: int|
        g.in_bounds(x, y) implies #[trigger] spec_stepped(g, x, y) == g.at(x, y) by {
        assert(!spec_falls(g, x, y));
        if y + 1 < g.height {
            assert(!spec_falls(g, x, y + 1));
        }
    }
    assert forall|x: int, y: int|
        g.in_bounds(x, y) && is_normal_cell(#[trigger] g.at(x, y)) implies y == 0 || g.at(
        x,
        y - 1,
    ) is Some by {
        assert(!spec_falls(g, x, y));
    }
}

/// Sum of the row indices of the occupied cells of column `x` below row
/// `yk`. Falling material lowers this sum, which bounds how long gravity can
/// keep moving.
pub open spec fn col_weight(g: &Grid, x: int, yk: int) -> int
    decreases yk,
{
    if yk <= 0 {
        0
    } else {
        col_weight(g, x, yk - 1) + if g.at(x, yk - 1) is Some {
            yk - 1
        } else {
            0int
        }
    }
}

/// Number of falling cells of column `x` below row `yk`.
pub open spec fn col_falls(g: &Grid, x: int, yk: int) -> int
    decreases yk,
{
    if yk <= 0 {
        0
    } else {
        col_falls(g, x, yk - 1) + if spec_falls(g, x, yk - 1) {
            1int
        } else {
            0int
        }
    }
}

/// Sum of `col_weight` over the first `xk` columns.
pub open spec fn cols_weight(g: &Grid, xk: int) -> int
    decreases xk,
{
    if xk <= 0 {
        0
    } else {
        cols_weight(g, xk - 1) + col_weight(g, xk - 1, g.height as int)
    }
}

/// Sum of `col_falls` over the first `xk` columns.
pub open spec fn cols_falls(g: &Grid, xk: int) -> int
    decreases xk,
{
    if xk <= 0 {
        0
    } else {
        cols_falls(g, xk - 1) + col_falls(g, xk - 1, g.height as int)
    }
}

/// Total occupied-cell weight of the board.
pub open spec fn board_weight(g: &Grid) -> int {
    cols_weight(g, g.width as int)
}

proof fn lemma_col_weight_nonneg(g: &Grid, x: int, yk: int)
    ensures
        col_weight(g, x, yk) >= 0,
    decreases yk,
{
    if yk > 0 {
        lemma_col_weight_nonneg(g, x, yk - 1);
    }
}

proof fn lemma_col_falls_nonneg(g: &Grid, x: int, yk: int)
    ensures
        col_falls(g, x, yk) >= 0,
    decreases yk,
{
    if yk > 0 {
        lemma_col_falls_nonneg(g, x, yk - 1);
    }
}

proof fn lemma_cols_weight_nonneg(g: &Grid, xk: int)
    ensures
        cols_weight(g, xk) >= 0,
    decreases xk,
{
    if xk > 0 {
        lemma_cols_weight_nonneg(g, xk - 1);
        lemma_col_weight_nonneg(g, xk - 1, g.height as int);
    }
}

proof fn lemma_col_falls_pos(g: &Grid, x: int, y: int, yk: int)
    requires
        0 <= y < yk,
        spec_falls(g, x, y),
    ensures
        col_falls(g, x, yk) >= 1,
    decreases yk,
{
    if yk - 1 == y {
        lemma_col_falls_nonneg(g, x, yk - 1);
    } else {
        lemma_col_falls_pos(g, x, y, yk - 1);
    }
}

proof fn lemma_cols_falls_pos(g: &Grid, x: int, y: int, xk: int)
    requires
        0 <= x < xk,
        0 <= y < g.height,
        spec_falls(g, x, y),
    ensures
        cols_falls(g, xk) >= 1,
    decreases xk,
{
    if xk - 1 == x {
        lemma_col_falls_pos(g, x, y, g.height as int);
        lemma_cols_falls_nonneg_helper(g, xk - 1);
    } else {
        lemma_cols_falls_pos(g, x, y, xk - 1);
        lemma_col_falls_nonneg(g, xk - 1, g.height as int);
    }
}

proof fn lemma_cols_falls_nonneg_helper(g: &Grid, xk: int)
    ensures
        cols_falls(g, xk) >= 0,
    decreases xk,
{
    if xk > 0 {
        lemma_cols_falls_nonneg_helper(g, xk - 1);
        lemma_col_falls_nonneg(g, xk - 1, g.height as int);
    }
}

/// After one gravity tick a column's weight drops by exactly the number of
/// its falling cells, with a boundary correction for a faller that lands
/// into the prefix from row `yk` itself.
proof fn lemma_col_weight_stepped(g: &Grid, gn: &Grid, x: int, yk: int)
    requires
        g.wf(),
        gn.wf(),
        gn.same_dims(g),
        forall|a: int, b: int|
            g.in_bounds(a, b) ==> #[trigger] gn.at(a, b) == spec_stepped(g, a, b),
        0 <= x < g.width,
        0 <= yk <= g.height,
    ensures
        col_weight(gn, x, yk) == col_weight(g, x, yk) - col_falls(g, x, yk) + if yk < g.height
            && spec_falls(g, x, yk) {
            yk - 1
        } else {
            0int
        },
    decreases yk,
{
    let h = g.height as int;
    if yk == 0 {
        if 0 < h {
            lemma_bottom_never_falls(g, x);
        }
    } else {
        lemma_col_weight_stepped(g, gn, x, yk - 1);
        let yy = yk - 1;
        assert(gn.at(x, yy) == spec_stepped(g, x, yy));
        if spec_falls(g, x, yy) {
            if yy + 1 < h && spec_falls(g, x, yy + 1) {
                lemma_falls_occupied(g, x, yy + 1);
            }
        } else {
            if yy + 1 < h && spec_falls(g, x, yy + 1) {
                lemma_falls_occupied(g, x, yy + 1);
                if g.at(x, yy) is Some {
                    lemma_no_overwrite(g, x, yy);
                    assert(false);
                }
            }
        }
    }
}

/// After one gravity tick the board weight drops by exactly the number of
/// falling cells.
proof fn lemma_cols_weight_stepped(g: &Grid, gn: &Grid, xk: int)
    requires
        g.wf(),
        gn.wf(),
        gn.same_dims(g),
        forall|a: int, b: int|
            g.in_bounds(a, b) ==> #[trigger] gn.at(a, b) == spec_stepped(g, a, b),
        0 <= xk <= g.width,
    ensures
        cols_weight(gn, xk) == cols_weight(g, xk) - cols_falls(g, xk),
    decreases xk,
{
    if xk > 0 {
        lemma_cols_weight_stepped(g, gn, xk - 1);
        lemma_col_weight_stepped(g, gn, xk - 1, g.height as int);
    }
}

/// A gravity tick that moves anything strictly lowers the board weight, and
/// the weight never goes negative.
proof fn lemma_step_decreases_weight(g: &Grid, gn: &Grid)
    requires
        g.wf(),
        gn.wf(),
        gn.same_dims(g),
        forall|a: int, b: int|
            g.in_bounds(a, b) ==> #[trigger] gn.at(a, b) == spec_stepped(g, a, b),
        spec_any_falls(g),
    ensures
        0 <= board_weight(gn) < board_weight(g),
{
    lemma_cols_weight_stepped(g, gn, g.width as int);
    let (x, y) = choose|x: int, y: int| g.in_bounds(x, y) && #[trigger] spec_falls(g, x, y);
    lemma_cols_falls_pos(g, x, y, g.width as int);
    lemma_cols_weight_nonneg(gn, gn.width as int);
    assert(cols_weight(gn, g.width as int) >= 0);
}

/// Boards with the same dimensions and the same cells agree on what falls.
proof fn lemma_falls_congruence(g1: &Grid, g2: &Grid)
    requires
        g1.wf(),
        g2.wf(),
        g1.same_dims(g2),
        forall|a: int, b: int| g1.in_bounds(a, b) ==> #[trigger] g1.at(a, b) == g2.at(a, b),
    ensures
        spec_any_falls(g1) == spec_any_falls(g2),
{
    let w = g1.width as int;
    let h = g1.height as int;
    assert(garb_nodes(g1) =~= garb_nodes(g2)) by {
        assert forall|i: int| 0 <= i < garb_nodes(g1).len() implies garb_nodes(g1)[i]
            == garb_nodes(g2)[i] by {
            lemma_unflat(w, h, i);
            let x = i % w;
            let y = i / w;
            assert(g1.at(x, y) == g2.at(x, y));
            assert(g1.cells@[y * w + x] == g2.cells@[y * w + x]);
        }
    }
    assert forall|x: int, y: int|
        g1.in_bounds(x, y) implies #[trigger] spec_falls(g1, x, y) == spec_falls(g2, x, y) by {
        assert(g1.at(x, y) == g2.at(x, y));
        if y > 0 {
            assert(g1.at(x, y - 1) == g2.at(x, y - 1));
        }
        assert forall|a: int, b: int| #[trigger] garb_conn(g1, x, y, a, b) == garb_conn(
            g2,
            x,
            y,
            a,
            b,
        ) by {}
        if is_garbage_cell(g1.at(x, y)) {
            assert(garb_can_fall(g1, x, y) == garb_can_fall(g2, x, y)) by {
                if garb_can_fall(g1, x, y) {
                    assert forall|a: int, b: int| #[trigger] garb_conn(g2, x, y, a, b) implies b > 0
                        && !is_normal_cell(g2.at(a, b - 1)) by {
                        assert(garb_conn(g1, x, y, a, b));
                        lemma_conn_nodes(garb_nodes(g1), w, h, x, y, a, b);
                        assert(g1.at(a, b - 1) == g2.at(a, b - 1) || b - 1 < 0);
                        if b > 0 {
                            assert(g1.in_bounds(a, b - 1));
                        }
                    }
                }
                if garb_can_fall(g2, x, y) {
                    assert forall|a: int, b: int| #[trigger] garb_conn(g1, x, y, a, b) implies b > 0
                        && !is_normal_cell(g1.at(a, b - 1)) by {
                        assert(garb_conn(g2, x, y, a, b));
                        lemma_conn_nodes(garb_nodes(g2), w, h, x, y, a, b);
                        if b > 0 {
                            assert(g1.in_bounds(a, b - 1));
                        }
                    }
                }
            }
        }
    }
    if spec_any_falls(g1) {
        let (x, y) = choose|x: int, y: int| g1.in_bounds(x, y) && #[trigger] spec_falls(g1, x, y);
        assert(spec_falls(g2, x, y));
    }
    if spec_any_falls(g2) {
        let (x, y) = choose|x: int, y: int| g2.in_bounds(x, y) && #[trigger] spec_falls(g2, x, y);
        assert(spec_falls(g1, x, y));
    }
}

/// The blocks of column `x` below row `yk`, bottom-up, with the empty cells
/// squeezed out. Gravity only ever lowers material inside its column, so
/// this sequence is invariant under the gravity step.
pub open spec fn col_blocks(g: &Grid, x: int, yk: int) -> Seq<Block>
    decreases yk,
{
    if yk <= 0 {
        Seq::empty()
    } else {
        col_blocks(g, x, yk - 1) + match g.at(x, yk - 1) {
            Some(b) => seq![b],
            None => Seq::empty(),
        }
    }
}

/// After one gravity tick a column's block sequence is unchanged, except
/// that a faller from row `yk` itself has already landed inside the prefix.
proof fn lemma_col_blocks_stepped(g: &Grid, gn: &Grid, x: int, yk: int)
    requires
        g.wf(),
        gn.wf(),
        gn.same_dims(g),
        forall|a: int, b: int|
            g.in_bounds(a, b) ==> #[trigger] gn.at(a, b) == spec_stepped(g, a, b),
        0 <= x < g.width,
        0 <= yk <= g.height,
    ensures
        col_blocks(gn, x, yk) == col_blocks(g, x, yk) + (if yk < g.height && spec_falls(g, x, yk) {
            match g.at(x, yk) {
                Some(b) => seq![b],
                None => Seq::<Block>::empty(),
            }
        } else {
            Seq::<Block>::empty()
        }),
    decreases yk,
{
    let h = g.height as int;
    if yk == 0 {
        if 0 < h {
            lemma_bottom_never_falls(g, x);
        }
        assert(col_blocks(gn, x, 0) =~= col_blocks(g, x, 0) + Seq::<Block>::empty());
    } else {
        lemma_col_blocks_stepped(g, gn, x, yk - 1);
        let yy = yk - 1;
        assert(gn.at(x, yy) == spec_stepped(g, x, yy));
        let tail_old = match g.at(x, yy) {
            Some(b) => seq![b],
            None => Seq::<Block>::empty(),
        };
        let boundary = if yk < h && spec_falls(g, x, yk) {
            match g.at(x, yk) {
                Some(b) => seq![b],
                None => Seq::<Block>::empty(),
            }
        } else {
            Seq::<Block>::empty()
        };
        if spec_falls(g, x, yy) {
            if yy + 1 < h && spec_falls(g, x, yy + 1) {
                lemma_falls_occupied(g, x, yy + 1);
            }
        } else {
            if yy + 1 < h && spec_falls(g, x, yy + 1) {
                lemma_falls_occupied(g, x, yy + 1);
                if g.at(x, yy) is Some {
                    lemma_no_overwrite(g, x, yy);
                    assert(false);
                }
            }
        }
        let tail_new = match gn.at(x, yy) {
            Some(b) => seq![b],
            None => Seq::<Block>::empty(),
        };
        assert(col_blocks(gn, x, yk) == col_blocks(gn, x, yy) + tail_new);
        assert(col_blocks(g, x, yk) == col_blocks(g, x, yy) + tail_old);
        assert(col_blocks(gn, x, yk) =~= col_blocks(g, x, yk) + boundary);
    }
}

/// One gravity tick preserves each column's blocks and their order.
pub proof fn lemma_step_preserves_columns(g: &Grid, gn: &Grid)
    requires
        g.wf(),
        gn.wf(),
        gn.same_dims(g),
        forall|a: int, b: int|
            g.in_bounds(a, b) ==> #[trigger] gn.at(a, b) == spec_stepped(g, a, b),
    ensures
        forall|x: int|
            0 <= x < g.width ==> #[trigger] col_blocks(gn, x, g.height as int) == col_blocks(
                g,
                x,
                g.height as int,
            ),
{
    assert forall|x: int|
        0 <= x < g.width implies #[trigger] col_blocks(gn, x, g.height as int) == col_blocks(
        g,
        x,
        g.height as int,
    ) by {
        lemma_col_blocks_stepped(g, gn, x, g.height as int);
        assert(col_blocks(gn, x, g.height as int) =~= col_blocks(g, x, g.height as int)
            + Seq::<Block>::empty());
        assert(col_blocks(g, x, g.height as int) + Seq::<Block>::empty() =~= col_blocks(
            g,
            x,
            g.height as int,
        ));
    }
}

/// The garbage-node mask of the board after one gravity tick.
pub open spec fn stepped_garb_nodes(g: &Grid) -> Seq<bool> {
    Seq::new(
        (g.width * g.height) as nat,
        |i: int| is_garbage_cell(spec_stepped(g, i % g.width as int, i / g.width as int)),
    )
}

/// The stepped garbage-node mask reads back the stepped cell contents.
pub proof fn lemma_stepped_garb_nodes_get(g: &Grid, x: int, y: int)
    requires
        g.wf(),
        g.in_bounds(x, y),
    ensures
        mask_get(stepped_garb_nodes(g), g.width as int, x, y) == is_garbage_cell(
            spec_stepped(g, x, y),
        ),
{
    lemma_flat(g.width as int, g.height as int, x, y);
}

/// A garbage component that qualifies to fall never splits: every cell of
/// the component lands exactly one row lower with its content unchanged, and
/// on the stepped board the landed cells are garbage cells still connected
/// to the landed seed.
pub proof fn lemma_component_falls_rigidly(g: &Grid, x: int, y: int, a: int, b: int)
    requires
        g.wf(),
        garb_can_fall(g, x, y),
        garb_conn(g, x, y, a, b),
    ensures
        spec_stepped(g, a, b - 1) == g.at(a, b),
        is_garbage_cell(spec_stepped(g, a, b - 1)),
        connected(stepped_garb_nodes(g), g.width as int, g.height as int, x, y - 1, a, b - 1),
{
    let w = g.width as int;
    let h = g.height as int;
    assert forall|a2: int, b2: int| #[trigger] garb_conn(g, x, y, a2, b2) implies spec_stepped(
        g,
        a2,
        b2 - 1,
    ) == g.at(a2, b2) && is_garbage_cell(g.at(a2, b2)) && g.in_bounds(a2, b2 - 1) by {
        lemma_component_member_falls(g, x, y, a2, b2);
        assert(spec_falls(g, a2, b2));
        assert((b2 - 1) + 1 < g.height);
    }
    lemma_component_member_falls(g, x, y, a, b);
    let p = choose|p: Seq<(int, int)>|
        #[trigger] is_path(garb_nodes(g), w, h, p) && p[0] == (x, y) && p.last() == (a, b);
    let n = p.len() as int;
    let q = Seq::new(p.len(), |i: int| (p[i].0, p[i].1 - 1));
    assert forall|i: int|
        0 <= i < q.len() implies node_at(stepped_garb_nodes(g), w, h, (#[trigger] q[i]).0, q[i].1)
        by {
        crate::connect::lemma_path_prefix_conn(garb_nodes(g), w, h, p, i);
        assert(garb_conn(g, x, y, p[i].0, p[i].1));
        lemma_component_member_falls(g, x, y, p[i].0, p[i].1);
        assert(q[i] == (p[i].0, p[i].1 - 1));
        lemma_stepped_garb_nodes_get(g, p[i].0, p[i].1 - 1);
        assert(spec_stepped(g, p[i].0, p[i].1 - 1) == g.at(p[i].0, p[i].1));
    }
    assert forall|i: int|
        0 <= i < q.len() - 1 implies adj4((#[trigger] q[i]).0, q[i].1, q[i + 1].0, q[i + 1].1) by {
        assert(adj4(p[i].0, p[i].1, p[i + 1].0, p[i + 1].1));
        assert(q[i] == (p[i].0, p[i].1 - 1));
        assert(q[i + 1] == (p[i + 1].0, p[i + 1].1 - 1));
    }
    assert(is_path(stepped_garb_nodes(g), w, h, q));
    assert(q[0] == (x, y - 1));
    assert(q.last() == (a, b - 1));
}

impl Grid {
    /// Apply gravity ticks until nothing moves: used for one-shot layout,
    /// not the per-frame staged descent of active play. Settling only
    /// rearranges material: each column ends with the blocks it started
    /// with, in the same bottom-up order.
    pub fn apply_gravity(&mut self)
        requires
            old(self).wf(),
        ensures
            final(self).wf(),
            final(self).same_dims(old(self)),
            !spec_any_falls(final(self)),
            forall|x: int|
                0 <= x < old(self).width ==> #[trigger] col_blocks(
                    final(self),
                    x,
                    old(self).height as int,
                ) == col_blocks(old(self), x, old(self).height as int),
    {
        let ghost w0 = self.width;
        let ghost h0 = self.height;
        let ghost g0 = *self;
        loop
            invariant
                self.wf(),
                self.width == w0,
                self.height == h0,
                g0.wf(),
                g0.width == w0,
                g0.height == h0,
                forall|x: int|
                    0 <= x < w0 ==> #[trigger] col_blocks(self, x, h0 as int) == col_blocks(
                        &g0,
                        x,
                        h0 as int,
                    ),
            ensures
                self.wf(),
                self.width == w0,
                self.height == h0,
                !spec_any_falls(self),
                forall|x: int|
                    0 <= x < w0 ==> #[trigger] col_blocks(self, x, h0 as int) == col_blocks(
                        &g0,
                        x,
                        h0 as int,
                    ),
            decreases board_weight(self),
        {
            let ghost gpre = *self;
            let moved = self.apply_gravity_step();
            proof {
                lemma_step_preserves_columns(&gpre, self);
            }
            if !moved {
                proof {
                    lemma_settled_fixed_point(&gpre);
                    assert forall|a: int, b: int|
                        self.in_bounds(a, b) implies #[trigger] self.at(a, b) == gpre.at(a, b) by {
                        assert(self.at(a, b) == spec_stepped(&gpre, a, b));
                    }
                    lemma_falls_congruence(self, &gpre);
                }
                break;
            }
            proof {
                lemma_step_decreases_weight(&gpre, self);
            }
        }
    }
}

impl Grid {
    /// The garbage-node mask as a vector.
    pub(crate) fn garbage_nodes(&self) -> (nodes: Vec<bool>)
        requires
            self.wf(),
        ensures
            nodes@ == garb_nodes(self),
    {
        let n = self.cells.len();
        let mut nodes: Vec<bool> = Vec::new();
        let mut i: usize = 0;
        while i < n
            invariant
                self.wf(),
                n == self.cells@.len(),
                nodes@.len() == i,
                i <= n,
                forall|j: int| 0 <= j < i ==> nodes@[j] == is_garbage_cell(self.cells@[j]),
            decreases n - i,
        {
            let g = match self.cells[i] {
                Some(b) => b.is_garbage(),
                None => false,
            };
            nodes.push(g);
            i = i + 1;
        }
        proof {
            assert(nodes@ =~= garb_nodes(self));
        }
        nodes
    }

    /// The fall mask: one boolean per cell, true exactly where `spec_falls`
    /// holds.
    fn falls_mask(&self) -> (m: Vec<bool>)
        requires
            self.wf(),
        ensures
            m@.len() == self.width * self.height,
            forall|x: int, y: int|
                self.in_bounds(x, y) ==> #[trigger] mask_get(m@, self.width as int, x, y)
                    == spec_falls(self, x, y),
    {
        let w = self.width;
        let h = self.height;
        let ghost wi = w as int;
        let ghost hi = h as int;
        let nodes = self.garbage_nodes();
        let n = self.cells.len();
        let mut m: Vec<bool> = Vec::new();
        let mut i: usize = 0;
        while i < n
            invariant
                m@.len() == i,
                i <= n,
                forall|j: int| 0 <= j < i ==> !m@[j],
            decreases n - i,
        {
            m.push(false);
            i = i + 1;
        }
        proof {
            assert forall|a: int, b: int|
                self.in_bounds(a, b) implies !(#[trigger] mask_get(m@, wi, a, b)) by {
                lemma_flat(wi, hi, a, b);
            }
        }
        let mut y: usize = 0;
        while y < h
            invariant
                self.wf(),
                wi == self.width,
                hi == self.height,
                w == self.width,
                h == self.height,
                nodes@ == garb_nodes(self),
                nodes@.len() == w * h,
                m@.len() == w * h,
                y <= h,
                forall|a: int, b: int|
                    self.in_bounds(a, b) ==> #[trigger] mask_get(m@, wi, a, b) == (b < y
                        && spec_falls(self, a, b)),
            decreases h - y,
        {
            let mut x: usize = 0;
            while x < w
                invariant
                    self.wf(),
                    wi == self.width,
                    hi == self.height,
                    w == self.width,
                    h == self.height,
                    nodes@ == garb_nodes(self),
                    nodes@.len() == w * h,
                    m@.len() == w * h,
                    y < h,
                    x <= w,
                    forall|a: int, b: int|
                        self.in_bounds(a, b) ==> #[trigger] mask_get(m@, wi, a, b) == ((b < y || (b
                            == y && a < x)) && spec_falls(self, a, b)),
                decreases w - x,
            {
                let cell = self.get(x, y);
                let falls: bool;
                match cell {
                    None => {
                        falls = false;
                        proof {
                            assert(!spec_falls(self, x as int, y as int));
                        }
                    },
                    Some(Block::Normal { .. }) => {
                        falls = y > 0 && self.get(x, y - 1).is_none();
                        proof {
                            assert(falls == spec_falls(self, x as int, y as int));
                        }
                    },
                    Some(Block::Garbage { .. }) => {
                        proof {
                            lemma_garb_nodes_get(self, x as int, y as int);
                        }
                        let comp = component_of(&nodes, w, h, x, y);
                        let mut ok = true;
                        let mut b: usize = 0;
                        while b < h
                            invariant
                                self.wf(),
                                wi == self.width,
                                hi == self.height,
                                w == self.width,
                                h == self.height,
                                nodes@ == garb_nodes(self),
                                comp@.len() == w * h,
                                x < w,
                                y < h,
                                b <= h,
                                forall|a2: int, b2: int|
                                    in_grid(wi, hi, a2, b2) ==> #[trigger] mask_get(
                                        comp@,
                                        wi,
                                        a2,
                                        b2,
                                    ) == garb_conn(self, x as int, y as int, a2, b2),
                                ok == (forall|a2: int, b2: int|
                                    in_grid(wi, hi, a2, b2) && b2 < b && #[trigger] mask_get(
                                        comp@,
                                        wi,
                                        a2,
                                        b2,
                                    ) ==> b2 > 0 && !is_normal_cell(self.at(a2, b2 - 1))),
                            decreases h - b,
                        {
                            let mut a: usize = 0;
                            while a < w
                                invariant
                                    self.wf(),
                                    wi == self.width,
                                    hi == self.height,
                                    w == self.width,
                                    h == self.height,
                                    nodes@ == garb_nodes(self),
                                    comp@.len() == w * h,
                                    x < w,
                                    y < h,
                                    b < h,
                                    a <= w,
                                    forall|a2: int, b2: int|
                                        in_grid(wi, hi, a2, b2) ==> #[trigger] mask_get(
                                            comp@,
                                            wi,
                                            a2,
                                            b2,
                                        ) == garb_conn(self, x as int, y as int, a2, b2),
                                    ok == (forall|a2: int, b2: int|
                                        in_grid(wi, hi, a2, b2) && (b2 < b || (b2 == b && a2 < a))
                                            && #[trigger] mask_get(comp@, wi, a2, b2) ==> b2 > 0
                                            && !is_normal_cell(self.at(a2, b2 - 1))),
                                decreases w - a,
                            {
                                if mask_read(&comp, w, h, a, b) {
                                    if b == 0 {
                                        ok = false;
                                    } else {
                                        let below = self.get(a, b - 1);
                                        let below_normal = match below {
                                            Some(Block::Normal { .. }) => true,
                                            _ => false,
                                        };
                                        if below_normal {
                                            ok = false;
                                        }
                                    }
                                }
                                a = a + 1;
                            }
                            b = b + 1;
                        }
                        falls = ok;
                        proof {
                            if ok {
                                assert forall|a2: int, b2: int|
                                    #[trigger] garb_conn(self, x as int, y as int, a2, b2) implies
                                b2 > 0 && !is_normal_cell(self.at(a2, b2 - 1)) by {
                                    lemma_conn_nodes(garb_nodes(self), wi, hi, x as int, y as int, a2, b2);
                                    assert(in_grid(wi, hi, a2, b2));
                                    assert(mask_get(comp@, wi, a2, b2));
                                }
                                assert(garb_can_fall(self, x as int, y as int));
                            } else {
                                let (a2, b2) = choose|a2: int, b2: int|
                                    in_grid(wi, hi, a2, b2) && b2 < hi && #[trigger] mask_get(
                                        comp@,
                                        wi,
                                        a2,
                                        b2,
                                    ) && !(b2 > 0 && !is_normal_cell(self.at(a2, b2 - 1)));
                                assert(garb_conn(self, x as int, y as int, a2, b2));
                                assert(!garb_can_fall(self, x as int, y as int));
                            }
                            assert(falls == spec_falls(self, x as int, y as int));
                        }
                    },
                }
                let ghost pre = m@;
                if falls {
                    mask_set_true(&mut m, w, h, x, y);
                }
                proof {
                    assert forall|a: int, b: int|
                        self.in_bounds(a, b) implies #[trigger] mask_get(m@, wi, a, b) == ((b < y
                        || (b == y && a < x + 1)) && spec_falls(self, a, b)) by {
                        if !(a == x as int && b == y as int) {
                            assert(mask_get(m@, wi, a, b) == mask_get(pre, wi, a, b));
                        }
                    }
                }
                x = x + 1;
            }
            y = y + 1;
        }
        m
    }

    /// Advance every loose piece of material by one row for one tick, and
    /// report whether anything moved.
    pub fn apply_gravity_step(&mut self) -> (moved: bool)
        requires
            old(self).wf(),
        ensures
            final(self).wf(),
            final(self).same_dims(old(self)),
            forall|x: int, y: int|
                old(self).in_bounds(x, y) ==> #[trigger] final(self).at(x, y) == spec_stepped(
                    old(self),
                    x,
                    y,
                ),
            moved == spec_any_falls(old(self)),
    {
        let w = self.width;
        let h = self.height;
        let ghost wi = w as int;
        let ghost hi = h as int;
        let fm = self.falls_mask();
        let mut moved = false;
        let mut y: usize = 0;
        while y < h
            invariant
                self.wf(),
                wi == self.width,
                hi == self.height,
                w == self.width,
                h == self.height,
                fm@.len() == w * h,
                y <= h,
                forall|a: int, b: int|
                    self.in_bounds(a, b) ==> #[trigger] mask_get(fm@, wi, a, b) == spec_falls(
                        self,
                        a,
                        b,
                    ),
                moved == (exists|a: int, b: int|
                    self.in_bounds(a, b) && b < y && #[trigger] spec_falls(self, a, b)),
            decreases h - y,
        {
            let mut x: usize = 0;
            while x < w
                invariant
                    self.wf(),
                    wi == self.width,
                    hi == self.height,
                    w == self.width,
                    h == self.height,
                    fm@.len() == w * h,
                    y < h,
                    x <= w,
                    forall|a: int, b: int|
                        self.in_bounds(a, b) ==> #[trigger] mask_get(fm@, wi, a, b) == spec_falls(
                            self,
                            a,
                            b,
                        ),
                    moved == (exists|a: int, b: int|
                        self.in_bounds(a, b) && (b < y || (b == y && a < x))
                            && #[trigger] spec_falls(self, a, b)),
                decreases w - x,
            {
                if mask_read(&fm, w, h, x, y) {
                    moved = true;
                }
                x = x + 1;
            }
            y = y + 1;
        }
        let ghost g0 = *self;
        let mut newc: Vec<Option<Block>> = Vec::new();
        let mut y2: usize = 0;
        while y2 < h
            invariant
                self.wf(),
                *self == g0,
                wi == self.width,
                hi == self.height,
                w == self.width,
                h == self.height,
                fm@.len() == w * h,
                y2 <= h,
                newc@.len() == y2 * wi,
                forall|a: int, b: int|
                    self.in_bounds(a, b) ==> #[trigger] mask_get(fm@, wi, a, b) == spec_falls(
                        self,
                        a,
                        b,
                    ),
                forall|a: int, b: int|
                    self.in_bounds(a, b) && b < y2 ==> newc@[b * wi + a] == #[trigger] spec_stepped(
                        self,
                        a,
                        b,
                    ),
            decreases h - y2,
        {
            let mut x2: usize = 0;
            while x2 < w
                invariant
                    self.wf(),
                    *self == g0,
                    wi == self.width,
                    hi == self.height,
                    w == self.width,
                    h == self.height,
                    fm@.len() == w * h,
                    y2 < h,
                    x2 <= w,
                    newc@.len() == y2 * wi + x2,
                    forall|a: int, b: int|
                        self.in_bounds(a, b) ==> #[trigger] mask_get(fm@, wi, a, b) == spec_falls(
                            self,
                            a,
                            b,
                        ),
                    forall|a: int, b: int|
                        self.in_bounds(a, b) && (b < y2 || (b == y2 && a < x2)) ==> newc@[b * wi + a]
                            == #[trigger] spec_stepped(self, a, b),
                decreases w - x2,
            {
                let v: Option<Block>;
                if y2 + 1 < h && mask_read(&fm, w, h, x2, y2 + 1) {
                    v = self.get(x2, y2 + 1);
                } else if mask_read(&fm, w, h, x2, y2) {
                    v = None;
                } else {
                    v = self.get(x2, y2);
                }
                proof {
                    assert(v == spec_stepped(self, x2 as int, y2 as int));
                    lemma_flat(wi, hi, x2 as int, y2 as int);
                }
                newc.push(v);
                proof {
                    assert forall|a: int, b: int|
                        self.in_bounds(a, b) && (b < y2 || (b == y2 && a < x2 + 1)) implies newc@[b
                        * wi + a] == #[trigger] spec_stepped(self, a, b) by {
                        lemma_flat(wi, hi, a, b);
                        if !(a == x2 as int && b == y2 as int) {
                            assert(b * wi + a < y2 * wi + x2) by (nonlinear_arith)
                                requires
                                    0 <= a < wi,
                                    0 <= b,
                                    (b < y2 || (b == y2 && a < x2)),
                                    x2 < w,
                                    wi == w,
                            ;
                        }
                    }
                }
                x2 = x2 + 1;
            }
            proof {
                assert((y2 + 1) as int * wi == y2 * wi + wi) by (nonlinear_arith);
            }
            y2 = y2 + 1;
        }
        self.cells = newc;
        proof {
            assert(self.cells@.len() == hi * wi);
            assert(self.wf()) by (nonlinear_arith)
                requires
                    self.cells@.len() == hi * wi,
                    wi == self.width,
                    hi == self.height,
            ;
            assert forall|x: int, y: int|
                old(self).in_bounds(x, y) implies #[trigger] self.at(x, y) == spec_stepped(
                &g0,
                x,
                y,
            ) by {
                lemma_flat(wi, hi, x, y);
            }
        }
        moved
    }

    /// True when some garbage component currently qualifies to fall; used to
    /// hold back the rise timer while garbage is still settling.
    pub fn has_falling_garbage(&self) -> (r: bool)
        requires
            self.wf(),
        ensures
            r == (exists|x: int, y: int|
                self.in_bounds(x, y) && #[trigger] garb_can_fall(self, x, y)),
    {
        let w = self.width;
        let h = self.height;
        let ghost wi = w as int;
        let ghost hi = h as int;
        let fm = self.falls_mask();
        let mut y: usize = 0;
        while y < h
            invariant
                self.wf(),
                wi == self.width,
                hi == self.height,
                w == self.width,
                h == self.height,
                fm@.len() == w * h,
                y <= h,
                forall|a: int, b: int|
                    self.in_bounds(a, b) ==> #[trigger] mask_get(fm@, wi, a, b) == spec_falls(
                        self,
                        a,
                        b,
                    ),
                forall|a: int, b: int|
                    self.in_bounds(a, b) && b < y ==> !#[trigger] garb_can_fall(self, a, b),
            decreases h - y,
        {
            let mut x: usize = 0;
            while x < w
                invariant
                    self.wf(),
                    wi == self.width,
                    hi == self.height,
                    w == self.width,
                    h == self.height,
                    fm@.len() == w * h,
                    y < h,
                    x <= w,
                    forall|a: int, b: int|
                        self.in_bounds(a, b) ==> #[trigger] mask_get(fm@, wi, a, b) == spec_falls(
                            self,
                            a,
                            b,
                        ),
                    forall|a: int, b: int|
                        self.in_bounds(a, b) && b < y ==> !#[trigger] garb_can_fall(self, a, b),
                    forall|a: int| 0 <= a < x ==> !#[trigger] garb_can_fall(self, a, y as int),
                decreases w - x,
            {
                let cell = self.get(x, y);
                let garb = match cell {
                    Some(b) => b.is_garbage(),
                    None => false,
                };
                if garb && mask_read(&fm, w, h, x, y) {
                    proof {
                        assert(spec_falls(self, x as int, y as int));
                        assert(garb_can_fall(self, x as int, y as int));
                    }
                    return true;
                }
                proof {
                    assert(!garb_can_fall(self, x as int, y as int));
                }
                x = x + 1;
            }
            y = y + 1;
        }
        false
    }
}

} // verus!

//! 4-connectivity over a boolean node mask laid out row-major, and a verified
//! flood fill that computes the connected component of a seed node. Both the
//! rigid fall of garbage components and the counting of match groups are
//! defined in terms of this notion of connectivity.

use vstd::prelude::*;
use crate::grid::lemma_flat;
use crate::util::count_true;
use crate::util::lemma_count_true_bounds;
use crate::util::lemma_count_true_set;

verus! {

/// 4-adjacency: the two coordinates differ by one step in exactly one axis.
pub open spec fn adj4(x: int, y: int, x2: int, y2: int) -> bool {
    (x2 == x && (y2 == y + 1 || y2 == y - 1)) || (y2 == y && (x2 == x + 1 || x2 == x - 1))
}

/// True when `(x, y)` is a coordinate of a `w` x `h` grid.
pub open spec fn in_grid(w: int, h: int, x: int, y: int) -> bool {
    0 <= x < w && 0 <= y < h
}

/// Entry of a row-major `w`-wide boolean mask at `(x, y)`.
pub open spec fn mask_get(m: Seq<bool>, w: int, x: int, y: int) -> bool {
    m[y * w + x]
}

/// True when `(x, y)` is in bounds and set in the node mask.
pub open spec fn node_at(nodes: Seq<bool>, w: int, h: int, x: int, y: int) -> bool {
    in_grid(w, h, x, y) && mask_get(nodes, w, x, y)
}

/// True when `p` walks through nodes of the mask, each consecutive pair
/// 4-adjacent.
pub open spec fn is_path(nodes: Seq<bool>, w: int, h: int, p: Seq<(int, int)>) -> bool {
    &&& p.len() >= 1
    &&& forall|i: int|
        0 <= i < p.len() ==> node_at(nodes, w, h, (#[trigger] p[i]).0, p[i].1)
    &&& forall|i: int|
        0 <= i < p.len() - 1 ==> adj4((#[trigger] p[i]).0, p[i].1, p[i + 1].0, p[i + 1].1)
}

/// Two cells are connected when some path of nodes joins them.
pub open spec fn connected(
    nodes: Seq<bool>,
    w: int,
    h: int,
    x: int,
    y: int,
    x2: int,
    y2: int,
) -> bool {
    exists|p: Seq<(int, int)>|
        #[trigger] is_path(nodes, w, h, p) && p[0] == (x, y) && p.last() == (x2, y2)
}

/// Both endpoints of a connection are nodes.
pub proof fn lemma_conn_nodes(nodes: Seq<bool>, w: int, h: int, x: int, y: int, x2: int, y2: int)
    requires
        connected(nodes, w, h, x, y, x2, y2),
    ensures
        node_at(nodes, w, h, x, y),
        node_at(nodes, w, h, x2, y2),
{
    let p = choose|p: Seq<(int, int)>|
        #[trigger] is_path(nodes, w, h, p) && p[0] == (x, y) && p.last() == (x2, y2);
    assert(node_at(nodes, w, h, p[0].0, p[0].1));
    assert(node_at(nodes, w, h, p[p.len() - 1].0, p[p.len() - 1].1));
}

/// Every node is connected to itself.
pub proof fn lemma_conn_refl(nodes: Seq<bool>, w: int, h: int, x: int, y: int)
    requires
        node_at(nodes, w, h, x, y),
    ensures
        connected(nodes, w, h, x, y, x, y),
{
    let p: Seq<(int, int)> = seq![(x, y)];
    assert(p.last() == (x, y));
    assert(is_path(nodes, w, h, p));
}

/// A connection extends by one adjacent node.
pub proof fn lemma_conn_step(
    nodes: Seq<bool>,
    w: int,
    h: int,
    x: int,
    y: int,
    x2: int,
    y2: int,
    x3: int,
    y3: int,
)
    requires
        connected(nodes, w, h, x, y, x2, y2),
        adj4(x2, y2, x3, y3),
        node_at(nodes, w, h, x3, y3),
    ensures
        connected(nodes, w, h, x, y, x3, y3),
{
    let p = choose|p: Seq<(int, int)>|
        #[trigger] is_path(nodes, w, h, p) && p[0] == (x, y) && p.last() == (x2, y2);
    let q = p.push((x3, y3));
    assert forall|i: int| 0 <= i < q.len() implies node_at(nodes, w, h, (#[trigger] q[i]).0, q[i].1)
        by {
        if i < p.len() {
            assert(q[i] == p[i]);
        } else {
            assert(q[i] == (x3, y3));
        }
    }
    assert forall|i: int|
        0 <= i < q.len() - 1 implies adj4((#[trigger] q[i]).0, q[i].1, q[i + 1].0, q[i + 1].1) by {
        if i < p.len() - 1 {
            assert(q[i] == p[i]);
            assert(q[i + 1] == p[i + 1]);
        } else {
            assert(q[i] == p[p.len() - 1]);
            assert(q[i + 1] == (x3, y3));
        }
    }
    assert(is_path(nodes, w, h, q));
    assert(q[0] == (x, y));
    assert(q.last() == (x3, y3));
}

/// Connectivity is transitive.
pub proof fn lemma_conn_trans(
    nodes: Seq<bool>,
    w: int,
    h: int,
    x: int,
    y: int,
    x2: int,
    y2: int,
    x3: int,
    y3: int,
)
    requires
        connected(nodes, w, h, x, y, x2, y2),
        connected(nodes, w, h, x2, y2, x3, y3),
    ensures
        connected(nodes, w, h, x, y, x3, y3),
{
    let p = choose|p: Seq<(int, int)>|
        #[trigger] is_path(nodes, w, h, p) && p[0] == (x, y) && p.last() == (x2, y2);
    let q = choose|q: Seq<(int, int)>|
        #[trigger] is_path(nodes, w, h, q) && q[0] == (x2, y2) && q.last() == (x3, y3);
    let r = p + q.subrange(1, q.len() as int);
    let pn = p.len() as int;
    assert forall|i: int| 0 <= i < r.len() implies node_at(nodes, w, h, (#[trigger] r[i]).0, r[i].1)
        by {
        if i < pn {
            assert(r[i] == p[i]);
        } else {
            assert(r[i] == q[i - pn + 1]);
            assert(node_at(nodes, w, h, q[i - pn + 1].0, q[i - pn + 1].1));
        }
    }
    assert forall|i: int|
        0 <= i < r.len() - 1 implies adj4((#[trigger] r[i]).0, r[i].1, r[i + 1].0, r[i + 1].1) by {
        if i < pn - 1 {
            assert(r[i] == p[i]);
            assert(r[i + 1] == p[i + 1]);
        } else if i == pn - 1 {
            assert(r[i] == p[pn - 1]);
            assert(r[i + 1] == q[1]);
            assert(p[pn - 1] == q[0]);
            assert(adj4(q[0].0, q[0].1, q[1].0, q[1].1));
        } else {
            assert(r[i] == q[i - pn + 1]);
            assert(r[i + 1] == q[i - pn + 2]);
            assert(adj4(q[i - pn + 1].0, q[i - pn + 1].1, q[i - pn + 2].0, q[i - pn + 2].1));
        }
    }
    assert(is_path(nodes, w, h, r));
    assert(r[0] == (x, y));
    if q.len() == 1 {
        assert(r =~= p);
        assert(r.last() == (x3, y3));
    } else {
        assert(r.last() == q[q.len() - 1]);
    }
}

/// The start of a path is connected to every cell on it.
pub proof fn lemma_path_prefix_conn(nodes: Seq<bool>, w: int, h: int, p: Seq<(int, int)>, i: int)
    requires
        is_path(nodes, w, h, p),
        0 <= i < p.len(),
    ensures
        connected(nodes, w, h, p[0].0, p[0].1, p[i].0, p[i].1),
{
    let q = p.take(i + 1);
    assert forall|k: int| 0 <= k < q.len() implies node_at(nodes, w, h, (#[trigger] q[k]).0, q[k].1)
        by {
        assert(q[k] == p[k]);
        assert(node_at(nodes, w, h, p[k].0, p[k].1));
    }
    assert forall|k: int|
        0 <= k < q.len() - 1 implies adj4((#[trigger] q[k]).0, q[k].1, q[k + 1].0, q[k + 1].1) by {
        assert(q[k] == p[k]);
        assert(q[k + 1] == p[k + 1]);
        assert(adj4(p[k].0, p[k].1, p[k + 1].0, p[k + 1].1));
    }
    assert(is_path(nodes, w, h, q));
    assert(q[0] == p[0] && q.last() == p[i]);
    assert(q[0] == (p[0].0, p[0].1));
    assert(q.last() == (p[i].0, p[i].1));
}

/// A mask is closed when it contains every node adjacent to a cell it
/// contains.
pub open spec fn region_closed(nodes: Seq<bool>, w: int, h: int, m: Seq<bool>) -> bool {
    forall|x: int, y: int, x2: int, y2: int|
        #![trigger mask_get(m, w, x, y), node_at(nodes, w, h, x2, y2)]
        in_grid(w, h, x, y) && mask_get(m, w, x, y) && adj4(x, y, x2, y2)
            && node_at(nodes, w, h, x2, y2) ==> mask_get(m, w, x2, y2)
}

/// A closed mask containing the start of a path contains its end.
pub proof fn lemma_closed_covers_path(
    nodes: Seq<bool>,
    w: int,
    h: int,
    m: Seq<bool>,
    p: Seq<(int, int)>,
)
    requires
        is_path(nodes, w, h, p),
        region_closed(nodes, w, h, m),
        mask_get(m, w, p[0].0, p[0].1),
    ensures
        mask_get(m, w, p.last().0, p.last().1),
    decreases p.len(),
{
    if p.len() > 1 {
        assert(adj4(p[0].0, p[0].1, p[1].0, p[1].1));
        assert(node_at(nodes, w, h, p[1].0, p[1].1));
        assert(node_at(nodes, w, h, p[0].0, p[0].1));
        assert(mask_get(m, w, p[1].0, p[1].1));
        let q = p.subrange(1, p.len() as int);
        assert forall|k: int|
            0 <= k < q.len() implies node_at(nodes, w, h, (#[trigger] q[k]).0, q[k].1) by {
            assert(q[k] == p[k + 1]);
            assert(node_at(nodes, w, h, p[k + 1].0, p[k + 1].1));
        }
        assert forall|k: int|
            0 <= k < q.len() - 1 implies adj4((#[trigger] q[k]).0, q[k].1, q[k + 1].0, q[k + 1].1)
            by {
            assert(q[k] == p[k + 1]);
            assert(q[k + 1] == p[k + 2]);
            assert(adj4(p[k + 1].0, p[k + 1].1, p[k + 2].0, p[k + 2].1));
        }
        assert(is_path(nodes, w, h, q));
        lemma_closed_covers_path(nodes, w, h, m, q);
        assert(q.last() == p.last());
    }
}

/// True when `(x, y)` occurs in the work stack.
pub open spec fn in_stack(st: Seq<(usize, usize)>, x: int, y: int) -> bool {
    exists|k: int| 0 <= k < st.len() && (#[trigger] st[k]).0 == x && st[k].1 == y
}

/// True when every stack entry is an in-bounds, already-marked cell.
pub open spec fn stack_ok(st: Seq<(usize, usize)>, m: Seq<bool>, w: int, h: int) -> bool {
    forall|k: int|
        0 <= k < st.len() ==> {
            &&& (#[trigger] st[k]).0 < w
            &&& st[k].1 < h
            &&& mask_get(m, w, st[k].0 as int, st[k].1 as int)
        }
}

/// Everything marked is a node connected to the seed.
pub open spec fn marks_sound(
    nodes: Seq<bool>,
    w: int,
    h: int,
    m: Seq<bool>,
    sx: int,
    sy: int,
) -> bool {
    forall|x: int, y: int|
        in_grid(w, h, x, y) && #[trigger] mask_get(m, w, x, y) ==> node_at(nodes, w, h, x, y)
            && connected(nodes, w, h, sx, sy, x, y)
}

/// Every marked cell outside the work stack already has all its adjacent
/// nodes marked.
pub open spec fn closed_except_stack(
    nodes: Seq<bool>,
    w: int,
    h: int,
    m: Seq<bool>,
    st: Seq<(usize, usize)>,
) -> bool {
    forall|x: int, y: int, x2: int, y2: int|
        #![trigger mask_get(m, w, x, y), node_at(nodes, w, h, x2, y2)]
        in_grid(w, h, x, y) && mask_get(m, w, x, y) && !in_stack(st, x, y) && adj4(x, y, x2, y2)
            && node_at(nodes, w, h, x2, y2) ==> mask_get(m, w, x2, y2)
}

/// Read a row-major mask at `(x, y)`.
pub fn mask_read(m: &Vec<bool>, width: usize, height: usize, x: usize, y: usize) -> (b: bool)
    requires
        m@.len() == width * height,
        x < width,
        y < height,
    ensures
        b == mask_get(m@, width as int, x as int, y as int),
{
    proof {
        lemma_flat(width as int, height as int, x as int, y as int);
    }
    let n = m.len();
    m[y * width + x]
}

/// Set a row-major mask to `true` at `(x, y)`.
pub fn mask_set_true(m: &mut Vec<bool>, width: usize, height: usize, x: usize, y: usize)
    requires
        old(m)@.len() == width * height,
        x < width,
        y < height,
    ensures
        final(m)@.len() == old(m)@.len(),
        mask_get(final(m)@, width as int, x as int, y as int),
        forall|a: int, b: int|
            in_grid(width as int, height as int, a, b) && !(a == x && b == y)
                ==> #[trigger] mask_get(final(m)@, width as int, a, b) == mask_get(
                old(m)@,
                width as int,
                a,
                b,
            ),
{
    proof {
        lemma_flat(width as int, height as int, x as int, y as int);
    }
    let n = m.len();
    m.set(y * width + x, true);
    proof {
        assert forall|a: int, b: int|
            in_grid(width as int, height as int, a, b) && !(a == x && b == y) implies #[trigger] mask_get(
            m@,
            width as int,
            a,
            b,
        ) == mask_get(old(m)@, width as int, a, b) by {
            lemma_flat(width as int, height as int, a, b);
        }
    }
}

/// Visit one neighbor during the flood fill: when it is an unmarked node,
/// mark it and put it on the work stack; otherwise change nothing.
fn visit(
    nodes: &Vec<bool>,
    width: usize,
    height: usize,
    m: &mut Vec<bool>,
    stack: &mut Vec<(usize, usize)>,
    x: usize,
    y: usize,
) -> (marked: bool)
    requires
        nodes@.len() == width * height,
        old(m)@.len() == width * height,
        x < width,
        y < height,
    ensures
        ({
            let w = width as int;
            let grow = node_at(nodes@, w, height as int, x as int, y as int) && !mask_get(
                old(m)@,
                w,
                x as int,
                y as int,
            );
            &&& marked == grow
            &&& grow ==> final(m)@ == old(m)@.update(y * w + x, true) && final(stack)@ == old(
                stack,
            )@.push((x, y))
            &&& !grow ==> final(m)@ == old(m)@ && final(stack)@ == old(stack)@
        }),
{
    proof {
        lemma_flat(width as int, height as int, x as int, y as int);
    }
    let n = nodes.len();
    let i = y * width + x;
    if nodes[i] && !m[i] {
        m.set(i, true);
        stack.push((x, y));
        true
    } else {
        false
    }
}

/// Process the four neighbors of the freshly popped cell `(cx, cy)`,
/// restoring the flood fill's invariants with the cell itself closed.
#[verifier::rlimit(60)]
fn expand(
    nodes: &Vec<bool>,
    width: usize,
    height: usize,
    m: &mut Vec<bool>,
    stack: &mut Vec<(usize, usize)>,
    cx: usize,
    cy: usize,
    seed: Ghost<(int, int)>,
)
    requires
        nodes@.len() == width * height,
        old(m)@.len() == width * height,
        cx < width,
        cy < height,
        in_grid(width as int, height as int, seed@.0, seed@.1),
        mask_get(old(m)@, width as int, seed@.0, seed@.1),
        mask_get(old(m)@, width as int, cx as int, cy as int),
        connected(nodes@, width as int, height as int, seed@.0, seed@.1, cx as int, cy as int),
        stack_ok(old(stack)@, old(m)@, width as int, height as int),
        marks_sound(nodes@, width as int, height as int, old(m)@, seed@.0, seed@.1),
        forall|x: int, y: int, x2: int, y2: int|
            #![trigger mask_get(old(m)@, width as int, x, y), node_at(nodes@, width as int, height as int, x2, y2)]
            in_grid(width as int, height as int, x, y) && mask_get(old(m)@, width as int, x, y)
                && !in_stack(old(stack)@, x, y) && !(x == cx && y == cy) && adj4(x, y, x2, y2)
                && node_at(nodes@, width as int, height as int, x2, y2) ==> mask_get(
                old(m)@,
                width as int,
                x2,
                y2,
            ),
    ensures
        final(m)@.len() == old(m)@.len(),
        mask_get(final(m)@, width as int, seed@.0, seed@.1),
        stack_ok(final(stack)@, final(m)@, width as int, height as int),
        marks_sound(nodes@, width as int, height as int, final(m)@, seed@.0, seed@.1),
        closed_except_stack(nodes@, width as int, height as int, final(m)@, final(stack)@),
        2 * (final(m)@.len() - count_true(final(m)@)) + final(stack)@.len() <= 2 * (old(m)@.len()
            - count_true(old(m)@)) + old(stack)@.len(),
{
    let ghost w = width as int;
    let ghost h = height as int;
    let ghost m0 = m@;
    let ghost st0 = stack@;
    let lx = if cx > 0 { cx - 1 } else { 0 };
    let l_in = cx > 0;
    if l_in {
        step_neighbor(nodes, width, height, m, stack, lx, cy, seed, Ghost((cx as int, cy as int)));
    }
    let ghost m1 = m@;
    let ghost st1 = stack@;
    let rx = if cx + 1 < width { cx + 1 } else { 0 };
    let r_in = cx + 1 < width;
    if r_in {
        step_neighbor(nodes, width, height, m, stack, rx, cy, seed, Ghost((cx as int, cy as int)));
    }
    let ghost m2 = m@;
    let ghost st2 = stack@;
    let dy = if cy > 0 { cy - 1 } else { 0 };
    let d_in = cy > 0;
    if d_in {
        step_neighbor(nodes, width, height, m, stack, cx, dy, seed, Ghost((cx as int, cy as int)));
    }
    let ghost m3 = m@;
    let ghost st3 = stack@;
    let uy = if cy + 1 < height { cy + 1 } else { 0 };
    let u_in = cy + 1 < height;
    if u_in {
        step_neighbor(nodes, width, height, m, stack, cx, uy, seed, Ghost((cx as int, cy as int)));
    }
    let ghost m4 = m@;
    let ghost st4 = stack@;
    proof {
        assert forall|x: int, y: int, x2: int, y2: int|
            #![trigger mask_get(m4, w, x, y), node_at(nodes@, w, h, x2, y2)]
            in_grid(w, h, x, y) && mask_get(m4, w, x, y) && !in_stack(st4, x, y) && adj4(
                x,
                y,
                x2,
                y2,
            ) && node_at(nodes@, w, h, x2, y2) implies mask_get(m4, w, x2, y2) by {
            if x == cx && y == cy {
                // The four neighbors of the popped cell were all just visited.
                if x2 == x - 1 && y2 == y {
                    assert(l_in);
                    assert(mask_get(m1, w, x2, y2));
                    assert(mask_get(m2, w, x2, y2));
                    assert(mask_get(m3, w, x2, y2));
                } else if x2 == x + 1 && y2 == y {
                    assert(r_in);
                    assert(mask_get(m2, w, x2, y2));
                    assert(mask_get(m3, w, x2, y2));
                } else if x2 == x && y2 == y - 1 {
                    assert(d_in);
                    assert(mask_get(m3, w, x2, y2));
                } else {
                    assert(x2 == x && y2 == y + 1);
                    assert(u_in);
                }
                assert(mask_get(m4, w, x2, y2));
            } else {
                if mask_get(m0, w, x, y) {
                    // A previously closed cell: its membership in the stack
                    // only ever grows, so it was outside the stack before.
                    assert(!in_stack(st0, x, y)) by {
                        if in_stack(st0, x, y) {
                            assert(in_stack(st1, x, y));
                            assert(in_stack(st2, x, y));
                            assert(in_stack(st3, x, y));
                            assert(in_stack(st4, x, y));
                        }
                    }
                    assert(mask_get(m0, w, x2, y2));
                    assert(mask_get(m1, w, x2, y2));
                    assert(mask_get(m2, w, x2, y2));
                    assert(mask_get(m3, w, x2, y2));
                    assert(mask_get(m4, w, x2, y2));
                } else {
                    // Newly marked this round: then it was pushed, and stays
                    // on the stack, contradicting the premise.
                    if mask_get(m1, w, x, y) {
                        assert(x == lx as int && y == cy as int);
                        assert(in_stack(st1, x, y));
                        assert(in_stack(st2, x, y));
                        assert(in_stack(st3, x, y));
                        assert(in_stack(st4, x, y));
                    } else if mask_get(m2, w, x, y) {
                        assert(x == rx as int && y == cy as int);
                        assert(in_stack(st2, x, y));
                        assert(in_stack(st3, x, y));
                        assert(in_stack(st4, x, y));
                    } else if mask_get(m3, w, x, y) {
                        assert(x == cx as int && y == dy as int);
                        assert(in_stack(st3, x, y));
                        assert(in_stack(st4, x, y));
                    } else {
                        assert(x == cx as int && y == uy as int);
                        assert(in_stack(st4, x, y));
                    }
                }
            }
        }
    }
}

/// One neighbor step of the flood fill, re-establishing the inductive facts
/// around a call to `visit`.
fn step_neighbor(
    nodes: &Vec<bool>,
    width: usize,
    height: usize,
    m: &mut Vec<bool>,
    stack: &mut Vec<(usize, usize)>,
    x: usize,
    y: usize,
    seed: Ghost<(int, int)>,
    cur: Ghost<(int, int)>,
) -> (marked: bool)
    requires
        nodes@.len() == width * height,
        old(m)@.len() == width * height,
        x < width,
        y < height,
        in_grid(width as int, height as int, cur@.0, cur@.1),
        in_grid(width as int, height as int, seed@.0, seed@.1),
        adj4(cur@.0, cur@.1, x as int, y as int),
        connected(nodes@, width as int, height as int, seed@.0, seed@.1, cur@.0, cur@.1),
        mask_get(old(m)@, width as int, seed@.0, seed@.1),
        stack_ok(old(stack)@, old(m)@, width as int, height as int),
        marks_sound(nodes@, width as int, height as int, old(m)@, seed@.0, seed@.1),
    ensures
        ({
            let w = width as int;
            let h = height as int;
            let grow = node_at(nodes@, w, h, x as int, y as int) && !mask_get(
                old(m)@,
                w,
                x as int,
                y as int,
            );
            &&& marked == grow
            &&& !grow ==> final(m)@ == old(m)@ && final(stack)@ == old(stack)@
            &&& grow ==> count_true(final(m)@) == count_true(old(m)@) + 1 && final(stack)@.len()
                == old(stack)@.len() + 1
            &&& final(m)@.len() == old(m)@.len()
            &&& mask_get(final(m)@, w, seed@.0, seed@.1)
            &&& node_at(nodes@, w, h, x as int, y as int) ==> mask_get(
                final(m)@,
                w,
                x as int,
                y as int,
            )
            &&& stack_ok(final(stack)@, final(m)@, w, h)
            &&& marks_sound(nodes@, w, h, final(m)@, seed@.0, seed@.1)
            &&& (forall|a: int, b: int|
                in_grid(w, h, a, b) && #[trigger] mask_get(old(m)@, w, a, b) ==> mask_get(
                    final(m)@,
                    w,
                    a,
                    b,
                ))
            &&& (forall|a: int, b: int|
                in_grid(w, h, a, b) && #[trigger] mask_get(final(m)@, w, a, b) ==> mask_get(
                    old(m)@,
                    w,
                    a,
                    b,
                ) || (a == x as int && b == y as int && grow))
            &&& (forall|a: int, b: int| #[trigger] in_stack(old(stack)@, a, b) ==> in_stack(
                final(stack)@,
                a,
                b,
            ))
            &&& (grow ==> in_stack(final(stack)@, x as int, y as int))
        }),
{
    let ghost w = width as int;
    let ghost h = height as int;
    proof {
        lemma_flat(w, h, x as int, y as int);
        lemma_flat(w, h, seed@.0, seed@.1);
        if node_at(nodes@, w, h, x as int, y as int) {
            lemma_conn_step(nodes@, w, h, seed@.0, seed@.1, cur@.0, cur@.1, x as int, y as int);
        }
    }
    let r = visit(nodes, width, height, m, stack, x, y);
    proof {
        if r {
            lemma_count_true_set(old(m)@, y * w + x);
            assert forall|a: int, b: int|
                in_grid(w, h, a, b) && #[trigger] mask_get(m@, w, a, b) implies node_at(
                nodes@,
                w,
                h,
                a,
                b,
            ) && connected(nodes@, w, h, seed@.0, seed@.1, a, b) by {
                lemma_flat(w, h, a, b);
                if b * w + a != y * w + x {
                    assert(mask_get(old(m)@, w, a, b));
                } else {
                    assert(a == x as int && b == y as int);
                }
            }
            assert forall|a: int, b: int|
                in_grid(w, h, a, b) && #[trigger] mask_get(old(m)@, w, a, b) implies mask_get(
                m@,
                w,
                a,
                b,
            ) by {
                lemma_flat(w, h, a, b);
            }
            assert forall|a: int, b: int|
                in_grid(w, h, a, b) && #[trigger] mask_get(m@, w, a, b) implies mask_get(
                old(m)@,
                w,
                a,
                b,
            ) || (a == x as int && b == y as int) by {
                lemma_flat(w, h, a, b);
            }
            assert forall|k: int| 0 <= k < stack@.len() implies {
                &&& (#[trigger] stack@[k]).0 < width
                &&& stack@[k].1 < height
                &&& mask_get(m@, w, stack@[k].0 as int, stack@[k].1 as int)
            } by {
                if k < old(stack)@.len() {
                    assert(stack@[k] == old(stack)@[k]);
                    assert(mask_get(old(m)@, w, old(stack)@[k].0 as int, old(stack)@[k].1 as int));
                    lemma_flat(w, h, stack@[k].0 as int, stack@[k].1 as int);
                } else {
                    assert(stack@[k] == (x, y));
                }
            }
            assert forall|a: int, b: int| #[trigger] in_stack(old(stack)@, a, b) implies in_stack(
                stack@,
                a,
                b,
            ) by {
                let k = choose|k: int|
                    0 <= k < old(stack)@.len() && (#[trigger] old(stack)@[k]).0 == a && old(
                        stack,
                    )@[k].1 == b;
                assert(stack@[k] == old(stack)@[k]);
            }
            assert(stack@[stack@.len() - 1] == (x, y));
            assert(in_stack(stack@, x as int, y as int));
            assert(mask_get(m@, w, seed@.0, seed@.1));
            assert(mask_get(m@, w, x as int, y as int));
        } else {
            if node_at(nodes@, w, h, x as int, y as int) {
                assert(mask_get(m@, w, x as int, y as int));
            }
        }
    }
    r
}

/// The connected component of the seed node `(sx, sy)`: a mask set exactly
/// on the cells connected to the seed.
pub fn component_of(
    nodes: &Vec<bool>,
    width: usize,
    height: usize,
    sx: usize,
    sy: usize,
) -> (m: Vec<bool>)
    requires
        nodes@.len() == width * height,
        node_at(nodes@, width as int, height as int, sx as int, sy as int),
    ensures
        m@.len() == width * height,
        forall|x: int, y: int|
            in_grid(width as int, height as int, x, y)
                ==> (#[trigger] mask_get(m@, width as int, x, y)) == connected(
                nodes@,
                width as int,
                height as int,
                sx as int,
                sy as int,
                x,
                y,
            ),
{
    let ghost w = width as int;
    let ghost h = height as int;
    let n = nodes.len();
    let mut m: Vec<bool> = Vec::new();
    let mut i: usize = 0;
    while i < n
        invariant
            m@.len() == i,
            i <= n,
            forall|j: int| 0 <= j < i ==> !m@[j],
        decreases n - i,
    {
        m.push(false);
        i = i + 1;
    }
    proof {
        lemma_flat(w, h, sx as int, sy as int);
    }
    let si = sy * width + sx;
    m.set(si, true);
    let mut stack: Vec<(usize, usize)> = Vec::new();
    stack.push((sx, sy));
    proof {
        lemma_conn_refl(nodes@, w, h, sx as int, sy as int);
        assert forall|x: int, y: int|
            in_grid(w, h, x, y) && #[trigger] mask_get(m@, w, x, y) implies node_at(nodes@, w, h, x, y)
            && connected(nodes@, w, h, sx as int, sy as int, x, y) by {
            lemma_flat(w, h, x, y);
            assert(y * w + x == sy * w + sx);
            assert(x == sx as int && y == sy as int);
        }
        assert(stack@[0] == (sx, sy));
        assert(in_stack(stack@, sx as int, sy as int));
        assert forall|x: int, y: int, x2: int, y2: int|
            #![trigger mask_get(m@, w, x, y), node_at(nodes@, w, h, x2, y2)]
            in_grid(w, h, x, y) && mask_get(m@, w, x, y) && !in_stack(stack@, x, y) && adj4(
                x,
                y,
                x2,
                y2,
            ) && node_at(nodes@, w, h, x2, y2) implies mask_get(m@, w, x2, y2) by {
            lemma_flat(w, h, x, y);
            assert(x == sx as int && y == sy as int);
        }
    }
    while stack.len() > 0
        invariant
            nodes@.len() == width * height,
            m@.len() == width * height,
            w == width as int,
            h == height as int,
            mask_get(m@, w, sx as int, sy as int),
            stack_ok(stack@, m@, w, h),
            marks_sound(nodes@, w, h, m@, sx as int, sy as int),
            closed_except_stack(nodes@, w, h, m@, stack@),
        decreases 2 * (m@.len() - count_true(m@)) + stack@.len(),
    {
        proof {
            lemma_count_true_bounds(m@);
        }
        let ghost st_pre = stack@;
        let c = stack.pop().unwrap();
        let (cx, cy) = c;
        proof {
            assert(st_pre[st_pre.len() - 1] == c);
            assert(mask_get(m@, w, cx as int, cy as int));
            assert(connected(nodes@, w, h, sx as int, sy as int, cx as int, cy as int));
            assert forall|k: int| 0 <= k < stack@.len() implies {
                &&& (#[trigger] stack@[k]).0 < width
                &&& stack@[k].1 < height
                &&& mask_get(m@, w, stack@[k].0 as int, stack@[k].1 as int)
            } by {
                assert(stack@[k] == st_pre[k]);
            }
            assert forall|x: int, y: int, x2: int, y2: int|
                #![trigger mask_get(m@, w, x, y), node_at(nodes@, w, h, x2, y2)]
                in_grid(w, h, x, y) && mask_get(m@, w, x, y) && !in_stack(stack@, x, y) && !(x
                    == cx && y == cy) && adj4(x, y, x2, y2) && node_at(nodes@, w, h, x2, y2)
                implies mask_get(m@, w, x2, y2) by {
                assert(!in_stack(st_pre, x, y)) by {
                    if in_stack(st_pre, x, y) {
                        let k = choose|k: int|
                            0 <= k < st_pre.len() && (#[trigger] st_pre[k]).0 == x && st_pre[k].1
                                == y;
                        if k < st_pre.len() - 1 {
                            assert(stack@[k] == st_pre[k]);
                            assert(in_stack(stack@, x, y));
                        } else {
                            assert(st_pre[k] == c);
                        }
                    }
                }
            }
        }
        expand(nodes, width, height, &mut m, &mut stack, cx, cy, Ghost((sx as int, sy as int)));
        proof {
            lemma_count_true_bounds(m@);
        }
    }
    proof {
        assert forall|x: int, y: int| in_grid(w, h, x, y) implies (#[trigger] mask_get(m@, w, x, y))
            == connected(nodes@, w, h, sx as int, sy as int, x, y) by {
            if connected(nodes@, w, h, sx as int, sy as int, x, y) {
                let p = choose|p: Seq<(int, int)>|
                    #[trigger] is_path(nodes@, w, h, p) && p[0] == (sx as int, sy as int)
                        && p.last() == (x, y);
                assert(region_closed(nodes@, w, h, m@)) by {
                    assert forall|a: int, b: int, a2: int, b2: int|
                        #![trigger mask_get(m@, w, a, b), node_at(nodes@, w, h, a2, b2)]
                        in_grid(w, h, a, b) && mask_get(m@, w, a, b) && adj4(a, b, a2, b2)
                            && node_at(nodes@, w, h, a2, b2) implies mask_get(m@, w, a2, b2) by {
                        assert(!in_stack(stack@, a, b));
                    }
                }
                assert(mask_get(m@, w, p[0].0, p[0].1));
                lemma_closed_covers_path(nodes@, w, h, m@, p);
                assert(p.last().0 == x && p.last().1 == y);
            }
        }
    }
    m
}

} // verus!

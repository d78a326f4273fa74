//! The match session: one or two player slots, the terminal state with its
//! winner, and the cross-player garbage exchange. The host loop drives the
//! session once per frame through the per-tick methods, in the fixed order
//! gravity step, clear delay, garbage resolution, rise.

use vstd::prelude::*;
use crate::player::PlayerState;
use crate::player::elapsed_tick_rel;
use crate::player::gravity_tick_rel;
use crate::player::clear_tick_rel;
use crate::player::rise_tick_rel;
use crate::player::rise_over;
use crate::player::rise_pause_tick_rel;
use crate::garbage::rows_fit;
use crate::garbage::garbage_target;
use crate::block::Block;
use crate::rng::rand_below;
use crate::util::sat_add_u32;

verus! {

/// Which player a session fact speaks of.
#[derive(Clone, Copy, Debug, PartialEq, Eq, Structural)]
pub enum PlayerId {
    P1,
    P2,
}

/// The occupied cells of `row` are exactly the contiguous run of length
/// `len` starting at `s`.
pub open spec fn contiguous_run(row: Seq<bool>, width: int, s: int, len: int) -> bool {
    forall|x: int| 0 <= x < width ==> (#[trigger] row[x]) == (s <= x < s + len)
}

/// The attack rows built from `units` garbage units on a `width`-wide
/// board: full rows first, then one partial row whose occupied cells form
/// one contiguous run of the leftover length, placed anywhere in the row.
pub open spec fn rows_shape(rows: Seq<Vec<bool>>, width: int, units: int) -> bool {
    if units == 0 || width == 0 {
        rows.len() == 0
    } else {
        let full = units / width;
        let rem = units % width;
        &&& rows.len() == full + (if rem > 0 {
            1int
        } else {
            0int
        })
        &&& (forall|r: int| 0 <= r < full ==> (#[trigger] rows[r])@.len() == width)
        &&& (forall|r: int, x: int|
            0 <= r < full && 0 <= x < width ==> (#[trigger] rows[r]@[x]))
        &&& (rem > 0 ==> (#[trigger] rows[full])@.len() == width && (exists|s: int|
            0 <= s <= width - rem && #[trigger] contiguous_run(rows[full]@, width, s, rem)))
    }
}

/// A row of `width` occupied cells.
fn full_row(width: usize) -> (row: Vec<bool>)
    ensures
        row@.len() == width,
        forall|x: int| 0 <= x < width ==> row@[x],
{
    let mut row: Vec<bool> = Vec::new();
    let mut x: usize = 0;
    while x < width
        invariant
            row@.len() == x,
            x <= width,
            forall|j: int| 0 <= j < x ==> row@[j],
        decreases width - x,
    {
        row.push(true);
        x = x + 1;
    }
    row
}

/// A row whose `blocks` occupied cells form one contiguous run starting at
/// a randomly chosen position; a request of a full row or more occupies
/// everything.
fn build_partial_garbage_row(width: usize, blocks: usize) -> (row: Vec<bool>)
    requires
        1 <= blocks,
        width >= 1,
        width <= u32::MAX,
    ensures
        row@.len() == width,
        blocks >= width ==> forall|x: int| 0 <= x < width ==> row@[x],
        blocks < width ==> exists|s: int|
            0 <= s <= width - blocks && #[trigger] contiguous_run(
                row@,
                width as int,
                s,
                blocks as int,
            ),
{
    if blocks >= width {
        return full_row(width);
    }
    let max_start = width - blocks;
    let start = rand_below((max_start + 1) as u32) as usize;
    let mut row: Vec<bool> = Vec::new();
    let mut x: usize = 0;
    while x < width
        invariant
            row@.len() == x,
            x <= width,
            start <= max_start,
            max_start == width - blocks,
            forall|j: int| 0 <= j < x ==> (#[trigger] row@[j]) == (start <= j < start + blocks),
        decreases width - x,
    {
        row.push(start <= x && x < start + blocks);
        x = x + 1;
    }
    proof {
        assert(0 <= start as int <= width - blocks);
        assert(contiguous_run(row@, width as int, start as int, blocks as int));
    }
    row
}

/// Divide incoming garbage units into full-width rows plus one partial row
/// with a randomly placed contiguous run.
pub fn build_garbage_rows(width: usize, units: u32) -> (rows: Vec<Vec<bool>>)
    requires
        width <= u32::MAX,
    ensures
        rows_shape(rows@, width as int, units as int),
{
    if units == 0 || width == 0 {
        let rows: Vec<Vec<bool>> = Vec::new();
        return rows;
    }
    let u = units as usize;
    let full = u / width;
    let rem = u % width;
    let mut rows: Vec<Vec<bool>> = Vec::new();
    let mut r: usize = 0;
    while r < full
        invariant
            rows@.len() == r,
            r <= full,
            width >= 1,
            forall|k: int|
                0 <= k < r ==> (#[trigger] rows@[k])@.len() == width && (forall|x: int|
                    0 <= x < width ==> rows@[k]@[x]),
        decreases full - r,
    {
        rows.push(full_row(width));
        r = r + 1;
    }
    let ghost full_i = full as int;
    if rem > 0 {
        rows.push(build_partial_garbage_row(width, rem));
    }
    proof {
        assert(u == units as int);
        assert(full_i == (units as int) / (width as int));
        assert(rem as int == (units as int) % (width as int));
        assert forall|k: int, x: int|
            0 <= k < full_i && 0 <= x < width implies (#[trigger] rows@[k]@[x]) by {
            assert(rows@[k]@.len() == width);
        }
        if rem > 0 {
            assert(rows@[full_i]@.len() == width);
        }
    }
    rows
}

/// How `apply_incoming_garbage` relates the state after the attempt to the
/// state before it. Queued garbage is only applied to a board that is
/// settled, free of pending clears and not rise-paused; the applied units
/// become attack rows, and when the insertion would land on occupied cells
/// the units stay queued for a later tick.
pub open spec fn applied_incoming_rel(pre: PlayerState, post: PlayerState) -> bool {
    if pre.garbage_incoming == 0 || pre.pending_clear || !pre.settled || pre.rise_paused {
        post == pre
    } else {
        let units = pre.garbage_incoming;
        exists|rows: Seq<Vec<bool>>|
            #![auto]
            rows_shape(rows, pre.grid.width as int, units as int) && if rows_fit(&pre.grid, rows) {
                &&& post.grid.wf()
                &&& post.grid.same_dims(&pre.grid)
                &&& (forall|x: int, y: int|
                    pre.grid.in_bounds(x, y) ==> post.grid.at(x, y) == (if garbage_target(
                        &pre.grid,
                        rows,
                        x,
                        y,
                    ) {
                        Some(Block::Garbage { cracked: false })
                    } else {
                        pre.grid.at(x, y)
                    }))
                &&& post == (PlayerState {
                    grid: post.grid,
                    settled: false,
                    garbage_incoming: 0,
                    ..pre
                })
            } else {
                post == pre
            }
    }
}

impl PlayerState {
    /// Try to apply the queued incoming garbage to this board, per
    /// `applied_incoming_rel`.
    pub fn apply_incoming_garbage(&mut self)
        requires
            old(self).wf(),
        ensures
            final(self).wf(),
            applied_incoming_rel(*old(self), *final(self)),
    {
        if self.garbage_incoming == 0 {
            return;
        }
        if self.pending_clear || !self.settled || self.rise_paused {
            return;
        }
        let units = self.garbage_incoming;
        self.garbage_incoming = 0;
        let w = self.grid.width;
        proof {
            assert(w <= w * self.grid.height) by (nonlinear_arith)
                requires
                    self.grid.height >= 1,
                    w == self.grid.width,
                    w >= 0,
            ;
        }
        let rows = build_garbage_rows(w, units);
        let ok = self.grid.insert_garbage_rows_from_top(&rows);
        if !ok {
            self.garbage_incoming = units;
            proof {
                assert(*self == *old(self));
            }
            return;
        }
        self.settled = false;
    }
}

/// The two amounts left after mutual cancellation: the smaller of two
/// simultaneous incoming amounts offsets the other.
pub fn cancel_mutual(a: u32, b: u32) -> (r: (u32, u32))
    ensures
        r.0 == a - (if a <= b {
            a as int
        } else {
            b as int
        }),
        r.1 == b - (if a <= b {
            a as int
        } else {
            b as int
        }),
{
    let cancel = if a <= b {
        a
    } else {
        b
    };
    (a - cancel, b - cancel)
}

/// A running match: one or two player slots and the terminal state. In a
/// single-player session the second slot exists but is never advanced.
pub struct MatchState {
    pub p1: PlayerState,
    pub p2: PlayerState,
    pub two_player: bool,
    pub over: bool,
    pub winner: Option<PlayerId>,
}

impl MatchState {
    /// Both player slots are well-formed.
    pub open spec fn wf(&self) -> bool {
        self.p1.wf() && self.p2.wf()
    }

    /// A fresh session with empty boards; `reset` starts the actual match.
    pub fn new(two_player: bool) -> (m: MatchState)
        ensures
            m.wf(),
            m.two_player == two_player,
            !m.over,
            m.winner is None,
            PlayerState::is_initial(m.p1),
            PlayerState::is_initial(m.p2),
    {
        MatchState {
            p1: PlayerState::new(),
            p2: PlayerState::new(),
            two_player,
            over: false,
            winner: None,
        }
    }

    /// Full match start or restart: both players reset and the terminal
    /// state clears.
    pub fn reset(&mut self)
        requires
            old(self).wf(),
        ensures
            final(self).wf(),
            final(self).two_player == old(self).two_player,
            !final(self).over,
            final(self).winner is None,
            crate::player::reset_rel(old(self).p1, final(self).p1),
            crate::player::reset_rel(old(self).p2, final(self).p2),
    {
        self.p1.reset();
        self.p2.reset();
        self.over = false;
        self.winner = None;
    }

    /// Advance both players' elapsed time and rise-speed ramp. A finished
    /// match no longer advances.
    pub fn tick_time(&mut self, delta_ms: u64)
        requires
            old(self).wf(),
        ensures
            final(self).wf(),
            ({
                if old(self).over {
                    *final(self) == *old(self)
                } else {
                    &&& elapsed_tick_rel(old(self).p1, final(self).p1, delta_ms)
                    &&& (if old(self).two_player {
                        elapsed_tick_rel(old(self).p2, final(self).p2, delta_ms)
                    } else {
                        final(self).p2 == old(self).p2
                    })
                    &&& *final(self) == (MatchState {
                        p1: final(self).p1,
                        p2: final(self).p2,
                        ..*old(self)
                    })
                }
            }),
    {
        if self.over {
            return;
        }
        self.p1.elapsed_tick(delta_ms);
        if self.two_player {
            self.p2.elapsed_tick(delta_ms);
        }
    }

    /// Advance both players' gravity by one tick.
    pub fn tick_gravity(&mut self, delta_ms: u64)
        requires
            old(self).wf(),
        ensures
            final(self).wf(),
            ({
                if old(self).over {
                    *final(self) == *old(self)
                } else {
                    &&& gravity_tick_rel(old(self).p1, final(self).p1, delta_ms)
                    &&& (if old(self).two_player {
                        gravity_tick_rel(old(self).p2, final(self).p2, delta_ms)
                    } else {
                        final(self).p2 == old(self).p2
                    })
                    &&& *final(self) == (MatchState {
                        p1: final(self).p1,
                        p2: final(self).p2,
                        ..*old(self)
                    })
                }
            }),
    {
        if self.over {
            return;
        }
        self.p1.gravity_tick(delta_ms);
        if self.two_player {
            self.p2.gravity_tick(delta_ms);
        }
    }

    /// Advance both players' clear delay by one tick.
    pub fn tick_clear(&mut self, delta_ms: u64)
        requires
            old(self).wf(),
        ensures
            final(self).wf(),
            ({
                if old(self).over {
                    *final(self) == *old(self)
                } else {
                    &&& clear_tick_rel(old(self).p1, final(self).p1, delta_ms)
                    &&& (if old(self).two_player {
                        clear_tick_rel(old(self).p2, final(self).p2, delta_ms)
                    } else {
                        final(self).p2 == old(self).p2
                    })
                    &&& *final(self) == (MatchState {
                        p1: final(self).p1,
                        p2: final(self).p2,
                        ..*old(self)
                    })
                }
            }),
    {
        if self.over {
            return;
        }
        self.p1.clear_tick(delta_ms);
        if self.two_player {
            self.p2.clear_tick(delta_ms);
        }
    }

    /// The two-player garbage exchange, run once per tick after the clear
    /// step: a player whose chain just ended sends its whole outgoing amount
    /// to the opponent's incoming queue; equal parts of the two incoming
    /// amounts cancel each other; what remains is applied to each board as
    /// soon as it is idle, or stays queued.
    #[verifier::rlimit(100)]
    pub fn tick_exchange(&mut self)
        requires
            old(self).wf(),
        ensures
            final(self).wf(),
            ({
                if old(self).over || !old(self).two_player {
                    *final(self) == *old(self)
                } else {
                    let o1 = old(self).p1;
                    let o2 = old(self).p2;
                    let inc2 = if o1.chain_ended && o1.garbage_outgoing > 0 {
                        if o2.garbage_incoming + o1.garbage_outgoing <= u32::MAX {
                            o2.garbage_incoming + o1.garbage_outgoing
                        } else {
                            u32::MAX as int
                        }
                    } else {
                        o2.garbage_incoming as int
                    };
                    let inc1 = if o2.chain_ended && o2.garbage_outgoing > 0 {
                        if o1.garbage_incoming + o2.garbage_outgoing <= u32::MAX {
                            o1.garbage_incoming + o2.garbage_outgoing
                        } else {
                            u32::MAX as int
                        }
                    } else {
                        o1.garbage_incoming as int
                    };
                    let cancel = if inc1 <= inc2 {
                        inc1
                    } else {
                        inc2
                    };
                    let mid1 = PlayerState {
                        garbage_outgoing: if o1.chain_ended {
                            0
                        } else {
                            o1.garbage_outgoing
                        },
                        chain_ended: false,
                        garbage_incoming: (inc1 - cancel) as u32,
                        ..o1
                    };
                    let mid2 = PlayerState {
                        garbage_outgoing: if o2.chain_ended {
                            0
                        } else {
                            o2.garbage_outgoing
                        },
                        chain_ended: false,
                        garbage_incoming: (inc2 - cancel) as u32,
                        ..o2
                    };
                    &&& applied_incoming_rel(mid1, final(self).p1)
                    &&& applied_incoming_rel(mid2, final(self).p2)
                    &&& *final(self) == (MatchState {
                        p1: final(self).p1,
                        p2: final(self).p2,
                        ..*old(self)
                    })
                }
            }),
    {
        if self.over || !self.two_player {
            return;
        }
        if self.p1.chain_ended {
            if self.p1.garbage_outgoing > 0 {
                self.p2.garbage_incoming = sat_add_u32(
                    self.p2.garbage_incoming,
                    self.p1.garbage_outgoing,
                );
                self.p1.garbage_outgoing = 0;
            }
            self.p1.chain_ended = false;
        }
        if self.p2.chain_ended {
            if self.p2.garbage_outgoing > 0 {
                self.p1.garbage_incoming = sat_add_u32(
                    self.p1.garbage_incoming,
                    self.p2.garbage_outgoing,
                );
                self.p2.garbage_outgoing = 0;
            }
            self.p2.chain_ended = false;
        }
        let (a, b) = cancel_mutual(self.p1.garbage_incoming, self.p2.garbage_incoming);
        self.p1.garbage_incoming = a;
        self.p2.garbage_incoming = b;
        self.p1.apply_incoming_garbage();
        self.p2.apply_incoming_garbage();
    }

    /// Advance both players' rise by one tick; a player that rises into an
    /// occupied top row loses, and in a two-player session the opponent is
    /// the winner. When both overflow in the same tick the first player's
    /// loss is decided first.
    pub fn tick_rise(&mut self, delta_ms: u64)
        requires
            old(self).wf(),
        ensures
            final(self).wf(),
            ({
                if old(self).over {
                    *final(self) == *old(self)
                } else {
                    let over1 = rise_over(old(self).p1, delta_ms);
                    let over2 = old(self).two_player && rise_over(old(self).p2, delta_ms);
                    &&& rise_tick_rel(old(self).p1, final(self).p1, delta_ms, over1)
                    &&& (if old(self).two_player {
                        rise_tick_rel(old(self).p2, final(self).p2, delta_ms, over2)
                    } else {
                        final(self).p2 == old(self).p2
                    })
                    &&& final(self).over == (over1 || over2)
                    &&& final(self).winner == (if over1 {
                        if old(self).two_player {
                            Some(PlayerId::P2)
                        } else {
                            None
                        }
                    } else if over2 {
                        Some(PlayerId::P1)
                    } else {
                        old(self).winner
                    })
                    &&& *final(self) == (MatchState {
                        p1: final(self).p1,
                        p2: final(self).p2,
                        over: final(self).over,
                        winner: final(self).winner,
                        ..*old(self)
                    })
                }
            }),
    {
        if self.over {
            return;
        }
        let p1_over = self.p1.rise_tick(delta_ms);
        let p2_over = if self.two_player {
            self.p2.rise_tick(delta_ms)
        } else {
            false
        };
        if p1_over {
            self.over = true;
            self.winner = if self.two_player {
                Some(PlayerId::P2)
            } else {
                None
            };
        } else if p2_over {
            self.over = true;
            self.winner = Some(PlayerId::P1);
        }
    }

    /// Decide `wf`, so that an unverified caller can test it before using
    /// the tick methods.
    pub fn check_wf(&self) -> (b: bool)
        ensures
            b == self.wf(),
    {
        self.p1.check_wf() && self.p2.check_wf()
    }

    /// Advance both players' rise-pause countdown by one tick.
    pub fn tick_rise_pause(&mut self, delta_ms: u64)
        requires
            old(self).wf(),
        ensures
            final(self).wf(),
            ({
                if old(self).over {
                    *final(self) == *old(self)
                } else {
                    &&& rise_pause_tick_rel(old(self).p1, final(self).p1, delta_ms)
                    &&& (if old(self).two_player {
                        rise_pause_tick_rel(old(self).p2, final(self).p2, delta_ms)
                    } else {
                        final(self).p2 == old(self).p2
                    })
                    &&& *final(self) == (MatchState {
                        p1: final(self).p1,
                        p2: final(self).p2,
                        ..*old(self)
                    })
                }
            }),
    {
        if self.over {
            return;
        }
        self.p1.rise_pause_tick(delta_ms);
        if self.two_player {
            self.p2.rise_pause_tick(delta_ms);
        }
    }
}

} // verus!

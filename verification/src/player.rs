//! Per-player session state: one board and cursor, the staged timers (rise,
//! gravity, clear delay, rise pause, input repeat), chain and combo
//! bookkeeping, and the garbage counters. Everything advances through
//! explicit per-tick methods driven by millisecond deltas.

use vstd::prelude::*;
use crate::block::Block;
use crate::cursor::Cursor;
use crate::cursor::SwapCmd;
use crate::cursor::clamp_to;
use crate::garbage::crack_pred;
use crate::garbage::cracked_pred;
use crate::garbage::cracked_seq;
use crate::garbage::lemma_crack_pred_after_clear;
use crate::grid::Grid;
use crate::grid::is_garbage_cell;
use crate::grid::is_normal_cell;
use crate::gravity::garb_can_fall;
use crate::gravity::spec_any_falls;
use crate::gravity::spec_stepped;
use crate::gravity::lemma_settled_fixed_point;
use crate::matches::lemma_matches_congruence;
use crate::matches::mark_seq;
use crate::matches::marked;
use crate::matches::match_count;
use crate::matches::group_count;
use crate::matches::spec_has_matches;
use crate::matches::lemma_unflat;
use crate::timer::TickTimer;
use crate::util::count_true;
use crate::util::sat_add_u32;
use crate::util::sat_add_u64;

verus! {

/// Board width of a match slot.
pub const GRID_WIDTH: usize = 6;

/// Board height of a match slot.
pub const GRID_HEIGHT: usize = 12;

/// Base interval between stack rises.
pub const RISE_INTERVAL_MS: u64 = 2500;

/// Elapsed-time slice after which the rise interval decays one more step.
pub const RISE_SPEEDUP_INTERVAL_MS: u64 = 30000;

/// Numerator of the multiplicative rise-interval decay.
pub const RISE_DECAY_NUM: u64 = 89;

/// Denominator of the multiplicative rise-interval decay.
pub const RISE_DECAY_DEN: u64 = 100;

/// Floor of the rise interval.
pub const RISE_MIN_INTERVAL_MS: u64 = 800;

/// Interval between gravity steps.
pub const GRAVITY_STEP_MS: u64 = 100;

/// Delay between a pending clear and its execution.
pub const CLEAR_DELAY_MS: u64 = 100;

/// How long a successful clear pauses the rise timer.
pub const RISE_PAUSE_MS: u64 = 600;

/// Delay before a held direction starts repeating.
pub const INPUT_REPEAT_DELAY_MS: u64 = 250;

/// Interval between repeated moves of a held direction.
pub const INPUT_REPEAT_INTERVAL_MS: u64 = 80;

/// Garbage units awarded per chain link beyond the first.
pub const GARBAGE_CHAIN_BONUS: u32 = 2;

/// Cap on outgoing garbage accumulated across one chain.
pub const GARBAGE_CHAIN_CAP: u32 = 24;

/// A cursor movement direction.
#[derive(Clone, Copy, Debug, PartialEq, Eq, Structural)]
pub enum Dir {
    Left,
    Right,
    Up,
    Down,
}

/// Horizontal offset of a direction.
pub open spec fn spec_dir_dx(d: Dir) -> int {
    match d {
        Dir::Left => -1,
        Dir::Right => 1,
        Dir::Up => 0,
        Dir::Down => 0,
    }
}

/// Vertical offset of a direction; the board's rows grow upward.
pub open spec fn spec_dir_dy(d: Dir) -> int {
    match d {
        Dir::Left => 0,
        Dir::Right => 0,
        Dir::Up => 1,
        Dir::Down => -1,
    }
}

fn dir_dx(d: Dir) -> (r: isize)
    ensures
        r == spec_dir_dx(d),
{
    match d {
        Dir::Left => -1,
        Dir::Right => 1,
        Dir::Up => 0,
        Dir::Down => 0,
    }
}

fn dir_dy(d: Dir) -> (r: isize)
    ensures
        r == spec_dir_dy(d),
{
    match d {
        Dir::Left => 0,
        Dir::Right => 0,
        Dir::Up => 1,
        Dir::Down => -1,
    }
}

/// The rise interval after `level` decay steps: the base interval shrunk by
/// the decay ratio once per step, never below the floor.
pub open spec fn rise_interval_after(level: int) -> int
    decreases level,
{
    if level <= 0 {
        RISE_INTERVAL_MS as int
    } else {
        let p = rise_interval_after(level - 1) * (RISE_DECAY_NUM as int) / (RISE_DECAY_DEN as int);
        if p < RISE_MIN_INTERVAL_MS {
            RISE_MIN_INTERVAL_MS as int
        } else {
            p
        }
    }
}

/// The decayed interval always stays between the floor and the base.
pub proof fn lemma_rise_interval_bounds(level: int)
    ensures
        RISE_MIN_INTERVAL_MS <= rise_interval_after(level) <= RISE_INTERVAL_MS,
    decreases level,
{
    if level > 0 {
        lemma_rise_interval_bounds(level - 1);
        let prev = rise_interval_after(level - 1);
        assert(prev * (RISE_DECAY_NUM as int) <= (RISE_INTERVAL_MS as int) * (
        RISE_DECAY_NUM as int)) by (nonlinear_arith)
            requires
                prev <= RISE_INTERVAL_MS,
        ;
        vstd::arithmetic::div_mod::lemma_div_is_ordered(
            prev * (RISE_DECAY_NUM as int),
            (RISE_INTERVAL_MS as int) * (RISE_DECAY_NUM as int),
            RISE_DECAY_DEN as int,
        );
        assert((RISE_INTERVAL_MS as int) * (RISE_DECAY_NUM as int) / (RISE_DECAY_DEN as int)
            <= RISE_INTERVAL_MS);
    }
}

/// Once the interval reaches the floor it stays there.
pub proof fn lemma_rise_interval_floor(l1: int, l2: int)
    requires
        0 <= l1 <= l2,
        rise_interval_after(l1) == RISE_MIN_INTERVAL_MS,
    ensures
        rise_interval_after(l2) == RISE_MIN_INTERVAL_MS,
    decreases l2 - l1,
{
    if l2 > l1 {
        lemma_rise_interval_floor(l1, l2 - 1);
        assert((RISE_MIN_INTERVAL_MS as int) * (RISE_DECAY_NUM as int) / (RISE_DECAY_DEN as int)
            < RISE_MIN_INTERVAL_MS);
    }
}

/// Garbage units one clear pass generates: one per cleared cell beyond
/// three, one per simultaneous group beyond one, and the chain bonus per
/// chain link beyond the first.
pub open spec fn garbage_units(cleared: int, groups: int, chain_index: int) -> int {
    (if cleared > 3 {
        cleared - 3
    } else {
        0int
    }) + (if groups > 1 {
        groups - 1
    } else {
        0int
    }) + (if chain_index > 1 {
        GARBAGE_CHAIN_BONUS * (chain_index - 1)
    } else {
        0int
    })
}

/// Per-player session state.
pub struct PlayerState {
    pub grid: Grid,
    pub cursor: Cursor,
    pub score: u32,
    pub elapsed_ms: u64,
    pub pending_clear: bool,
    pub settled: bool,
    pub clear_timer: TickTimer,
    pub gravity_timer: TickTimer,
    pub rise_timer: TickTimer,
    pub rise_pause_timer: TickTimer,
    pub rise_paused: bool,
    pub rise_level: u64,
    pub repeat_dir: Option<Dir>,
    pub repeat_timer: TickTimer,
    pub repeat_initial: bool,
    pub chain_active: bool,
    pub chain_index: u32,
    pub chain_ended: bool,
    pub garbage_outgoing: u32,
    pub garbage_incoming: u32,
}

impl PlayerState {
    /// The board is well-formed and large enough for the two-cell cursor,
    /// cell counts fit the stat counters, the cursor is inside its valid
    /// range, and every timer is well-formed.
    pub open spec fn wf(&self) -> bool {
        &&& self.grid.wf()
        &&& self.grid.width >= 2
        &&& self.grid.height >= 1
        &&& self.grid.width * self.grid.height <= u32::MAX
        &&& self.cursor.x + 2 <= self.grid.width
        &&& self.cursor.y < self.grid.height
        &&& self.clear_timer.wf()
        &&& self.gravity_timer.wf()
        &&& self.rise_timer.wf()
        &&& self.rise_pause_timer.wf()
        &&& self.repeat_timer.wf()
    }

    /// A fresh, empty match slot: an empty board, zeroed bookkeeping, and
    /// every timer at its base interval.
    pub open spec fn is_initial(p: PlayerState) -> bool {
        &&& p.wf()
        &&& p.grid.width == GRID_WIDTH
        &&& p.grid.height == GRID_HEIGHT
        &&& (forall|x: int, y: int| p.grid.in_bounds(x, y) ==> p.grid.at(x, y) is None)
        &&& p.cursor == (Cursor { x: 0, y: 0 })
        &&& p.score == 0
        &&& p.elapsed_ms == 0
        &&& !p.pending_clear
        &&& p.settled
        &&& !p.rise_paused
        &&& p.rise_level == 0
        &&& p.repeat_dir is None
        &&& p.repeat_initial
        &&& !p.chain_active
        &&& p.chain_index == 0
        &&& !p.chain_ended
        &&& p.garbage_outgoing == 0
        &&& p.garbage_incoming == 0
        &&& p.rise_timer == TickTimer::spec_base(RISE_INTERVAL_MS)
        &&& p.gravity_timer == TickTimer::spec_base(GRAVITY_STEP_MS)
        &&& p.clear_timer == TickTimer::spec_base(CLEAR_DELAY_MS)
        &&& p.rise_pause_timer == TickTimer::spec_base(RISE_PAUSE_MS)
        &&& p.repeat_timer == TickTimer::spec_base(INPUT_REPEAT_DELAY_MS)
    }

    /// A fresh match slot: an empty board and zeroed bookkeeping.
    pub fn new() -> (p: PlayerState)
        ensures
            PlayerState::is_initial(p),
    {
        PlayerState {
            grid: Grid::new(GRID_WIDTH, GRID_HEIGHT),
            cursor: Cursor::new(0, 0),
            score: 0,
            elapsed_ms: 0,
            pending_clear: false,
            settled: true,
            clear_timer: TickTimer::new(CLEAR_DELAY_MS),
            gravity_timer: TickTimer::new(GRAVITY_STEP_MS),
            rise_timer: TickTimer::new(RISE_INTERVAL_MS),
            rise_pause_timer: TickTimer::new(RISE_PAUSE_MS),
            rise_paused: false,
            rise_level: 0,
            repeat_dir: None,
            repeat_timer: TickTimer::new(INPUT_REPEAT_DELAY_MS),
            repeat_initial: true,
            chain_active: false,
            chain_index: 0,
            chain_ended: false,
            garbage_outgoing: 0,
            garbage_incoming: 0,
        }
    }

    /// Full reset for a match start or restart: the board is emptied and
    /// refilled with the starting pattern, and every timer, counter and flag
    /// returns to its initial value.
    pub fn reset(&mut self)
        requires
            old(self).wf(),
        ensures
            final(self).wf(),
            reset_rel(*old(self), *final(self)),
    {
        self.grid.clear();
        let ghost gc = self.grid;
        self.grid.fill_test_pattern();
        proof {
            assert forall|x: int, y: int|
                old(self).grid.in_bounds(x, y) && y >= old(self).grid.height / 2 implies
                #[trigger] self.grid.at(x, y) is None by {
                assert(self.grid.at(x, y) == gc.at(x, y));
                assert(gc.at(x, y) is None);
            }
        }
        self.cursor = Cursor::new(0, 0);
        self.score = 0;
        self.elapsed_ms = 0;
        self.pending_clear = false;
        self.settled = true;
        self.clear_timer = TickTimer::new(CLEAR_DELAY_MS);
        self.gravity_timer = TickTimer::new(GRAVITY_STEP_MS);
        self.rise_timer = TickTimer::new(RISE_INTERVAL_MS);
        self.rise_pause_timer = TickTimer::new(RISE_PAUSE_MS);
        self.rise_paused = false;
        self.rise_level = 0;
        self.repeat_dir = None;
        self.repeat_timer = TickTimer::new(INPUT_REPEAT_DELAY_MS);
        self.repeat_initial = true;
        self.chain_active = false;
        self.chain_index = 0;
        self.chain_ended = false;
        self.garbage_outgoing = 0;
        self.garbage_incoming = 0;
    }

    /// Move the cursor one step in `d`, clamped to the valid selector range.
    pub fn move_cursor(&mut self, d: Dir)
        requires
            old(self).wf(),
        ensures
            final(self).wf(),
            final(self).cursor.x == clamp_to(
                old(self).cursor.x + spec_dir_dx(d),
                old(self).grid.width - 2,
            ),
            final(self).cursor.y == clamp_to(
                old(self).cursor.y + spec_dir_dy(d),
                old(self).grid.height - 1,
            ),
            *final(self) == (PlayerState { cursor: final(self).cursor, ..*old(self) }),
    {
        let dx = dir_dx(d);
        let dy = dir_dy(d);
        let w = self.grid.width;
        let h = self.grid.height;
        self.cursor.move_by(dx, dy, w, h);
    }

    /// Swap the two cells under the cursor. A swap that touches garbage is
    /// refused and changes nothing; a swap that completes a match schedules
    /// a pending clear and restarts the clear-delay timer.
    pub fn try_swap(&mut self)
        requires
            old(self).wf(),
        ensures
            final(self).wf(),
            ({
                let x = old(self).cursor.x as int;
                let y = old(self).cursor.y as int;
                let can = !is_garbage_cell(old(self).grid.at(x, y)) && !is_garbage_cell(
                    old(self).grid.at(x + 1, y),
                );
                if !can {
                    *final(self) == *old(self)
                } else {
                    &&& final(self).grid.wf()
                    &&& final(self).grid.same_dims(&old(self).grid)
                    &&& final(self).grid.at(x, y) == old(self).grid.at(x + 1, y)
                    &&& final(self).grid.at(x + 1, y) == old(self).grid.at(x, y)
                    &&& (forall|a: int, b: int|
                        old(self).grid.in_bounds(a, b) && !(a == x && b == y) && !(a == x + 1 && b
                            == y) ==> #[trigger] final(self).grid.at(a, b) == old(self).grid.at(
                            a,
                            b,
                        ))
                    &&& (if spec_has_matches(&final(self).grid) {
                        *final(self) == (PlayerState {
                            grid: final(self).grid,
                            pending_clear: true,
                            clear_timer: TickTimer {
                                interval_ms: old(self).clear_timer.interval_ms,
                                remaining_ms: old(self).clear_timer.interval_ms,
                            },
                            ..*old(self)
                        })
                    } else {
                        *final(self) == (PlayerState { grid: final(self).grid, ..*old(self) })
                    })
                }
            }),
    {
        let cmd = SwapCmd::right_of(self.cursor.x, self.cursor.y);
        let did = self.grid.swap_in_bounds(cmd);
        if did && self.grid.has_matches() {
            self.pending_clear = true;
            self.clear_timer.reset();
        }
    }

    /// Account one clear pass's garbage: `combo` units for cells beyond
    /// three, `multi` units for groups beyond one, and the chain bonus.
    /// Nothing is generated by a bare three-match outside a chain, and
    /// outgoing garbage is capped per chain; once capped, further
    /// contributions are dropped.
    pub fn add_garbage_for_clear(&mut self, cleared: u32, groups: u32)
        ensures
            ({
                let total = garbage_units(cleared as int, groups as int, old(self).chain_index as int);
                let skip = (cleared < 4 && old(self).chain_index < 2) || total == 0 || old(self).garbage_outgoing >= GARBAGE_CHAIN_CAP;
                if skip {
                    *final(self) == *old(self)
                } else {
                    *final(self) == (PlayerState {
                        garbage_outgoing: (if old(self).garbage_outgoing + total
                            <= GARBAGE_CHAIN_CAP {
                            old(self).garbage_outgoing + total
                        } else {
                            GARBAGE_CHAIN_CAP as int
                        }) as u32,
                        ..*old(self)
                    })
                }
            }),
    {
        let combo: u64 = if cleared > 3 {
            (cleared - 3) as u64
        } else {
            0
        };
        let multi: u64 = if groups > 1 {
            (groups - 1) as u64
        } else {
            0
        };
        let chain: u64 = if self.chain_index > 1 {
            (GARBAGE_CHAIN_BONUS as u64) * ((self.chain_index - 1) as u64)
        } else {
            0
        };
        let total: u64 = combo + multi + chain;
        if cleared < 4 && self.chain_index < 2 {
            return;
        }
        if total == 0 {
            return;
        }
        if self.garbage_outgoing >= GARBAGE_CHAIN_CAP {
            return;
        }
        let remaining: u32 = GARBAGE_CHAIN_CAP - self.garbage_outgoing;
        let add: u32 = if total < remaining as u64 {
            total as u32
        } else {
            remaining
        };
        self.garbage_outgoing = self.garbage_outgoing + add;
    }

    /// Advance elapsed time and, when another speedup slice has passed,
    /// shorten the rise interval by the decay ratio per slice, down to the
    /// floor, rearming the rise timer.
    pub fn elapsed_tick(&mut self, delta_ms: u64)
        requires
            old(self).wf(),
        ensures
            final(self).wf(),
            elapsed_tick_rel(*old(self), *final(self), delta_ms),
    {
        self.elapsed_ms = sat_add_u64(self.elapsed_ms, delta_ms);
        let level = self.elapsed_ms / RISE_SPEEDUP_INTERVAL_MS;
        if level > self.rise_level {
            self.rise_level = level;
            let mut interval: u64 = RISE_INTERVAL_MS;
            let mut k: u64 = 0;
            proof {
                lemma_rise_interval_bounds(level as int);
            }
            while k < level && interval > RISE_MIN_INTERVAL_MS
                invariant
                    k <= level,
                    interval == rise_interval_after(k as int),
                    RISE_MIN_INTERVAL_MS <= interval <= RISE_INTERVAL_MS,
                decreases level - k,
            {
                let next = interval * RISE_DECAY_NUM / RISE_DECAY_DEN;
                if next < RISE_MIN_INTERVAL_MS {
                    interval = RISE_MIN_INTERVAL_MS;
                } else {
                    interval = next;
                }
                proof {
                    lemma_rise_interval_bounds(k as int + 1);
                }
                k = k + 1;
            }
            proof {
                if k < level {
                    lemma_rise_interval_floor(k as int, level as int);
                }
            }
            self.rise_timer = TickTimer::new(interval);
        }
    }

    /// Let the rise-pause countdown run while the rise is paused; when it
    /// elapses, the rise resumes.
    pub fn rise_pause_tick(&mut self, delta_ms: u64)
        requires
            old(self).wf(),
        ensures
            final(self).wf(),
            rise_pause_tick_rel(*old(self), *final(self), delta_ms),
    {
        if self.rise_paused {
            let fired = self.rise_pause_timer.tick(delta_ms);
            if fired {
                self.rise_paused = false;
            }
        }
    }
}

impl TickTimer {
    /// A timer value with a full countdown, as written by a reset.
    pub open spec fn spec_base(interval_ms: u64) -> TickTimer {
        TickTimer { interval_ms, remaining_ms: interval_ms }
    }

    /// The timer value after one tick of `delta_ms`.
    pub open spec fn spec_ticked(pre: TickTimer, delta_ms: u64) -> TickTimer {
        TickTimer {
            interval_ms: pre.interval_ms,
            remaining_ms: (if delta_ms >= pre.remaining_ms {
                pre.interval_ms as int
            } else {
                pre.remaining_ms - delta_ms
            }) as u64,
        }
    }
}

impl PlayerState {
    /// One gravity tick. When the gravity timer fires, the board advances by
    /// one gravity step. Movement clears the settled flag and cancels any
    /// pending clear. Coming to rest sets the flag; a board at rest with
    /// matches schedules a clear, and a chain whose board is at rest with no
    /// pending clear and no matches ends: the chain counters reset, the end
    /// is flagged for garbage accounting, cracked garbage converts to
    /// colored blocks, and a match created by the conversion schedules the
    /// next clear of a new cycle.
    pub fn gravity_tick(&mut self, delta_ms: u64)
        requires
            old(self).wf(),
        ensures
            final(self).wf(),
            gravity_tick_rel(*old(self), *final(self), delta_ms),
    {
        let fired = self.gravity_timer.tick(delta_ms);
        if !fired {
            return;
        }
        let ghost g0 = old(self).grid;
        let moved = self.grid.apply_gravity_step();
        if moved {
            self.settled = false;
            self.pending_clear = false;
        } else {
            proof {
                lemma_settled_fixed_point(&g0);
                assert forall|x: int, y: int|
                    g0.in_bounds(x, y) implies #[trigger] self.grid.at(x, y) == g0.at(x, y) by {
                    assert(self.grid.at(x, y) == spec_stepped(&g0, x, y));
                }
                lemma_matches_congruence(&self.grid, &g0);
            }
            self.settled = true;
            let hm = self.grid.has_matches();
            if !self.pending_clear && hm {
                self.pending_clear = true;
                self.clear_timer.reset();
            }
            if self.chain_active && !self.pending_clear && !hm {
                self.chain_active = false;
                self.chain_index = 0;
                self.chain_ended = true;
                let ghost g1 = self.grid;
                let converted = self.grid.convert_cracked_garbage();
                proof {
                    assert(cracked_seq(&g1) =~= cracked_seq(&g0)) by {
                        assert forall|i: int| 0 <= i < cracked_seq(&g1).len() implies cracked_seq(
                            &g1,
                        )[i] == cracked_seq(&g0)[i] by {
                            lemma_unflat(g0.width as int, g0.height as int, i);
                            let x = i % (g0.width as int);
                            let y = i / (g0.width as int);
                            assert(g1.at(x, y) == g0.at(x, y));
                        }
                    }
                    assert forall|x: int, y: int|
                        g0.in_bounds(x, y) && cracked_pred(&g0, x, y) implies is_normal_cell(
                        #[trigger] self.grid.at(x, y),
                    ) by {
                        assert(g1.at(x, y) == g0.at(x, y));
                        assert(cracked_pred(&g1, x, y));
                    }
                    assert forall|x: int, y: int|
                        g0.in_bounds(x, y) && !cracked_pred(&g0, x, y) implies #[trigger] self.grid.at(
                        x,
                        y,
                    ) == g0.at(x, y) by {
                        assert(g1.at(x, y) == g0.at(x, y));
                        assert(!cracked_pred(&g1, x, y));
                    }
                }
                if converted > 0 && self.grid.has_matches() {
                    self.pending_clear = true;
                    self.clear_timer.reset();
                }
            }
        }
    }

    /// One clear-delay tick. A pending clear waits for the board to settle
    /// and for the short delay to elapse; then one clear pass runs. A pass
    /// that cleared something pauses the rise, scores one point per cell,
    /// cracks adjacent garbage, advances the chain, and accounts outgoing
    /// garbage; in any case the pending flag drops, so a new match must be
    /// scheduled anew.
    pub fn clear_tick(&mut self, delta_ms: u64)
        requires
            old(self).wf(),
        ensures
            final(self).wf(),
            clear_tick_rel(*old(self), *final(self), delta_ms),
    {
        if !self.pending_clear || !self.settled {
            return;
        }
        let fired = self.clear_timer.tick(delta_ms);
        if !fired {
            return;
        }
        let ghost g0 = old(self).grid;
        let stats = self.grid.clear_matches_once_with_stats();
        if stats.cleared > 0 {
            self.rise_paused = true;
            self.rise_pause_timer.reset();
            self.score = sat_add_u32(self.score, stats.cleared);
            let ghost g1 = self.grid;
            let _cracked = self.grid.crack_adjacent_garbage(&stats.marks);
            proof {
                lemma_crack_pred_after_clear(&g0, &g1, mark_seq(&g0));
                assert forall|x: int, y: int|
                    g0.in_bounds(x, y) implies #[trigger] self.grid.at(x, y) == (if marked(
                    &g0,
                    x,
                    y,
                ) {
                    None
                } else if crack_pred(&g0, mark_seq(&g0), x, y) {
                    Some(Block::Garbage { cracked: true })
                } else {
                    g0.at(x, y)
                }) by {
                    if marked(&g0, x, y) {
                        crate::matches::lemma_marked_is_normal(&g0, x, y);
                        assert(!crack_pred(&g0, mark_seq(&g0), x, y));
                    }
                }
            }
            if !self.chain_active {
                self.chain_active = true;
                self.chain_index = 1;
            } else {
                self.chain_index = sat_add_u32(self.chain_index, 1);
            }
            let cleared = stats.cleared;
            let groups = stats.groups;
            self.add_garbage_for_clear(cleared, groups);
        } else {
            proof {
                let w = g0.width as int;
                let h = g0.height as int;
                assert forall|x: int, y: int|
                    g0.in_bounds(x, y) implies #[trigger] self.grid.at(x, y) == g0.at(x, y) by {
                    if marked(&g0, x, y) {
                        crate::matches::lemma_mark_seq_get(&g0, x, y);
                        crate::grid::lemma_flat(w, h, x, y);
                        crate::util::lemma_count_true_pos(mark_seq(&g0), y * w + x);
                    }
                }
            }
        }
        self.pending_clear = false;
    }

    /// One rise tick. On the rise interval, provided the rise is not paused,
    /// nothing is mid-fall and no garbage component can still fall, the
    /// stack rises by one row and the cursor rises with it; a match created
    /// by the new row schedules a clear. Rising into an occupied top row
    /// instead ends the player's match: the call returns true and the board
    /// stays as it was.
    pub fn rise_tick(&mut self, delta_ms: u64) -> (over: bool)
        requires
            old(self).wf(),
        ensures
            final(self).wf(),
            over == rise_over(*old(self), delta_ms),
            rise_tick_rel(*old(self), *final(self), delta_ms, over),
    {
        let fired = self.rise_timer.tick(delta_ms);
        if !fired {
            return false;
        }
        if self.rise_paused {
            return false;
        }
        if !self.settled || self.grid.has_falling_garbage() {
            return false;
        }
        if self.grid.top_row_occupied() {
            return true;
        }
        self.grid.push_bottom_row();
        if self.cursor.y + 1 < self.grid.height {
            self.cursor = Cursor::new(self.cursor.x, self.cursor.y + 1);
        }
        if self.grid.has_matches() {
            self.pending_clear = true;
            self.clear_timer.reset();
        }
        false
    }
}

/// The direction the repeat logic should move toward, given, for each of
/// left, right, up and down, whether it was just pressed and whether it is
/// held. A fresh press wins, in that fixed order; otherwise a still-held
/// current direction persists; otherwise any held direction is taken, in
/// the same fixed order.
pub open spec fn spec_select_direction(
    current: Option<Dir>,
    left_jp: bool,
    right_jp: bool,
    up_jp: bool,
    down_jp: bool,
    left_p: bool,
    right_p: bool,
    up_p: bool,
    down_p: bool,
) -> Option<Dir> {
    if left_jp {
        Some(Dir::Left)
    } else if right_jp {
        Some(Dir::Right)
    } else if up_jp {
        Some(Dir::Up)
    } else if down_jp {
        Some(Dir::Down)
    } else if current == Some(Dir::Left) && left_p {
        current
    } else if current == Some(Dir::Right) && right_p {
        current
    } else if current == Some(Dir::Up) && up_p {
        current
    } else if current == Some(Dir::Down) && down_p {
        current
    } else if left_p {
        Some(Dir::Left)
    } else if right_p {
        Some(Dir::Right)
    } else if up_p {
        Some(Dir::Up)
    } else if down_p {
        Some(Dir::Down)
    } else {
        None
    }
}

/// Decide `spec_select_direction`.
pub fn select_direction(
    current: Option<Dir>,
    left_jp: bool,
    right_jp: bool,
    up_jp: bool,
    down_jp: bool,
    left_p: bool,
    right_p: bool,
    up_p: bool,
    down_p: bool,
) -> (r: Option<Dir>)
    ensures
        r == spec_select_direction(
            current,
            left_jp,
            right_jp,
            up_jp,
            down_jp,
            left_p,
            right_p,
            up_p,
            down_p,
        ),
{
    if left_jp {
        return Some(Dir::Left);
    }
    if right_jp {
        return Some(Dir::Right);
    }
    if up_jp {
        return Some(Dir::Up);
    }
    if down_jp {
        return Some(Dir::Down);
    }
    let cur_held = match current {
        Some(Dir::Left) => left_p,
        Some(Dir::Right) => right_p,
        Some(Dir::Up) => up_p,
        Some(Dir::Down) => down_p,
        None => false,
    };
    if cur_held {
        return current;
    }
    if left_p {
        return Some(Dir::Left);
    }
    if right_p {
        return Some(Dir::Right);
    }
    if up_p {
        return Some(Dir::Up);
    }
    if down_p {
        return Some(Dir::Down);
    }
    None
}

impl PlayerState {
    /// Advance the held-direction repeat machine by one tick. A newly chosen
    /// direction moves the cursor at once and starts the repeat delay; a
    /// held direction moves again each time the repeat timer fires,
    /// switching from the initial delay to the repeat interval after the
    /// first repetition; releasing everything rearms the delay.
    pub fn update_repeat_move(&mut self, dir: Option<Dir>, delta_ms: u64)
        requires
            old(self).wf(),
        ensures
            final(self).wf(),
            ({
                match dir {
                    None => *final(self) == (PlayerState {
                        repeat_dir: None,
                        repeat_initial: true,
                        repeat_timer: TickTimer::spec_base(old(self).repeat_timer.interval_ms),
                        ..*old(self)
                    }),
                    Some(d) => {
                        let moved_cursor = Cursor {
                            x: clamp_to(
                                old(self).cursor.x + spec_dir_dx(d),
                                old(self).grid.width - 2,
                            ) as usize,
                            y: clamp_to(
                                old(self).cursor.y + spec_dir_dy(d),
                                old(self).grid.height - 1,
                            ) as usize,
                        };
                        if old(self).repeat_dir != Some(d) {
                            *final(self) == (PlayerState {
                                cursor: moved_cursor,
                                repeat_dir: Some(d),
                                repeat_initial: true,
                                repeat_timer: TickTimer::spec_base(INPUT_REPEAT_DELAY_MS),
                                ..*old(self)
                            })
                        } else {
                            let fired = delta_ms >= old(self).repeat_timer.remaining_ms;
                            if !fired {
                                *final(self) == (PlayerState {
                                    repeat_timer: TickTimer::spec_ticked(
                                        old(self).repeat_timer,
                                        delta_ms,
                                    ),
                                    ..*old(self)
                                })
                            } else if old(self).repeat_initial {
                                *final(self) == (PlayerState {
                                    cursor: moved_cursor,
                                    repeat_initial: false,
                                    repeat_timer: TickTimer::spec_base(INPUT_REPEAT_INTERVAL_MS),
                                    ..*old(self)
                                })
                            } else {
                                *final(self) == (PlayerState {
                                    cursor: moved_cursor,
                                    repeat_timer: TickTimer::spec_ticked(
                                        old(self).repeat_timer,
                                        delta_ms,
                                    ),
                                    ..*old(self)
                                })
                            }
                        }
                    },
                }
            }),
    {
        match dir {
            Some(d) => {
                let same = match self.repeat_dir {
                    Some(prev) => match (prev, d) {
                        (Dir::Left, Dir::Left) => true,
                        (Dir::Right, Dir::Right) => true,
                        (Dir::Up, Dir::Up) => true,
                        (Dir::Down, Dir::Down) => true,
                        _ => false,
                    },
                    None => false,
                };
                if !same {
                    self.repeat_dir = Some(d);
                    self.repeat_initial = true;
                    self.repeat_timer = TickTimer::new(INPUT_REPEAT_DELAY_MS);
                    self.move_cursor(d);
                    return;
                }
                let fired = self.repeat_timer.tick(delta_ms);
                if fired {
                    self.move_cursor(d);
                    if self.repeat_initial {
                        self.repeat_initial = false;
                        self.repeat_timer = TickTimer::new(INPUT_REPEAT_INTERVAL_MS);
                    }
                }
            },
            None => {
                self.repeat_dir = None;
                self.repeat_initial = true;
                self.repeat_timer.reset();
            },
        }
    }
}

/// How `elapsed_tick` relates the state after one time tick to the state
/// before it.
pub open spec fn elapsed_tick_rel(pre: PlayerState, post: PlayerState, delta_ms: u64) -> bool {
    let elapsed2 = if pre.elapsed_ms + delta_ms <= u64::MAX {
        pre.elapsed_ms + delta_ms
    } else {
        u64::MAX as int
    };
    let level = elapsed2 / (RISE_SPEEDUP_INTERVAL_MS as int);
    if level > pre.rise_level {
        post == (PlayerState {
            elapsed_ms: elapsed2 as u64,
            rise_level: level as u64,
            rise_timer: TickTimer {
                interval_ms: rise_interval_after(level) as u64,
                remaining_ms: rise_interval_after(level) as u64,
            },
            ..pre
        })
    } else {
        post == (PlayerState { elapsed_ms: elapsed2 as u64, ..pre })
    }
}

/// How `rise_pause_tick` relates the state after the tick to the state
/// before it.
pub open spec fn rise_pause_tick_rel(pre: PlayerState, post: PlayerState, delta_ms: u64) -> bool {
    if !pre.rise_paused {
        post == pre
    } else {
        let fired = delta_ms >= pre.rise_pause_timer.remaining_ms;
        post == (PlayerState {
            rise_paused: !fired,
            rise_pause_timer: TickTimer {
                interval_ms: pre.rise_pause_timer.interval_ms,
                remaining_ms: (if fired {
                    pre.rise_pause_timer.interval_ms as int
                } else {
                    pre.rise_pause_timer.remaining_ms - delta_ms
                }) as u64,
            },
            ..pre
        })
    }
}


/// How `gravity_tick` relates the state after the tick to the state
/// before it.
pub open spec fn gravity_tick_rel(pre: PlayerState, post: PlayerState, delta_ms: u64) -> bool {
                let fired = delta_ms >= pre.gravity_timer.remaining_ms;
                let gt = TickTimer::spec_ticked(pre.gravity_timer, delta_ms);
                if !fired {
                    post == (PlayerState { gravity_timer: gt, ..pre })
                } else if spec_any_falls(&pre.grid) {
                    &&& post.grid.wf()
                    &&& post.grid.same_dims(&pre.grid)
                    &&& (forall|x: int, y: int|
                        pre.grid.in_bounds(x, y) ==> #[trigger] post.grid.at(x, y)
                            == spec_stepped(&pre.grid, x, y))
                    &&& post == (PlayerState {
                        grid: post.grid,
                        settled: false,
                        pending_clear: false,
                        gravity_timer: gt,
                        ..pre
                    })
                } else {
                    let hm = spec_has_matches(&pre.grid);
                    let chain_end = pre.chain_active && !pre.pending_clear && !hm;
                    if !chain_end {
                        &&& post.grid.wf()
                        &&& post.grid.same_dims(&pre.grid)
                        &&& (forall|x: int, y: int|
                            pre.grid.in_bounds(x, y) ==> #[trigger] post.grid.at(x, y)
                                == pre.grid.at(x, y))
                        &&& post == (PlayerState {
                            grid: post.grid,
                            settled: true,
                            pending_clear: pre.pending_clear || hm,
                            clear_timer: (if !pre.pending_clear && hm {
                                TickTimer::spec_base(pre.clear_timer.interval_ms)
                            } else {
                                pre.clear_timer
                            }),
                            gravity_timer: gt,
                            ..pre
                        })
                    } else {
                        let conv = count_true(cracked_seq(&pre.grid));
                        let pend2 = conv > 0 && spec_has_matches(&post.grid);
                        &&& post.grid.wf()
                        &&& post.grid.same_dims(&pre.grid)
                        &&& (forall|x: int, y: int|
                            pre.grid.in_bounds(x, y) && cracked_pred(&pre.grid, x, y)
                                ==> is_normal_cell(#[trigger] post.grid.at(x, y)))
                        &&& (forall|x: int, y: int|
                            pre.grid.in_bounds(x, y) && !cracked_pred(&pre.grid, x, y)
                                ==> #[trigger] post.grid.at(x, y) == pre.grid.at(
                                x,
                                y,
                            ))
                        &&& post == (PlayerState {
                            grid: post.grid,
                            settled: true,
                            pending_clear: pend2,
                            chain_active: false,
                            chain_index: 0,
                            chain_ended: true,
                            clear_timer: (if pend2 {
                                TickTimer::spec_base(pre.clear_timer.interval_ms)
                            } else {
                                pre.clear_timer
                            }),
                            gravity_timer: gt,
                            ..pre
                        })
                    }
                }
            }

/// How `clear_tick` relates the state after the tick to the state
/// before it.
pub open spec fn clear_tick_rel(pre: PlayerState, post: PlayerState, delta_ms: u64) -> bool {
                if !pre.pending_clear || !pre.settled {
                    post == pre
                } else {
                    let fired = delta_ms >= pre.clear_timer.remaining_ms;
                    let ct = TickTimer::spec_ticked(pre.clear_timer, delta_ms);
                    if !fired {
                        post == (PlayerState { clear_timer: ct, ..pre })
                    } else {
                        let cleared = match_count(&pre.grid);
                        if cleared == 0 {
                            &&& post.grid.wf()
                            &&& post.grid.same_dims(&pre.grid)
                            &&& (forall|x: int, y: int|
                                pre.grid.in_bounds(x, y) ==> #[trigger] post.grid.at(x, y) == pre.grid.at(x, y))
                            &&& post == (PlayerState {
                                grid: post.grid,
                                pending_clear: false,
                                clear_timer: ct,
                                ..pre
                            })
                        } else {
                            let w = pre.grid.width as int;
                            let h = pre.grid.height as int;
                            let groups = group_count(mark_seq(&pre.grid), w, h);
                            let newindex = if pre.chain_active {
                                if pre.chain_index + 1 <= u32::MAX {
                                    pre.chain_index + 1
                                } else {
                                    u32::MAX as int
                                }
                            } else {
                                1int
                            };
                            let total = garbage_units(cleared, groups, newindex);
                            let skip = (cleared < 4 && newindex < 2) || total == 0 || pre.garbage_outgoing >= GARBAGE_CHAIN_CAP;
                            let newout = if skip {
                                pre.garbage_outgoing as int
                            } else if pre.garbage_outgoing + total <= GARBAGE_CHAIN_CAP {
                                pre.garbage_outgoing + total
                            } else {
                                GARBAGE_CHAIN_CAP as int
                            };
                            &&& post.grid.wf()
                            &&& post.grid.same_dims(&pre.grid)
                            &&& (forall|x: int, y: int|
                                pre.grid.in_bounds(x, y) ==> #[trigger] post.grid.at(x, y) == (if marked(&pre.grid, x, y) {
                                    None
                                } else if crack_pred(
                                    &pre.grid,
                                    mark_seq(&pre.grid),
                                    x,
                                    y,
                                ) {
                                    Some(Block::Garbage { cracked: true })
                                } else {
                                    pre.grid.at(x, y)
                                }))
                            &&& post == (PlayerState {
                                grid: post.grid,
                                score: (if pre.score + cleared <= u32::MAX {
                                    pre.score + cleared
                                } else {
                                    u32::MAX as int
                                }) as u32,
                                pending_clear: false,
                                rise_paused: true,
                                rise_pause_timer: TickTimer::spec_base(
                                    pre.rise_pause_timer.interval_ms,
                                ),
                                clear_timer: ct,
                                chain_active: true,
                                chain_index: newindex as u32,
                                garbage_outgoing: newout as u32,
                                ..pre
                            })
                        }
                    }
                }
            }

/// How `rise_tick` relates the state after the tick to the state before
/// it; `over` is the loss report it returns.
pub open spec fn rise_tick_rel(pre: PlayerState, post: PlayerState, delta_ms: u64, over: bool) -> bool {
                let fired = delta_ms >= pre.rise_timer.remaining_ms;
                let rt = TickTimer::spec_ticked(pre.rise_timer, delta_ms);
                let blocked = pre.rise_paused || !pre.settled || (exists|x: int, y: int|
                    pre.grid.in_bounds(x, y) && #[trigger] garb_can_fall(
                        &pre.grid,
                        x,
                        y,
                    ));
                if !fired || blocked {
                    !over && post == (PlayerState { rise_timer: rt, ..pre })
                } else if pre.grid.spec_top_row_occupied() {
                    over && post == (PlayerState { rise_timer: rt, ..pre })
                } else {
                    &&& !over
                    &&& post.grid.wf()
                    &&& post.grid.same_dims(&pre.grid)
                    &&& (forall|x: int, y: int|
                        pre.grid.in_bounds(x, y) && y >= 1 ==> #[trigger] post.grid.at(x, y) == pre.grid.at(x, y - 1))
                    &&& (forall|x: int|
                        0 <= x < pre.grid.width ==> is_normal_cell(
                            #[trigger] post.grid.at(x, 0),
                        ))
                    &&& post.cursor == (Cursor {
                        x: pre.cursor.x,
                        y: (if pre.cursor.y + 1 < pre.grid.height {
                            pre.cursor.y + 1
                        } else {
                            pre.cursor.y as int
                        }) as usize,
                    })
                    &&& (if spec_has_matches(&post.grid) {
                        post == (PlayerState {
                            grid: post.grid,
                            cursor: post.cursor,
                            pending_clear: true,
                            clear_timer: TickTimer::spec_base(pre.clear_timer.interval_ms),
                            rise_timer: rt,
                            ..pre
                        })
                    } else {
                        post == (PlayerState {
                            grid: post.grid,
                            cursor: post.cursor,
                            rise_timer: rt,
                            ..pre
                        })
                    })
                }
            }


impl PlayerState {
    /// Decide `wf`, so that an unverified caller can test it before using
    /// the tick methods.
    pub fn check_wf(&self) -> (b: bool)
        ensures
            b == self.wf(),
    {
        let g = &self.grid;
        let n = g.cells.len();
        if g.width < 2 || g.height < 1 {
            return false;
        }
        proof {
            let wv = g.width as int;
            let hv = g.height as int;
            assert(wv * hv <= u128::MAX) by (nonlinear_arith)
                requires
                    0 <= wv <= u64::MAX,
                    0 <= hv <= u64::MAX,
            ;
        }
        if (n as u128) != (g.width as u128) * (g.height as u128) {
            return false;
        }
        if (g.width as u128) * (g.height as u128) > (u32::MAX as u128) {
            return false;
        }
        if self.cursor.x > g.width - 2 || self.cursor.y >= g.height {
            return false;
        }
        timer_wf(&self.clear_timer) && timer_wf(&self.gravity_timer) && timer_wf(&self.rise_timer)
            && timer_wf(&self.rise_pause_timer) && timer_wf(&self.repeat_timer)
    }
}

/// Decide `TickTimer::wf`.
fn timer_wf(t: &TickTimer) -> (b: bool)
    ensures
        b == t.wf(),
{
    1 <= t.remaining_ms && t.remaining_ms <= t.interval_ms
}

/// How `reset` relates the state after a match start or restart to the
/// state before it: the board keeps its dimensions, its bottom half is
/// refilled with colored blocks and its upper half emptied, and every
/// timer, counter and flag returns to its initial value.
pub open spec fn reset_rel(pre: PlayerState, post: PlayerState) -> bool {
    &&& post.grid.wf()
    &&& post.grid.same_dims(&pre.grid)
    &&& (forall|x: int, y: int|
        pre.grid.in_bounds(x, y) && y < pre.grid.height / 2 ==> is_normal_cell(
            #[trigger] post.grid.at(x, y),
        ))
    &&& (forall|x: int, y: int|
        pre.grid.in_bounds(x, y) && y >= pre.grid.height / 2 ==> #[trigger] post.grid.at(
            x,
            y,
        ) is None)
    &&& post == (PlayerState {
        grid: post.grid,
        cursor: Cursor { x: 0, y: 0 },
        score: 0,
        elapsed_ms: 0,
        pending_clear: false,
        settled: true,
        clear_timer: TickTimer::spec_base(CLEAR_DELAY_MS),
        gravity_timer: TickTimer::spec_base(GRAVITY_STEP_MS),
        rise_timer: TickTimer::spec_base(RISE_INTERVAL_MS),
        rise_pause_timer: TickTimer::spec_base(RISE_PAUSE_MS),
        rise_paused: false,
        rise_level: 0,
        repeat_dir: None,
        repeat_timer: TickTimer::spec_base(INPUT_REPEAT_DELAY_MS),
        repeat_initial: true,
        chain_active: false,
        chain_index: 0,
        chain_ended: false,
        garbage_outgoing: 0,
        garbage_incoming: 0,
    })
}

/// Whether this rise tick ends the player's match: the rise fires unpaused
/// on a settled board with no falling garbage, but the top row is occupied.
pub open spec fn rise_over(pre: PlayerState, delta_ms: u64) -> bool {
    let fired = delta_ms >= pre.rise_timer.remaining_ms;
    let blocked = pre.rise_paused || !pre.settled || (exists|x: int, y: int|
        pre.grid.in_bounds(x, y) && #[trigger] garb_can_fall(&pre.grid, x, y));
    fired && !blocked && pre.grid.spec_top_row_occupied()
}

} // verus!

use matchstack::Block;
use matchstack::BlockColor;
use matchstack::Dir;
use matchstack::MatchState;
use matchstack::PlayerId;
use matchstack::PlayerState;
use matchstack::TickTimer;
use matchstack::player::select_direction;
use matchstack::player::CLEAR_DELAY_MS;
use matchstack::player::GRAVITY_STEP_MS;
use matchstack::player::RISE_INTERVAL_MS;
use matchstack::player::RISE_SPEEDUP_INTERVAL_MS;
use matchstack::session::build_garbage_rows;
use matchstack::session::cancel_mutual;

fn norm(color: BlockColor) -> Option<Block> {
    Some(Block::Normal { color })
}

#[test]
fn timer_fires_once_per_tick_without_catch_up() {
    let mut t = TickTimer::new(100);
    assert!(!t.tick(60));
    assert_eq!(t.remaining_ms, 40);
    assert!(t.tick(40));
    assert_eq!(t.remaining_ms, 100);
    // A delta worth several intervals still fires only once and rearms.
    assert!(t.tick(350));
    assert_eq!(t.remaining_ms, 100);
    t.reset();
    assert_eq!(t.remaining_ms, 100);
}

#[test]
fn combo_of_four_in_one_group_yields_one_unit() {
    let mut p = PlayerState::new();
    p.chain_index = 1;
    p.add_garbage_for_clear(4, 1);
    assert_eq!(p.garbage_outgoing, 1);
}

#[test]
fn two_groups_of_three_yield_four_units() {
    let mut p = PlayerState::new();
    p.chain_index = 1;
    p.add_garbage_for_clear(6, 2);
    assert_eq!(p.garbage_outgoing, 4);
}

#[test]
fn chain_link_three_generates_despite_a_bare_three_clear() {
    let mut p = PlayerState::new();
    p.chain_index = 3;
    p.add_garbage_for_clear(3, 1);
    assert_eq!(p.garbage_outgoing, 4);
}

#[test]
fn bare_three_match_without_chain_generates_nothing() {
    let mut p = PlayerState::new();
    p.chain_index = 1;
    p.add_garbage_for_clear(3, 1);
    assert_eq!(p.garbage_outgoing, 0);
}

#[test]
fn outgoing_garbage_caps_within_a_chain() {
    let mut p = PlayerState::new();
    p.chain_index = 1;
    p.garbage_outgoing = 23;
    p.add_garbage_for_clear(8, 1);
    assert_eq!(p.garbage_outgoing, 24);
    // Once capped, further contributions are dropped.
    p.add_garbage_for_clear(8, 1);
    assert_eq!(p.garbage_outgoing, 24);
}

#[test]
fn mutual_cancellation_offsets_the_smaller_amount() {
    assert_eq!(cancel_mutual(5, 3), (2, 0));
    assert_eq!(cancel_mutual(3, 5), (0, 2));
    assert_eq!(cancel_mutual(4, 4), (0, 0));
    assert_eq!(cancel_mutual(0, 7), (0, 7));
}

#[test]
fn exchange_cancels_simultaneous_incoming_garbage() {
    // Both players hold incoming garbage in the same tick; block its
    // application so the queues stay visible after resolution.
    let mut m = MatchState::new(true);
    m.p1.garbage_incoming = 5;
    m.p2.garbage_incoming = 3;
    m.p1.pending_clear = true;
    m.p2.pending_clear = true;
    m.tick_exchange();
    assert_eq!(m.p1.garbage_incoming, 2);
    assert_eq!(m.p2.garbage_incoming, 0);
}

#[test]
fn exchange_transfers_a_finished_chain_to_the_opponent() {
    let mut m = MatchState::new(true);
    m.p1.chain_ended = true;
    m.p1.garbage_outgoing = 6;
    m.p2.pending_clear = true;
    m.p1.pending_clear = true;
    m.tick_exchange();
    assert_eq!(m.p1.garbage_outgoing, 0);
    assert!(!m.p1.chain_ended);
    assert_eq!(m.p2.garbage_incoming, 6);
}

#[test]
fn exchange_applies_incoming_garbage_to_an_idle_board() {
    let mut m = MatchState::new(true);
    m.p2.garbage_incoming = 6;
    m.tick_exchange();
    assert_eq!(m.p2.garbage_incoming, 0);
    assert!(!m.p2.settled);
    let mut garbage_cells = 0;
    for y in 0..12 {
        for x in 0..6 {
            if matches!(m.p2.grid.get(x, y), Some(Block::Garbage { cracked: false })) {
                garbage_cells += 1;
            }
        }
    }
    assert_eq!(garbage_cells, 6);
}

#[test]
fn exchange_requeues_units_when_insertion_fails() {
    let mut m = MatchState::new(true);
    // Occupy the whole top row so any full-width row insertion must fail.
    for x in 0..6 {
        m.p2.grid.set(x, 11, norm(BlockColor::Red));
    }
    m.p2.garbage_incoming = 6;
    m.tick_exchange();
    assert_eq!(m.p2.garbage_incoming, 6);
    assert!(m.p2.settled);
}

#[test]
fn build_garbage_rows_divides_units_into_rows() {
    let rows = build_garbage_rows(6, 14);
    assert_eq!(rows.len(), 3);
    assert!(rows[0].iter().all(|m| *m));
    assert!(rows[1].iter().all(|m| *m));
    let partial: Vec<usize> =
        (0..6).filter(|x| rows[2][*x]).collect();
    assert_eq!(partial.len(), 2);
    // The partial row's occupied cells form one contiguous run.
    assert_eq!(partial[1], partial[0] + 1);
    assert!(build_garbage_rows(6, 0).is_empty());
    assert_eq!(build_garbage_rows(6, 12).len(), 2);
}

#[test]
fn player_new_starts_zeroed() {
    let p = PlayerState::new();
    assert_eq!(p.grid.width, 6);
    assert_eq!(p.grid.height, 12);
    assert_eq!(p.score, 0);
    assert_eq!(p.chain_index, 0);
    assert!(p.settled);
    assert!(!p.pending_clear);
    assert!(p.check_wf());
}

#[test]
fn player_reset_rebuilds_the_starting_pattern() {
    let mut p = PlayerState::new();
    p.score = 99;
    p.garbage_incoming = 7;
    p.cursor.x = 3;
    p.reset();
    assert_eq!(p.score, 0);
    assert_eq!(p.garbage_incoming, 0);
    assert_eq!((p.cursor.x, p.cursor.y), (0, 0));
    for y in 0..6 {
        for x in 0..6 {
            assert!(matches!(p.grid.get(x, y), Some(Block::Normal { .. })));
        }
    }
    for y in 6..12 {
        for x in 0..6 {
            assert_eq!(p.grid.get(x, y), None);
        }
    }
}

#[test]
fn move_cursor_steps_and_clamps() {
    let mut p = PlayerState::new();
    p.move_cursor(Dir::Right);
    p.move_cursor(Dir::Up);
    assert_eq!((p.cursor.x, p.cursor.y), (1, 1));
    p.move_cursor(Dir::Left);
    p.move_cursor(Dir::Left);
    assert_eq!(p.cursor.x, 0);
    for _ in 0..20 {
        p.move_cursor(Dir::Right);
    }
    assert_eq!(p.cursor.x, 4);
}

#[test]
fn try_swap_schedules_a_clear_when_it_completes_a_match() {
    let mut p = PlayerState::new();
    p.grid.clear();
    // Two greens on the bottom row and a third one beside them, offset so
    // that swapping it in completes the run.
    p.grid.set(0, 0, norm(BlockColor::Green));
    p.grid.set(1, 0, norm(BlockColor::Green));
    p.grid.set(3, 0, norm(BlockColor::Green));
    p.cursor.x = 2;
    p.cursor.y = 0;
    p.try_swap();
    assert!(p.pending_clear);
    assert_eq!(p.grid.get(2, 0), norm(BlockColor::Green));
}

#[test]
fn try_swap_on_garbage_changes_nothing() {
    let mut p = PlayerState::new();
    p.grid.clear();
    p.grid.set(0, 0, Some(Block::Garbage { cracked: false }));
    p.cursor.x = 0;
    p.cursor.y = 0;
    p.try_swap();
    assert!(!p.pending_clear);
    assert_eq!(p.grid.get(0, 0), Some(Block::Garbage { cracked: false }));
}

#[test]
fn gravity_tick_drops_blocks_on_its_interval() {
    let mut p = PlayerState::new();
    p.grid.clear();
    p.grid.set(2, 5, norm(BlockColor::Red));
    p.gravity_tick(GRAVITY_STEP_MS - 1);
    assert_eq!(p.grid.get(2, 5), norm(BlockColor::Red));
    p.gravity_tick(1);
    assert_eq!(p.grid.get(2, 5), None);
    assert_eq!(p.grid.get(2, 4), norm(BlockColor::Red));
    assert!(!p.settled);
    p.gravity_tick(GRAVITY_STEP_MS);
    assert_eq!(p.grid.get(2, 3), norm(BlockColor::Red));
}

#[test]
fn gravity_tick_settles_and_schedules_a_waiting_match() {
    let mut p = PlayerState::new();
    p.grid.clear();
    p.grid.set(0, 0, norm(BlockColor::Blue));
    p.grid.set(1, 0, norm(BlockColor::Blue));
    p.grid.set(2, 0, norm(BlockColor::Blue));
    p.settled = false;
    p.gravity_tick(GRAVITY_STEP_MS);
    assert!(p.settled);
    assert!(p.pending_clear);
}

#[test]
fn chain_ends_and_converts_cracked_garbage_when_board_is_quiet() {
    let mut p = PlayerState::new();
    p.grid.clear();
    p.grid.set(4, 0, Some(Block::Garbage { cracked: true }));
    p.chain_active = true;
    p.chain_index = 2;
    p.gravity_tick(GRAVITY_STEP_MS);
    assert!(!p.chain_active);
    assert_eq!(p.chain_index, 0);
    assert!(p.chain_ended);
    assert!(matches!(p.grid.get(4, 0), Some(Block::Normal { .. })));
}

#[test]
fn clear_tick_scores_and_advances_the_chain() {
    let mut p = PlayerState::new();
    p.grid.clear();
    p.grid.set(0, 0, norm(BlockColor::Red));
    p.grid.set(1, 0, norm(BlockColor::Red));
    p.grid.set(2, 0, norm(BlockColor::Red));
    p.grid.set(3, 0, norm(BlockColor::Red));
    p.pending_clear = true;
    p.settled = true;
    p.clear_tick(CLEAR_DELAY_MS);
    assert_eq!(p.score, 4);
    assert!(!p.pending_clear);
    assert!(p.chain_active);
    assert_eq!(p.chain_index, 1);
    assert!(p.rise_paused);
    assert_eq!(p.garbage_outgoing, 1);
    assert_eq!(p.grid.get(0, 0), None);
}

#[test]
fn clear_tick_waits_for_the_delay() {
    let mut p = PlayerState::new();
    p.grid.clear();
    p.grid.set(0, 0, norm(BlockColor::Red));
    p.grid.set(1, 0, norm(BlockColor::Red));
    p.grid.set(2, 0, norm(BlockColor::Red));
    p.pending_clear = true;
    p.clear_tick(CLEAR_DELAY_MS - 1);
    assert_eq!(p.grid.get(0, 0), norm(BlockColor::Red));
    assert!(p.pending_clear);
}

#[test]
fn rise_tick_pushes_the_stack_and_lifts_the_cursor() {
    let mut p = PlayerState::new();
    p.grid.clear();
    p.grid.set(1, 0, Some(Block::Garbage { cracked: false }));
    p.cursor.y = 3;
    let over = p.rise_tick(RISE_INTERVAL_MS);
    assert!(!over);
    assert_eq!(p.grid.get(1, 1), Some(Block::Garbage { cracked: false }));
    assert!(matches!(p.grid.get(1, 0), Some(Block::Normal { .. })));
    assert_eq!(p.cursor.y, 4);
}

#[test]
fn rise_tick_reports_a_loss_on_an_occupied_top_row() {
    let mut p = PlayerState::new();
    p.grid.clear();
    p.grid.set(0, 11, norm(BlockColor::Red));
    let over = p.rise_tick(RISE_INTERVAL_MS);
    assert!(over);
    assert_eq!(p.grid.get(0, 11), norm(BlockColor::Red));
}

#[test]
fn rise_tick_waits_while_paused_or_unsettled() {
    let mut p = PlayerState::new();
    p.grid.clear();
    p.rise_paused = true;
    assert!(!p.rise_tick(RISE_INTERVAL_MS));
    assert_eq!(p.grid.get(0, 0), None);
    let mut q = PlayerState::new();
    q.grid.clear();
    q.settled = false;
    assert!(!q.rise_tick(RISE_INTERVAL_MS));
    assert_eq!(q.grid.get(0, 0), None);
}

#[test]
fn rise_pause_expires_after_its_duration() {
    let mut p = PlayerState::new();
    p.rise_paused = true;
    p.rise_pause_tick(100);
    assert!(p.rise_paused);
    p.rise_pause_tick(500);
    assert!(!p.rise_paused);
}

#[test]
fn elapsed_time_ramps_the_rise_interval_down_to_a_floor() {
    let mut p = PlayerState::new();
    p.elapsed_tick(RISE_SPEEDUP_INTERVAL_MS);
    assert_eq!(p.rise_level, 1);
    // One decay step: 2500 * 89 / 100.
    assert_eq!(p.rise_timer.interval_ms, 2225);
    let mut q = PlayerState::new();
    q.elapsed_tick(RISE_SPEEDUP_INTERVAL_MS * 1000);
    assert_eq!(q.rise_level, 1000);
    assert_eq!(q.rise_timer.interval_ms, 800);
}

#[test]
fn select_direction_prefers_fresh_presses_then_the_held_current() {
    assert_eq!(
        select_direction(None, false, true, false, false, true, true, false, false),
        Some(Dir::Right)
    );
    assert_eq!(
        select_direction(Some(Dir::Down), false, false, false, false, true, false, false, true),
        Some(Dir::Down)
    );
    assert_eq!(
        select_direction(Some(Dir::Down), false, false, false, false, false, true, false, false),
        Some(Dir::Right)
    );
    assert_eq!(
        select_direction(None, false, false, false, false, false, false, false, false),
        None
    );
}

#[test]
fn repeat_move_fires_immediately_then_after_the_delay() {
    let mut p = PlayerState::new();
    p.update_repeat_move(Some(Dir::Right), 0);
    assert_eq!(p.cursor.x, 1);
    // Held: nothing happens until the repeat delay elapses.
    p.update_repeat_move(Some(Dir::Right), 100);
    assert_eq!(p.cursor.x, 1);
    p.update_repeat_move(Some(Dir::Right), 150);
    assert_eq!(p.cursor.x, 2);
    // After the first repetition the shorter interval applies.
    p.update_repeat_move(Some(Dir::Right), 80);
    assert_eq!(p.cursor.x, 3);
    // Releasing rearms the initial delay.
    p.update_repeat_move(None, 16);
    assert_eq!(p.repeat_dir, None);
    assert!(p.repeat_initial);
}

#[test]
fn match_over_when_a_player_overflows() {
    let mut m = MatchState::new(true);
    m.p1.grid.clear();
    m.p2.grid.clear();
    for x in 0..6 {
        m.p1.grid.set(x, 11, norm(BlockColor::Red));
    }
    m.tick_rise(RISE_INTERVAL_MS);
    assert!(m.over);
    assert_eq!(m.winner, Some(PlayerId::P2));
}

#[test]
fn single_player_loss_has_no_winner() {
    let mut m = MatchState::new(false);
    m.p1.grid.clear();
    for x in 0..6 {
        m.p1.grid.set(x, 11, norm(BlockColor::Red));
    }
    m.tick_rise(RISE_INTERVAL_MS);
    assert!(m.over);
    assert_eq!(m.winner, None);
}

#[test]
fn finished_match_no_longer_advances() {
    let mut m = MatchState::new(true);
    m.over = true;
    m.p1.grid.clear();
    m.p1.grid.set(0, 5, norm(BlockColor::Red));
    m.tick_gravity(GRAVITY_STEP_MS);
    assert_eq!(m.p1.grid.get(0, 5), norm(BlockColor::Red));
}

#[test]
fn session_reset_clears_the_terminal_state() {
    let mut m = MatchState::new(true);
    m.over = true;
    m.winner = Some(PlayerId::P1);
    m.reset();
    assert!(!m.over);
    assert_eq!(m.winner, None);
    assert!(m.check_wf());
}

#[test]
fn chain_of_two_clears_counts_both_links() {
    // Three greens hang over a row of reds so that clearing the reds
    // drops them into a horizontal run for a second clear.
    let mut p = PlayerState::new();
    p.grid.clear();
    p.grid.set(0, 0, norm(BlockColor::Red));
    p.grid.set(1, 0, norm(BlockColor::Red));
    p.grid.set(2, 0, norm(BlockColor::Red));
    p.grid.set(0, 1, norm(BlockColor::Green));
    p.grid.set(1, 1, norm(BlockColor::Green));
    p.grid.set(2, 2, norm(BlockColor::Green));
    p.pending_clear = true;
    // First clear: the three reds vanish, chain link one.
    p.clear_tick(CLEAR_DELAY_MS);
    assert_eq!(p.chain_index, 1);
    assert_eq!(p.score, 3);
    // Let gravity settle the greens into a vertical run; the settle
    // schedules the follow-up clear.
    for _ in 0..8 {
        p.gravity_tick(GRAVITY_STEP_MS);
    }
    assert!(p.pending_clear);
    p.clear_tick(CLEAR_DELAY_MS);
    assert_eq!(p.chain_index, 2);
    assert_eq!(p.score, 6);
    // Chain of two: the second link contributes 2 bonus units.
    assert_eq!(p.garbage_outgoing, 2);
}

use matchstack::Block;
use matchstack::BlockColor;
use matchstack::Cursor;
use matchstack::Grid;
use matchstack::SwapCmd;

fn norm(color: BlockColor) -> Option<Block> {
    Some(Block::Normal { color })
}

fn garbage(cracked: bool) -> Option<Block> {
    Some(Block::Garbage { cracked })
}

fn snapshot(g: &Grid) -> Vec<Option<Block>> {
    let mut cells = Vec::new();
    for y in 0..g.height {
        for x in 0..g.width {
            cells.push(g.get(x, y));
        }
    }
    cells
}

fn is_normal(c: Option<Block>) -> bool {
    matches!(c, Some(Block::Normal { .. }))
}

#[test]
fn new_grid_is_empty() {
    let g = Grid::new(6, 12);
    assert_eq!(g.width, 6);
    assert_eq!(g.height, 12);
    for y in 0..12 {
        for x in 0..6 {
            assert_eq!(g.get(x, y), None);
        }
    }
}

#[test]
fn get_set_swap_roundtrip() {
    let mut g = Grid::new(6, 12);
    g.set(2, 3, norm(BlockColor::Red));
    g.set(3, 3, norm(BlockColor::Blue));
    assert_eq!(g.get(2, 3), norm(BlockColor::Red));
    g.swap(2, 3, 3, 3);
    assert_eq!(g.get(2, 3), norm(BlockColor::Blue));
    assert_eq!(g.get(3, 3), norm(BlockColor::Red));
}

#[test]
fn swap_in_bounds_refuses_garbage_and_leaves_board_unchanged() {
    // Either cell holding garbage refuses the swap with no mutation at all.
    let mut g = Grid::new(6, 12);
    g.set(1, 5, norm(BlockColor::Green));
    g.set(2, 5, garbage(false));
    let before = snapshot(&g);
    assert!(!g.swap_in_bounds(SwapCmd::right_of(1, 5)));
    assert_eq!(snapshot(&g), before);
    // The same with the left cell garbage.
    let mut g2 = Grid::new(6, 12);
    g2.set(0, 0, garbage(true));
    g2.set(1, 0, norm(BlockColor::Red));
    let before2 = snapshot(&g2);
    assert!(!g2.swap_in_bounds(SwapCmd::right_of(0, 0)));
    assert_eq!(snapshot(&g2), before2);
}

#[test]
fn swap_in_bounds_refuses_out_of_range() {
    let mut g = Grid::new(6, 12);
    let before = snapshot(&g);
    assert!(!g.swap_in_bounds(SwapCmd::right_of(5, 0)));
    assert!(!g.swap_in_bounds(SwapCmd { ax: 0, ay: 12, bx: 1, by: 12 }));
    assert_eq!(snapshot(&g), before);
}

#[test]
fn swap_in_bounds_swaps_normal_blocks() {
    let mut g = Grid::new(6, 12);
    g.set(0, 0, norm(BlockColor::Red));
    assert!(g.swap_in_bounds(SwapCmd::right_of(0, 0)));
    assert_eq!(g.get(0, 0), None);
    assert_eq!(g.get(1, 0), norm(BlockColor::Red));
}

#[test]
fn clear_on_stable_board_reports_zeros_and_mutates_nothing() {
    let mut g = Grid::new(6, 12);
    // A two-in-a-row and an isolated block: no run of three anywhere.
    g.set(0, 0, norm(BlockColor::Red));
    g.set(1, 0, norm(BlockColor::Red));
    g.set(3, 0, norm(BlockColor::Red));
    g.set(0, 1, norm(BlockColor::Blue));
    let before = snapshot(&g);
    let stats = g.clear_matches_once_with_stats();
    assert_eq!(stats.cleared, 0);
    assert_eq!(stats.groups, 0);
    assert!(stats.marks.iter().all(|m| !*m));
    assert_eq!(snapshot(&g), before);
}

#[test]
fn clear_removes_a_horizontal_run_of_three() {
    let mut g = Grid::new(6, 12);
    g.set(1, 0, norm(BlockColor::Green));
    g.set(2, 0, norm(BlockColor::Green));
    g.set(3, 0, norm(BlockColor::Green));
    g.set(4, 0, norm(BlockColor::Red));
    let stats = g.clear_matches_once_with_stats();
    assert_eq!(stats.cleared, 3);
    assert_eq!(stats.groups, 1);
    assert_eq!(g.get(1, 0), None);
    assert_eq!(g.get(2, 0), None);
    assert_eq!(g.get(3, 0), None);
    assert_eq!(g.get(4, 0), norm(BlockColor::Red));
}

#[test]
fn clear_counts_two_simultaneous_groups() {
    let mut g = Grid::new(6, 12);
    // A horizontal run at the bottom and a vertical run in another corner.
    g.set(0, 0, norm(BlockColor::Red));
    g.set(1, 0, norm(BlockColor::Red));
    g.set(2, 0, norm(BlockColor::Red));
    g.set(5, 4, norm(BlockColor::Blue));
    g.set(5, 5, norm(BlockColor::Blue));
    g.set(5, 6, norm(BlockColor::Blue));
    let stats = g.clear_matches_once_with_stats();
    assert_eq!(stats.cleared, 6);
    assert_eq!(stats.groups, 2);
}

#[test]
fn crossing_runs_form_one_group() {
    let mut g = Grid::new(6, 12);
    // A plus shape of one color: one 4-connected group of 5 marked cells.
    g.set(2, 1, norm(BlockColor::Purple));
    g.set(1, 2, norm(BlockColor::Purple));
    g.set(2, 2, norm(BlockColor::Purple));
    g.set(3, 2, norm(BlockColor::Purple));
    g.set(2, 3, norm(BlockColor::Purple));
    let stats = g.clear_matches_once_with_stats();
    assert_eq!(stats.cleared, 5);
    assert_eq!(stats.groups, 1);
}

#[test]
fn run_of_four_marks_every_cell() {
    let mut g = Grid::new(6, 12);
    for x in 0..4 {
        g.set(x, 2, norm(BlockColor::Yellow));
    }
    assert!(g.has_matches());
    let cleared = g.clear_matches_once();
    assert_eq!(cleared, 4);
}

#[test]
fn garbage_never_matches() {
    let mut g = Grid::new(6, 12);
    g.set(0, 0, garbage(false));
    g.set(1, 0, garbage(false));
    g.set(2, 0, garbage(false));
    assert!(!g.has_matches());
}

#[test]
fn gravity_single_normal_block_falls_one_row_per_step() {
    let mut g = Grid::new(6, 12);
    g.set(2, 3, norm(BlockColor::Red));
    assert!(g.apply_gravity_step());
    assert_eq!(g.get(2, 3), None);
    assert_eq!(g.get(2, 2), norm(BlockColor::Red));
}

#[test]
fn gravity_supported_block_does_not_move() {
    let mut g = Grid::new(6, 12);
    g.set(2, 0, norm(BlockColor::Red));
    g.set(2, 1, norm(BlockColor::Blue));
    assert!(!g.apply_gravity_step());
    assert_eq!(g.get(2, 0), norm(BlockColor::Red));
    assert_eq!(g.get(2, 1), norm(BlockColor::Blue));
}

#[test]
fn gravity_fixed_point_supports_every_normal_block() {
    // Repeated steps until nothing moves give a board where every normal
    // block is on the floor or on an occupied cell, and one more step
    // changes nothing.
    let mut g = Grid::new(6, 12);
    g.set(0, 7, norm(BlockColor::Red));
    g.set(1, 5, norm(BlockColor::Green));
    g.set(1, 9, norm(BlockColor::Blue));
    g.set(4, 3, garbage(false));
    g.set(5, 3, garbage(false));
    g.set(3, 11, norm(BlockColor::Purple));
    while g.apply_gravity_step() {}
    for y in 0..12 {
        for x in 0..6 {
            if is_normal(g.get(x, y)) {
                assert!(y == 0 || g.get(x, y - 1).is_some());
            }
        }
    }
    let before = snapshot(&g);
    assert!(!g.apply_gravity_step());
    assert_eq!(snapshot(&g), before);
}

#[test]
fn apply_gravity_settles_everything_at_once() {
    let mut g = Grid::new(6, 12);
    g.set(0, 10, norm(BlockColor::Red));
    g.set(0, 11, norm(BlockColor::Blue));
    g.apply_gravity();
    assert_eq!(g.get(0, 0), norm(BlockColor::Red));
    assert_eq!(g.get(0, 1), norm(BlockColor::Blue));
    assert_eq!(g.get(0, 10), None);
    assert_eq!(g.get(0, 11), None);
}

#[test]
fn garbage_component_falls_rigidly_without_splitting() {
    // An L-shaped garbage component with one arm over a hole: the whole
    // component falls together, each cell exactly one row, keeping its shape.
    let mut g = Grid::new(6, 12);
    g.set(1, 2, garbage(false));
    g.set(2, 2, garbage(false));
    g.set(2, 1, garbage(false));
    assert!(g.apply_gravity_step());
    assert_eq!(g.get(1, 1), garbage(false));
    assert_eq!(g.get(2, 1), garbage(false));
    assert_eq!(g.get(2, 0), garbage(false));
    assert_eq!(g.get(1, 2), None);
    assert_eq!(g.get(2, 2), None);
}

#[test]
fn garbage_component_blocked_by_one_support_does_not_fall() {
    // One cell of the component rests on a normal block: no cell moves.
    let mut g = Grid::new(6, 12);
    g.set(1, 2, garbage(false));
    g.set(2, 2, garbage(false));
    g.set(2, 1, norm(BlockColor::Red));
    g.set(2, 0, norm(BlockColor::Blue));
    let before = snapshot(&g);
    assert!(!g.apply_gravity_step());
    assert_eq!(snapshot(&g), before);
}

#[test]
fn garbage_lands_on_garbage_of_same_column_component() {
    // Vertically stacked garbage is one component and falls as one.
    let mut g = Grid::new(6, 12);
    g.set(3, 4, garbage(false));
    g.set(3, 5, garbage(false));
    assert!(g.apply_gravity_step());
    assert_eq!(g.get(3, 3), garbage(false));
    assert_eq!(g.get(3, 4), garbage(false));
    assert_eq!(g.get(3, 5), None);
}

#[test]
fn has_falling_garbage_tracks_component_support() {
    let mut g = Grid::new(6, 12);
    g.set(1, 3, garbage(false));
    assert!(g.has_falling_garbage());
    let mut g2 = Grid::new(6, 12);
    g2.set(1, 0, garbage(false));
    assert!(!g2.has_falling_garbage());
    let mut g3 = Grid::new(6, 12);
    g3.set(1, 1, garbage(false));
    g3.set(1, 0, norm(BlockColor::Red));
    assert!(!g3.has_falling_garbage());
}

#[test]
fn crack_reaches_the_whole_adjacent_component_only() {
    let mut g = Grid::new(6, 12);
    // A run of three reds next to a two-cell garbage component; a separate
    // garbage component far away stays intact.
    g.set(0, 0, norm(BlockColor::Red));
    g.set(1, 0, norm(BlockColor::Red));
    g.set(2, 0, norm(BlockColor::Red));
    g.set(2, 1, garbage(false));
    g.set(3, 1, garbage(false));
    g.set(5, 11, garbage(false));
    let stats = g.clear_matches_once_with_stats();
    assert_eq!(stats.cleared, 3);
    let cracked = g.crack_adjacent_garbage(&stats.marks);
    assert_eq!(cracked, 2);
    assert_eq!(g.get(2, 1), garbage(true));
    assert_eq!(g.get(3, 1), garbage(true));
    assert_eq!(g.get(5, 11), garbage(false));
}

#[test]
fn crack_counts_only_intact_cells() {
    let mut g = Grid::new(6, 12);
    g.set(0, 0, norm(BlockColor::Red));
    g.set(1, 0, norm(BlockColor::Red));
    g.set(2, 0, norm(BlockColor::Red));
    g.set(0, 1, garbage(true));
    g.set(1, 1, garbage(false));
    let stats = g.clear_matches_once_with_stats();
    let cracked = g.crack_adjacent_garbage(&stats.marks);
    assert_eq!(cracked, 1);
    assert_eq!(g.get(0, 1), garbage(true));
    assert_eq!(g.get(1, 1), garbage(true));
}

#[test]
fn convert_turns_cracked_garbage_into_normal_blocks() {
    let mut g = Grid::new(6, 12);
    g.set(1, 1, garbage(true));
    g.set(2, 1, garbage(true));
    g.set(3, 1, garbage(false));
    let converted = g.convert_cracked_garbage();
    assert_eq!(converted, 2);
    assert!(is_normal(g.get(1, 1)));
    assert!(is_normal(g.get(2, 1)));
    assert_eq!(g.get(3, 1), garbage(false));
}

#[test]
fn insert_garbage_is_all_or_nothing_on_occupied_target() {
    // A marked target cell already occupied: the call fails and not one
    // cell changes.
    let mut g = Grid::new(6, 12);
    g.set(2, 11, norm(BlockColor::Red));
    let before = snapshot(&g);
    let rows = vec![vec![true, true, true, true, true, true]];
    assert!(!g.insert_garbage_rows_from_top(&rows));
    assert_eq!(snapshot(&g), before);
}

#[test]
fn insert_garbage_rejects_wrong_width_and_too_many_rows() {
    let mut g = Grid::new(6, 12);
    let before = snapshot(&g);
    assert!(!g.insert_garbage_rows_from_top(&vec![vec![true; 5]]));
    assert!(!g.insert_garbage_rows_from_top(&vec![vec![true; 6]; 13]));
    assert_eq!(snapshot(&g), before);
}

#[test]
fn insert_one_full_row_fills_exactly_the_top_row() {
    // End to end: one row-mask of six occupied cells lands as intact
    // garbage in the topmost row and touches nothing else.
    let mut g = Grid::new(6, 12);
    let rows = vec![vec![true; 6]];
    assert!(g.insert_garbage_rows_from_top(&rows));
    for x in 0..6 {
        assert_eq!(g.get(x, 11), garbage(false));
    }
    for y in 0..11 {
        for x in 0..6 {
            assert_eq!(g.get(x, y), None);
        }
    }
}

#[test]
fn insert_empty_rows_succeeds_and_changes_nothing() {
    let mut g = Grid::new(6, 12);
    g.set(0, 0, norm(BlockColor::Red));
    let before = snapshot(&g);
    let rows: Vec<Vec<bool>> = Vec::new();
    assert!(g.insert_garbage_rows_from_top(&rows));
    assert_eq!(snapshot(&g), before);
}

#[test]
fn insert_respects_partial_masks() {
    let mut g = Grid::new(6, 12);
    let rows = vec![vec![true, false, true, false, false, true]];
    assert!(g.insert_garbage_rows_from_top(&rows));
    assert_eq!(g.get(0, 11), garbage(false));
    assert_eq!(g.get(1, 11), None);
    assert_eq!(g.get(2, 11), garbage(false));
    assert_eq!(g.get(5, 11), garbage(false));
}

#[test]
fn top_row_occupied_reports_overflow() {
    let mut g = Grid::new(6, 12);
    assert!(!g.top_row_occupied());
    g.set(4, 11, garbage(false));
    assert!(g.top_row_occupied());
}

#[test]
fn push_bottom_row_shifts_everything_up() {
    let mut g = Grid::new(6, 12);
    g.set(1, 0, norm(BlockColor::Red));
    g.set(2, 4, garbage(false));
    g.push_bottom_row();
    assert_eq!(g.get(1, 1), norm(BlockColor::Red));
    assert_eq!(g.get(2, 5), garbage(false));
    for x in 0..6 {
        assert!(is_normal(g.get(x, 0)));
    }
}

#[test]
fn push_bottom_row_is_a_no_op_when_top_row_is_occupied() {
    let mut g = Grid::new(6, 12);
    g.set(0, 11, norm(BlockColor::Red));
    g.set(3, 2, norm(BlockColor::Blue));
    let before = snapshot(&g);
    g.push_bottom_row();
    assert_eq!(snapshot(&g), before);
}

#[test]
fn fill_test_pattern_fills_the_bottom_half() {
    let mut g = Grid::new(6, 12);
    g.fill_test_pattern();
    for y in 0..6 {
        for x in 0..6 {
            assert!(is_normal(g.get(x, y)));
        }
    }
    for y in 6..12 {
        for x in 0..6 {
            assert_eq!(g.get(x, y), None);
        }
    }
}

#[test]
fn clear_empties_the_board() {
    let mut g = Grid::new(6, 12);
    g.fill_test_pattern();
    g.clear();
    for y in 0..12 {
        for x in 0..6 {
            assert_eq!(g.get(x, y), None);
        }
    }
}

#[test]
fn block_accessors() {
    let b = Block::Normal { color: BlockColor::Red };
    assert_eq!(b.color(), Some(BlockColor::Red));
    assert!(!b.is_garbage());
    let g = Block::Garbage { cracked: true };
    assert_eq!(g.color(), None);
    assert!(g.is_garbage());
}

#[test]
fn cursor_moves_clamp_to_the_selector_range() {
    let mut c = Cursor::new(0, 0);
    assert!(!c.move_by(-1, 0, 6, 12));
    assert_eq!((c.x, c.y), (0, 0));
    assert!(c.move_by(1, 1, 6, 12));
    assert_eq!((c.x, c.y), (1, 1));
    assert!(c.move_by(100, 100, 6, 12));
    assert_eq!((c.x, c.y), (4, 11));
    assert!(!c.move_by(1, 1, 6, 12));
    assert_eq!((c.x, c.y), (4, 11));
}

#[test]
fn cursor_on_degenerate_board_never_moves() {
    let mut c = Cursor::new(3, 3);
    assert!(!c.move_by(1, 1, 1, 12));
    assert_eq!((c.x, c.y), (3, 3));
    assert!(!c.move_by(1, 1, 6, 0));
    assert_eq!((c.x, c.y), (3, 3));
}

#[test]
fn swap_cmd_right_of_is_the_cursor_footprint() {
    let cmd = SwapCmd::right_of(2, 7);
    assert_eq!((cmd.ax, cmd.ay, cmd.bx, cmd.by), (2, 7, 3, 7));
}

#[test]
fn settling_conserves_each_columns_blocks_in_order() {
    let mut g = Grid::new(6, 12);
    g.set(2, 3, norm(BlockColor::Red));
    g.set(2, 7, norm(BlockColor::Blue));
    g.set(2, 9, garbage(false));
    g.set(4, 5, norm(BlockColor::Yellow));
    let column_blocks = |g: &Grid, x: usize| -> Vec<Option<Block>> {
        (0..g.height).filter_map(|y| g.get(x, y).map(Some)).collect()
    };
    let before: Vec<Vec<Option<Block>>> = (0..6).map(|x| column_blocks(&g, x)).collect();
    g.apply_gravity();
    let after: Vec<Vec<Option<Block>>> = (0..6).map(|x| column_blocks(&g, x)).collect();
    assert_eq!(before, after);
    assert_eq!(g.get(2, 0), norm(BlockColor::Red));
    assert_eq!(g.get(2, 1), norm(BlockColor::Blue));
    assert_eq!(g.get(2, 2), garbage(false));
    assert_eq!(g.get(4, 0), norm(BlockColor::Yellow));
}

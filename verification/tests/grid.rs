//! Tests of the grid engine: win detection in all four directions, the
//! fixed scan order, and the gravity helpers.

use game_rooms::grid::detect_win;
use game_rooms::grid::grid_is_full;
use game_rooms::grid::lowest_empty_row;
use game_rooms::grid::new_grid;
use game_rooms::records::COLS;
use game_rooms::records::ROWS;

fn put(t: &mut Vec<Vec<Option<u64>>>, r: usize, c: usize, o: u64) {
    t[r][c] = Some(o);
}

#[test]
fn detect_win_none_on_blank() {
    let t = new_grid();
    assert!(detect_win(&t, 7).is_none());
}

#[test]
fn detect_win_horizontal_exact_coords() {
    let mut t = new_grid();
    put(&mut t, 5, 0, 7);
    put(&mut t, 5, 1, 7);
    put(&mut t, 5, 2, 7);
    put(&mut t, 5, 3, 7);
    let w = detect_win(&t, 7).expect("horizontal streak");
    let got: Vec<(u32, u32)> = w.iter().map(|c| (c.x, c.y)).collect();
    assert_eq!(got, vec![(5, 0), (5, 1), (5, 2), (5, 3)]);
}

#[test]
fn detect_win_vertical_exact_coords() {
    let mut t = new_grid();
    put(&mut t, 2, 5, 9);
    put(&mut t, 3, 5, 9);
    put(&mut t, 4, 5, 9);
    put(&mut t, 5, 5, 9);
    let w = detect_win(&t, 9).expect("vertical streak");
    let got: Vec<(u32, u32)> = w.iter().map(|c| (c.x, c.y)).collect();
    assert_eq!(got, vec![(2, 5), (3, 5), (4, 5), (5, 5)]);
}

#[test]
fn detect_win_diagonal_down_exact_coords() {
    let mut t = new_grid();
    put(&mut t, 0, 0, 4);
    put(&mut t, 1, 1, 4);
    put(&mut t, 2, 2, 4);
    put(&mut t, 3, 3, 4);
    let w = detect_win(&t, 4).expect("downward diagonal streak");
    let got: Vec<(u32, u32)> = w.iter().map(|c| (c.x, c.y)).collect();
    assert_eq!(got, vec![(0, 0), (1, 1), (2, 2), (3, 3)]);
}

#[test]
fn detect_win_diagonal_up_exact_coords() {
    let mut t = new_grid();
    put(&mut t, 3, 0, 4);
    put(&mut t, 2, 1, 4);
    put(&mut t, 1, 2, 4);
    put(&mut t, 0, 3, 4);
    let w = detect_win(&t, 4).expect("upward diagonal streak");
    let got: Vec<(u32, u32)> = w.iter().map(|c| (c.x, c.y)).collect();
    assert_eq!(got, vec![(3, 0), (2, 1), (1, 2), (0, 3)]);
}

#[test]
fn detect_win_prefers_horizontal_over_vertical() {
    let mut t = new_grid();
    // A vertical streak in column 9 ...
    put(&mut t, 2, 9, 7);
    put(&mut t, 3, 9, 7);
    put(&mut t, 4, 9, 7);
    put(&mut t, 5, 9, 7);
    // ... and a horizontal streak in row 5.
    put(&mut t, 5, 0, 7);
    put(&mut t, 5, 1, 7);
    put(&mut t, 5, 2, 7);
    put(&mut t, 5, 3, 7);
    let w = detect_win(&t, 7).expect("some streak");
    let got: Vec<(u32, u32)> = w.iter().map(|c| (c.x, c.y)).collect();
    assert_eq!(got, vec![(5, 0), (5, 1), (5, 2), (5, 3)]);
}

#[test]
fn detect_win_reports_first_horizontal_in_scan_order() {
    let mut t = new_grid();
    // Two horizontal streaks; the one in the earlier row wins.
    put(&mut t, 4, 6, 3);
    put(&mut t, 4, 7, 3);
    put(&mut t, 4, 8, 3);
    put(&mut t, 4, 9, 3);
    put(&mut t, 1, 2, 3);
    put(&mut t, 1, 3, 3);
    put(&mut t, 1, 4, 3);
    put(&mut t, 1, 5, 3);
    let w = detect_win(&t, 3).expect("some streak");
    let got: Vec<(u32, u32)> = w.iter().map(|c| (c.x, c.y)).collect();
    assert_eq!(got, vec![(1, 2), (1, 3), (1, 4), (1, 5)]);
}

#[test]
fn detect_win_three_in_a_row_is_not_enough() {
    let mut t = new_grid();
    put(&mut t, 5, 0, 7);
    put(&mut t, 5, 1, 7);
    put(&mut t, 5, 2, 7);
    assert!(detect_win(&t, 7).is_none());
}

#[test]
fn detect_win_only_counts_the_given_owner() {
    let mut t = new_grid();
    put(&mut t, 5, 0, 8);
    put(&mut t, 5, 1, 8);
    put(&mut t, 5, 2, 8);
    put(&mut t, 5, 3, 8);
    assert!(detect_win(&t, 7).is_none());
    assert!(detect_win(&t, 8).is_some());
}

#[test]
fn detect_win_broken_run_is_no_streak() {
    let mut t = new_grid();
    put(&mut t, 5, 0, 7);
    put(&mut t, 5, 1, 7);
    put(&mut t, 5, 2, 8);
    put(&mut t, 5, 3, 7);
    put(&mut t, 5, 4, 7);
    assert!(detect_win(&t, 7).is_none());
}

#[test]
fn detect_win_sees_the_last_window_of_a_row() {
    let mut t = new_grid();
    put(&mut t, 5, COLS - 4, 6);
    put(&mut t, 5, COLS - 3, 6);
    put(&mut t, 5, COLS - 2, 6);
    put(&mut t, 5, COLS - 1, 6);
    let w = detect_win(&t, 6).expect("streak at the right edge");
    let got: Vec<(u32, u32)> = w.iter().map(|c| (c.x, c.y)).collect();
    let c0 = (COLS - 4) as u32;
    assert_eq!(got, vec![(5, c0), (5, c0 + 1), (5, c0 + 2), (5, c0 + 3)]);
}

#[test]
fn lowest_empty_row_is_the_bottom_of_a_fresh_column() {
    let t = new_grid();
    assert_eq!(lowest_empty_row(&t, 0), ROWS - 1);
}

#[test]
fn lowest_empty_row_stacks_upward() {
    let mut t = new_grid();
    put(&mut t, 5, 2, 7);
    put(&mut t, 4, 2, 8);
    assert_eq!(lowest_empty_row(&t, 2), 3);
}

#[test]
fn grid_is_full_detects_both_states() {
    let mut t = new_grid();
    assert!(!grid_is_full(&t));
    for r in 0..ROWS {
        for c in 0..COLS {
            put(&mut t, r, c, 1);
        }
    }
    assert!(grid_is_full(&t));
}

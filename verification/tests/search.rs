use sudoku::search::{
    check_grid, find_unassigned_location, is_safe, solve_sudoku, used_in_box, used_in_col,
    used_in_row,
};
use sudoku::topo::Loc;

fn classic_puzzle() -> Vec<Vec<u8>> {
    vec![
        vec![3, 0, 6, 5, 0, 8, 4, 0, 0],
        vec![5, 2, 0, 0, 0, 0, 0, 0, 0],
        vec![0, 8, 7, 0, 0, 0, 0, 3, 1],
        vec![0, 0, 3, 0, 1, 0, 0, 8, 0],
        vec![9, 0, 0, 8, 6, 3, 0, 0, 5],
        vec![0, 5, 0, 0, 9, 0, 6, 0, 0],
        vec![1, 3, 0, 0, 0, 0, 2, 5, 0],
        vec![0, 0, 0, 0, 0, 0, 0, 7, 4],
        vec![0, 0, 5, 2, 0, 6, 3, 0, 0],
    ]
}

#[test]
fn used_in_row_finds_present_and_absent_digits() {
    let g = classic_puzzle();
    assert!(used_in_row(&g, 0, 3));
    assert!(used_in_row(&g, 0, 6));
    assert!(!used_in_row(&g, 0, 9));
    assert!(!used_in_row(&g, 1, 9));
}

#[test]
fn used_in_col_finds_present_and_absent_digits() {
    let g = classic_puzzle();
    assert!(used_in_col(&g, 0, 3));
    assert!(used_in_col(&g, 0, 9));
    assert!(!used_in_col(&g, 0, 8));
}

#[test]
fn used_in_box_scans_only_its_three_by_three_window() {
    let g = classic_puzzle();
    assert!(used_in_box(&g, 0, 0, 7));
    assert!(!used_in_box(&g, 0, 0, 9));
    assert!(used_in_box(&g, 3, 3, 8));
}

#[test]
fn is_safe_rejects_conflicts_and_accepts_free_digits() {
    let g = classic_puzzle();
    // (0, 1): 3 clashes with the row, 8 with the box, 2 with the column.
    assert!(!is_safe(&g, 0, 1, 3));
    assert!(!is_safe(&g, 0, 1, 8));
    assert!(!is_safe(&g, 0, 1, 2));
    assert!(is_safe(&g, 0, 1, 1));
}

#[test]
fn find_unassigned_location_returns_first_empty_cell() {
    let g = classic_puzzle();
    assert_eq!(find_unassigned_location(&g), Some(Loc { row: 0, col: 1 }));
    let full: Vec<Vec<u8>> = (0..9)
        .map(|r| (0..9).map(|c| (((r * 3 + r / 3 + c) % 9) + 1) as u8).collect())
        .collect();
    assert_eq!(find_unassigned_location(&full), None);
}

#[test]
fn check_grid_accepts_the_classic_puzzle_and_rejects_bad_grids() {
    let g = classic_puzzle();
    assert!(check_grid(&g));
    let mut dup_row = classic_puzzle();
    dup_row[0][1] = 3;
    assert!(!check_grid(&dup_row));
    let mut out_of_range = classic_puzzle();
    out_of_range[5][5] = 10;
    assert!(!check_grid(&out_of_range));
    let short: Vec<Vec<u8>> = vec![vec![0; 9]; 8];
    assert!(!check_grid(&short));
}

#[test]
fn solver_completes_the_classic_puzzle() {
    let clues = classic_puzzle();
    let mut g = classic_puzzle();
    assert!(solve_sudoku(&mut g));
    // Completely filled and still valid.
    assert!(check_grid(&g));
    for r in 0..9 {
        for c in 0..9 {
            assert!(g[r][c] >= 1 && g[r][c] <= 9);
        }
    }
    // Every original clue is kept.
    for r in 0..9 {
        for c in 0..9 {
            if clues[r][c] != 0 {
                assert_eq!(g[r][c], clues[r][c]);
            }
        }
    }
}

#[test]
fn solver_leaves_an_unsolvable_grid_unchanged() {
    // Row 0 forces (0, 8) to be 9, but column 8 already holds a 9.
    let mut g: Vec<Vec<u8>> = vec![vec![0; 9]; 9];
    for c in 0..8 {
        g[0][c] = (c + 1) as u8;
    }
    g[1][8] = 9;
    assert!(check_grid(&g));
    let before = g.clone();
    assert!(!solve_sudoku(&mut g));
    assert_eq!(g, before);
}

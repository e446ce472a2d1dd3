use sudoku::engine::Sudoku;
use sudoku::topo::Loc;

fn flags(s: &Sudoku) -> Vec<Vec<bool>> {
    let mut out = Vec::new();
    for i in 0..81usize {
        let mut row = Vec::new();
        for d in 1..=9u8 {
            row.push(s.cells[i].is_on(d));
        }
        out.push(row);
    }
    out
}

fn counts(s: &Sudoku) -> Vec<u8> {
    (0..81usize).map(|i| s.cells[i].count()).collect()
}

#[test]
fn eliminate_twice_equals_eliminate_once() {
    let mut s = Sudoku::new();
    let ok1 = s.eliminate(0, 0, 5);
    assert!(ok1);
    let snapshot = flags(&s);
    let ok2 = s.eliminate(0, 0, 5);
    assert!(ok2);
    assert_eq!(flags(&s), snapshot);
}

#[test]
fn candidate_counts_never_increase() {
    let mut s = Sudoku::new();
    let before = counts(&s);
    assert!(s.assign(4, 4, 7));
    let mid = counts(&s);
    for i in 0..81 {
        assert!(mid[i] <= before[i]);
    }
    assert!(s.eliminate(0, 0, 1));
    let after = counts(&s);
    for i in 0..81 {
        assert!(after[i] <= mid[i]);
    }
}

#[test]
fn solved_cell_excludes_its_value_from_all_peers() {
    let mut s = Sudoku::new();
    assert!(s.assign(0, 0, 3));
    assert_eq!(s.cells[0].count(), 1);
    assert_eq!(s.cells[0].val(), 3);
    let peer_list: Vec<Loc> = s.peers[0].clone();
    assert_eq!(peer_list.len(), 20);
    for p in peer_list {
        assert!(!s.cells[p.row * 9 + p.col].is_on(3));
    }
}

#[test]
fn unit_with_single_place_for_a_digit_gets_it_assigned() {
    let mut s = Sudoku::new();
    // Remove 5 as a candidate from every cell of row 0 except (0, 0): the
    // hidden-single rule must then solve (0, 0) to 5.
    for c in 1..9usize {
        assert!(s.eliminate(0, c, 5));
    }
    assert_eq!(s.cells[0].count(), 1);
    assert_eq!(s.cells[0].val(), 5);
}

#[test]
fn box_with_single_place_for_a_digit_gets_it_assigned() {
    let mut s = Sudoku::new();
    // Remove 9 as a candidate from every cell of the top-left box except
    // (1, 1): the hidden-single rule must then solve (1, 1) to 9.
    for r in 0..3usize {
        for c in 0..3usize {
            if (r, c) != (1, 1) {
                assert!(s.eliminate(r, c, 9));
            }
        }
    }
    assert_eq!(s.cells[1 * 9 + 1].count(), 1);
    assert_eq!(s.cells[1 * 9 + 1].val(), 9);
}

#[test]
fn second_clue_conflicting_in_a_column_is_a_contradiction() {
    let mut s = Sudoku::new();
    assert!(s.assign(1, 5, 4));
    assert!(!s.assign(8, 5, 4));
}

#[test]
fn second_clue_conflicting_in_a_row_is_a_contradiction() {
    let mut s = Sudoku::new();
    assert!(s.assign(4, 2, 7));
    assert!(!s.assign(4, 6, 7));
}

#[test]
fn seeding_one_clue_propagates_without_contradiction() {
    let mut s = Sudoku::new();
    assert!(s.assign(0, 0, 3));
    // (0, 0) is solved to 3.
    assert_eq!(s.cells[0].count(), 1);
    assert_eq!(s.cells[0].val(), 3);
    // Row 0, column 0 and the top-left box have all lost candidate 3.
    for c in 1..9usize {
        assert!(!s.cells[c].is_on(3));
        assert_eq!(s.cells[c].count(), 8);
    }
    for r in 1..9usize {
        assert!(!s.cells[r * 9].is_on(3));
    }
    for r in 0..3usize {
        for c in 0..3usize {
            if (r, c) != (0, 0) {
                assert!(!s.cells[r * 9 + c].is_on(3));
            }
        }
    }
    // No cell ran out of candidates.
    for i in 0..81usize {
        assert!(s.cells[i].count() >= 1);
    }
    // An untouched far-away cell keeps all nine candidates.
    assert_eq!(s.cells[4 * 9 + 4].count(), 9);
}

#[test]
fn same_clue_twice_in_one_row_fails_on_the_second_assign() {
    let mut s = Sudoku::new();
    assert!(s.assign(0, 0, 3));
    assert!(!s.assign(0, 1, 3));
}

#[test]
fn failed_assign_leaves_a_partially_narrowed_grid() {
    // The engine never rolls eliminations back: after a failing assign the
    // grid keeps the narrowing applied before the contradiction surfaced,
    // and the caller is expected to discard it.
    let mut s = Sudoku::new();
    assert!(s.assign(4, 4, 7));
    let before = counts(&s);
    assert!(!s.assign(4, 0, 7));
    let after = counts(&s);
    // Candidate counts still only ever shrink, even across the failure.
    for i in 0..81 {
        assert!(after[i] <= before[i]);
    }
    // The first elimination of the failing pass (digit 1 at (4, 0)) stuck.
    assert!(!s.cells[4 * 9].is_on(1));
}

use sudoku::topo::{build_peers, build_units, Loc};

#[test]
fn every_cell_has_exactly_twenty_distinct_peers_excluding_itself() {
    let peers = build_peers();
    assert_eq!(peers.len(), 81);
    for r in 0..9usize {
        for c in 0..9usize {
            let me = Loc { row: r, col: c };
            let ps = &peers[r * 9 + c];
            assert_eq!(ps.len(), 20);
            for k in 0..20 {
                let p = ps[k];
                assert!(p != me);
                assert!(p.row < 9 && p.col < 9);
                assert!(
                    p.row == r
                        || p.col == c
                        || (p.row / 3 == r / 3 && p.col / 3 == c / 3)
                );
                for k2 in 0..k {
                    assert!(ps[k2] != p);
                }
            }
        }
    }
}

#[test]
fn every_cell_belongs_to_three_units_of_nine_distinct_cells() {
    let units = build_units();
    assert_eq!(units.len(), 81);
    for r in 0..9usize {
        for c in 0..9usize {
            let me = Loc { row: r, col: c };
            let us = &units[r * 9 + c];
            assert_eq!(us.len(), 3);
            for g in 0..3 {
                let u = &us[g];
                assert_eq!(u.len(), 9);
                assert!(u.iter().any(|x| *x == me));
                for k in 0..9 {
                    for k2 in 0..k {
                        assert!(u[k2] != u[k]);
                    }
                }
            }
            for k in 0..9 {
                assert_eq!(us[0][k].row, r);
                assert_eq!(us[1][k].col, c);
                assert_eq!(us[2][k].row / 3, r / 3);
                assert_eq!(us[2][k].col / 3, c / 3);
            }
        }
    }
}

#[test]
fn units_cover_each_line_exactly_once() {
    let units = build_units();
    // The row unit of (r, c) lists the cells of row r in column order, so
    // across all cells each coordinate appears in exactly one row unit, one
    // column unit and one box unit.
    for r in 0..9usize {
        for c in 0..9usize {
            let us = &units[r * 9 + c];
            for k in 0..9 {
                assert_eq!(us[0][k], Loc { row: r, col: k });
                assert_eq!(us[1][k], Loc { row: k, col: c });
                assert_eq!(
                    us[2][k],
                    Loc { row: r / 3 * 3 + k / 3, col: c / 3 * 3 + k % 3 }
                );
            }
        }
    }
}

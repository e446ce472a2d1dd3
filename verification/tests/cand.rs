use sudoku::cand::Possible;

#[test]
fn new_cell_fully_open() {
    let p = Possible::new();
    assert_eq!(p.count(), 9);
    for d in 1..=9u8 {
        assert!(p.is_on(d));
    }
}

#[test]
fn eliminate_clears_one_flag() {
    let mut p = Possible::new();
    p.eliminate(5);
    assert!(!p.is_on(5));
    assert_eq!(p.count(), 8);
    for d in 1..=9u8 {
        if d != 5 {
            assert!(p.is_on(d));
        }
    }
}

#[test]
fn eliminate_is_idempotent_on_a_cell() {
    let mut p = Possible::new();
    p.eliminate(2);
    p.eliminate(2);
    assert_eq!(p.count(), 8);
    assert!(!p.is_on(2));
}

#[test]
fn val_reads_the_single_remaining_digit() {
    let mut p = Possible::new();
    for d in 1..=9u8 {
        if d != 7 {
            p.eliminate(d);
        }
    }
    assert_eq!(p.count(), 1);
    assert_eq!(p.val(), 7);
}

//! Brute-force backtracking search over a flat 9x9 digit grid, independent
//! of the propagation engine.  `0` marks an empty cell; filled cells hold a
//! digit 1..=9.

use vstd::prelude::*;

use crate::topo::{valid_loc, Loc};

verus! {

/// The grid is a 9x9 table.
pub open spec fn grid_dims(g: Vec<Vec<u8>>) -> bool {
    &&& g@.len() == 9
    &&& forall|r: int| 0 <= r < 9 ==> (#[trigger] g@[r])@.len() == 9
}

/// Every entry is a digit 0..=9.
pub open spec fn in_range(g: Vec<Vec<u8>>) -> bool {
    forall|r: int, c: int| #![trigger g@[r]@[c]] 0 <= r < 9 && 0 <= c < 9 ==> g@[r]@[c] <= 9
}

/// No nonzero digit occurs twice in row `r`.
pub open spec fn row_ok(g: Vec<Vec<u8>>, r: int) -> bool {
    forall|c1: int, c2: int|
        #![trigger g@[r]@[c1], g@[r]@[c2]]
        0 <= c1 < c2 < 9 && g@[r]@[c1] != 0 ==> g@[r]@[c1] != g@[r]@[c2]
}

/// No nonzero digit occurs twice in column `c`.
pub open spec fn col_ok(g: Vec<Vec<u8>>, c: int) -> bool {
    forall|r1: int, r2: int|
        #![trigger g@[r1]@[c], g@[r2]@[c]]
        0 <= r1 < r2 < 9 && g@[r1]@[c] != 0 ==> g@[r1]@[c] != g@[r2]@[c]
}

/// The `k`-th cell (row-major) of box `b` (boxes numbered row-major).
pub open spec fn box_cell(g: Vec<Vec<u8>>, b: int, k: int) -> u8 {
    g@[(b / 3) * 3 + k / 3]@[(b % 3) * 3 + k % 3]
}

/// No nonzero digit occurs twice in box `b`.
pub open spec fn box_ok(g: Vec<Vec<u8>>, b: int) -> bool {
    forall|k1: int, k2: int|
        #![trigger box_cell(g, b, k1), box_cell(g, b, k2)]
        0 <= k1 < k2 < 9 && box_cell(g, b, k1) != 0 ==> box_cell(g, b, k1) != box_cell(g, b, k2)
}

/// Every row, column and box is free of duplicate nonzero digits.
pub open spec fn valid(g: Vec<Vec<u8>>) -> bool {
    &&& forall|r: int| 0 <= r < 9 ==> #[trigger] row_ok(g, r)
    &&& forall|c: int| 0 <= c < 9 ==> #[trigger] col_ok(g, c)
    &&& forall|b: int| 0 <= b < 9 ==> #[trigger] box_ok(g, b)
}

/// No empty cells remain.
pub open spec fn full(g: Vec<Vec<u8>>) -> bool {
    forall|r: int, c: int| #![trigger g@[r]@[c]] 0 <= r < 9 && 0 <= c < 9 ==> g@[r]@[c] != 0
}

/// `b` keeps every clue already present in `a`.
pub open spec fn extends(a: Vec<Vec<u8>>, b: Vec<Vec<u8>>) -> bool {
    forall|r: int, c: int|
        #![trigger b@[r]@[c]]
        0 <= r < 9 && 0 <= c < 9 && a@[r]@[c] != 0 ==> b@[r]@[c] == a@[r]@[c]
}

/// `a` and `b` hold the same digits everywhere.
pub open spec fn same_grid(a: Vec<Vec<u8>>, b: Vec<Vec<u8>>) -> bool {
    forall|r: int, c: int| #![trigger b@[r]@[c]] 0 <= r < 9 && 0 <= c < 9 ==> a@[r]@[c] == b@[r]@[c]
}

/// `g2` is a finished puzzle (full, valid, digits 1..=9) that keeps every
/// clue of `g0`.
pub open spec fn is_completion_of(g0: Vec<Vec<u8>>, g2: Vec<Vec<u8>>) -> bool {
    &&& grid_dims(g2)
    &&& in_range(g2)
    &&& valid(g2)
    &&& full(g2)
    &&& extends(g0, g2)
}

/// Digit `num` would not conflict with any filled cell in the row, the
/// column or the box of `(row, col)`.
pub open spec fn spec_safe(g: Vec<Vec<u8>>, row: int, col: int, num: u8) -> bool {
    &&& !(exists|j: int| 0 <= j < 9 && g@[row]@[j] == num)
    &&& !(exists|i: int| 0 <= i < 9 && g@[i]@[col] == num)
    &&& !(exists|a: int, b: int|
        #![trigger g@[a]@[b]]
        (row / 3) * 3 <= a < (row / 3) * 3 + 3 && (col / 3) * 3 <= b < (col / 3) * 3 + 3
            && g@[a]@[b] == num)
}

/// Number of zeros in one row.
pub open spec fn zeros_row(s: Seq<u8>) -> nat
    decreases s.len(),
{
    if s.len() == 0 {
        0
    } else {
        zeros_row(s.drop_last()) + (if s.last() == 0 {
            1nat
        } else {
            0nat
        })
    }
}

/// Number of empty cells on the whole grid; the search's termination measure.
pub open spec fn count_zeros(g: Seq<Vec<u8>>) -> nat
    decreases g.len(),
{
    if g.len() == 0 {
        0
    } else {
        count_zeros(g.drop_last()) + zeros_row(g.last()@)
    }
}

proof fn lemma_zeros_row_update(s: Seq<u8>, i: int, v: u8)
    requires
        0 <= i < s.len(),
    ensures
        zeros_row(s.update(i, v)) + (if s[i] == 0 {
            1nat
        } else {
            0nat
        }) == zeros_row(s) + (if v == 0 {
            1nat
        } else {
            0nat
        }),
    decreases s.len(),
{
    let t = s.update(i, v);
    if i == s.len() - 1 {
        assert(t.drop_last() =~= s.drop_last());
        assert(t.last() == v);
    } else {
        assert(t.drop_last() =~= s.drop_last().update(i, v));
        assert(t.last() == s.last());
        lemma_zeros_row_update(s.drop_last(), i, v);
    }
}

proof fn lemma_count_zeros_update(g: Seq<Vec<u8>>, i: int, rv: Vec<u8>)
    requires
        0 <= i < g.len(),
    ensures
        count_zeros(g.update(i, rv)) + zeros_row(g[i]@) == count_zeros(g) + zeros_row(rv@),
    decreases g.len(),
{
    let t = g.update(i, rv);
    if i == g.len() - 1 {
        assert(t.drop_last() =~= g.drop_last());
        assert(t.last() == rv);
    } else {
        assert(t.drop_last() =~= g.drop_last().update(i, rv));
        assert(t.last() == g.last());
        lemma_count_zeros_update(g.drop_last(), i, rv);
    }
}

proof fn lemma_zeros_congruence(a: Seq<Vec<u8>>, b: Seq<Vec<u8>>)
    requires
        a.len() == b.len(),
        forall|i: int| 0 <= i < a.len() ==> (#[trigger] a[i])@.len() == b[i]@.len(),
        forall|i: int, j: int|
            #![trigger a[i]@[j]]
            0 <= i < a.len() && 0 <= j < a[i]@.len() ==> a[i]@[j] == b[i]@[j],
    ensures
        count_zeros(a) == count_zeros(b),
    decreases a.len(),
{
    if a.len() > 0 {
        assert(forall|i: int|
            0 <= i < a.len() - 1 ==> (#[trigger] a.drop_last()[i])@.len()
                == b.drop_last()[i]@.len()) by {
            assert(forall|i: int| 0 <= i < a.len() - 1 ==> #[trigger] a.drop_last()[i] == a[i]);
            assert(forall|i: int| 0 <= i < a.len() - 1 ==> #[trigger] b.drop_last()[i] == b[i]);
        }
        assert(forall|i: int, j: int|
            #![trigger a.drop_last()[i]@[j]]
            0 <= i < a.len() - 1 && 0 <= j < a.drop_last()[i]@.len() ==> a.drop_last()[i]@[j]
                == b.drop_last()[i]@[j]) by {
            assert(forall|i: int| 0 <= i < a.len() - 1 ==> #[trigger] a.drop_last()[i] == a[i]);
            assert(forall|i: int| 0 <= i < a.len() - 1 ==> #[trigger] b.drop_last()[i] == b[i]);
        }
        lemma_zeros_congruence(a.drop_last(), b.drop_last());
        assert(a.last() == a[a.len() - 1]);
        assert(b.last() == b[a.len() - 1]);
        assert(a.last()@ =~= b.last()@);
    }
}

/// Write `v` at `(r, c)`.
fn set_cell(g: &mut Vec<Vec<u8>>, r: usize, c: usize, v: u8)
    requires
        grid_dims(*old(g)),
        r < 9,
        c < 9,
    ensures
        grid_dims(*final(g)),
        final(g)@[r as int]@ == old(g)@[r as int]@.update(c as int, v),
        forall|i: int| 0 <= i < 9 && i != r ==> final(g)@[i] == old(g)@[i],
        final(g)@ == old(g)@.update(r as int, final(g)@[r as int]),
{
    let row = &mut g[r];
    row[c] = v;
}

/// Whether `num` already occurs in row `row`.
#[verifier::loop_isolation(false)]
pub fn used_in_row(grid: &Vec<Vec<u8>>, row: usize, num: u8) -> (r: bool)
    requires
        grid_dims(*grid),
        row < 9,
    ensures
        r == exists|j: int| 0 <= j < 9 && grid@[row as int]@[j] == num,
{
    let mut j: usize = 0;
    while j < 9
        invariant
            j <= 9,
            forall|t: int| 0 <= t < j ==> grid@[row as int]@[t] != num,
        decreases 9 - j,
    {
        if grid[row][j] == num {
            assert(grid@[row as int]@[j as int] == num);
            return true;
        }
        j = j + 1;
    }
    false
}

/// Whether `num` already occurs in column `col`.
#[verifier::loop_isolation(false)]
pub fn used_in_col(grid: &Vec<Vec<u8>>, col: usize, num: u8) -> (r: bool)
    requires
        grid_dims(*grid),
        col < 9,
    ensures
        r == exists|i: int| 0 <= i < 9 && grid@[i]@[col as int] == num,
{
    let mut i: usize = 0;
    while i < 9
        invariant
            i <= 9,
            forall|t: int| 0 <= t < i ==> grid@[t]@[col as int] != num,
        decreases 9 - i,
    {
        if grid[i][col] == num {
            assert(grid@[i as int]@[col as int] == num);
            return true;
        }
        i = i + 1;
    }
    false
}

/// Whether `num` already occurs in the 3x3 box whose top-left cell is
/// `(row_start, col_start)`.
#[verifier::loop_isolation(false)]
pub fn used_in_box(grid: &Vec<Vec<u8>>, row_start: usize, col_start: usize, num: u8) -> (r: bool)
    requires
        grid_dims(*grid),
        row_start + 3 <= 9,
        col_start + 3 <= 9,
    ensures
        r == exists|a: int, b: int|
            #![trigger grid@[a]@[b]]
            row_start <= a < row_start + 3 && col_start <= b < col_start + 3 && grid@[a]@[b]
                == num,
{
    let mut i: usize = 0;
    while i < 3
        invariant
            i <= 3,
            forall|a: int, b: int|
                #![trigger grid@[a]@[b]]
                row_start <= a < row_start + i && col_start <= b < col_start + 3 ==> grid@[a]@[b]
                    != num,
        decreases 3 - i,
    {
        let mut j: usize = 0;
        while j < 3
            invariant
                i < 3,
                j <= 3,
                forall|a: int, b: int|
                    #![trigger grid@[a]@[b]]
                    row_start <= a < row_start + i && col_start <= b < col_start + 3 ==> grid@[a]@[b]
                        != num,
                forall|a: int, b: int|
                    #![trigger grid@[a]@[b]]
                    a == row_start + i && col_start <= b < col_start + j ==> grid@[a]@[b] != num,
            decreases 3 - j,
        {
            if grid[row_start + i][col_start + j] == num {
                assert(grid@[row_start + i as int]@[col_start + j as int] == num);
                return true;
            }
            j = j + 1;
        }
        i = i + 1;
    }
    false
}

/// Whether digit `num` may be placed at `(row, col)` without conflicting
/// with a filled cell in its row, column or box.
pub fn is_safe(grid: &Vec<Vec<u8>>, row: usize, col: usize, num: u8) -> (r: bool)
    requires
        grid_dims(*grid),
        row < 9,
        col < 9,
    ensures
        r == spec_safe(*grid, row as int, col as int, num),
{
    !used_in_row(grid, row, num) && !used_in_col(grid, col, num) && !used_in_box(
        grid,
        row / 3 * 3,
        col / 3 * 3,
        num,
    )
}

/// The first empty cell in row-major order, if any.
#[verifier::loop_isolation(false)]
pub fn find_unassigned_location(grid: &Vec<Vec<u8>>) -> (r: Option<Loc>)
    requires
        grid_dims(*grid),
    ensures
        match r {
            Option::Some(l) => valid_loc(l) && grid@[l.row as int]@[l.col as int] == 0 && (forall|
                i: int,
                j: int,
            |
                #![trigger grid@[i]@[j]]
                0 <= i < 9 && 0 <= j < 9 && (i < l.row || (i == l.row && j < l.col))
                    ==> grid@[i]@[j] != 0),
            Option::None => full(*grid),
        },
{
    let mut i: usize = 0;
    while i < 9
        invariant
            i <= 9,
            forall|a: int, b: int|
                #![trigger grid@[a]@[b]]
                0 <= a < i && 0 <= b < 9 ==> grid@[a]@[b] != 0,
        decreases 9 - i,
    {
        let mut j: usize = 0;
        while j < 9
            invariant
                i < 9,
                j <= 9,
                forall|a: int, b: int|
                    #![trigger grid@[a]@[b]]
                    0 <= a < i && 0 <= b < 9 ==> grid@[a]@[b] != 0,
                forall|b: int| 0 <= b < j ==> grid@[i as int]@[b] != 0,
            decreases 9 - j,
        {
            if grid[i][j] == 0 {
                return Some(Loc { row: i, col: j });
            }
            j = j + 1;
        }
        i = i + 1;
    }
    None
}

proof fn lemma_place_keeps_valid(g: Vec<Vec<u8>>, g2: Vec<Vec<u8>>, row: int, col: int, num: u8)
    requires
        grid_dims(g),
        grid_dims(g2),
        valid(g),
        0 <= row < 9,
        0 <= col < 9,
        1 <= num <= 9,
        g@[row]@[col] == 0,
        spec_safe(g, row, col, num),
        g2@[row]@ == g@[row]@.update(col, num),
        forall|i: int| 0 <= i < 9 && i != row ==> g2@[i] == g@[i],
    ensures
        valid(g2),
{
    assert forall|r: int| 0 <= r < 9 implies #[trigger] row_ok(g2, r) by {
        assert(row_ok(g, r));
        if r == row {
            assert forall|c1: int, c2: int|
                #![trigger g2@[r]@[c1], g2@[r]@[c2]]
                0 <= c1 < c2 < 9 && g2@[r]@[c1] != 0 implies g2@[r]@[c1] != g2@[r]@[c2] by {
                if c1 == col {
                    if g2@[r]@[c2] == num {
                        assert(g@[row]@[c2] == num);
                        assert(false);
                    }
                } else if c2 == col {
                    if g2@[r]@[c1] == num {
                        assert(g@[row]@[c1] == num);
                        assert(false);
                    }
                } else {
                    assert(g2@[r]@[c1] == g@[r]@[c1]);
                    assert(g2@[r]@[c2] == g@[r]@[c2]);
                }
            }
        }
    }
    assert forall|c: int| 0 <= c < 9 implies #[trigger] col_ok(g2, c) by {
        assert(col_ok(g, c));
        assert(forall|i: int| 0 <= i < 9 && i != row ==> #[trigger] g2@[i]@[c] == g@[i]@[c]);
        assert forall|r1: int, r2: int|
            #![trigger g2@[r1]@[c], g2@[r2]@[c]]
            0 <= r1 < r2 < 9 && g2@[r1]@[c] != 0 implies g2@[r1]@[c] != g2@[r2]@[c] by {
            if r1 == row && c == col {
                if g2@[r2]@[c] == num {
                    assert(g@[r2]@[col] == num);
                    assert(false);
                }
            } else if r2 == row && c == col {
                if g2@[r1]@[c] != 0 && g2@[r1]@[c] == num {
                    assert(g@[r1]@[col] == num);
                    assert(false);
                }
            } else {
                assert(g2@[r1]@[c] == g@[r1]@[c]);
                assert(g2@[r2]@[c] == g@[r2]@[c]);
            }
        }
    }
    let b0 = (row / 3) * 3 + col / 3;
    assert forall|b: int| 0 <= b < 9 implies #[trigger] box_ok(g2, b) by {
        assert(box_ok(g, b));
        assert forall|k1: int, k2: int|
            #![trigger box_cell(g2, b, k1), box_cell(g2, b, k2)]
            0 <= k1 < k2 < 9 && box_cell(g2, b, k1) != 0 implies box_cell(g2, b, k1) != box_cell(
            g2,
            b,
            k2,
        ) by {
            let r1 = (b / 3) * 3 + k1 / 3;
            let c1 = (b % 3) * 3 + k1 % 3;
            let r2 = (b / 3) * 3 + k2 / 3;
            let c2 = (b % 3) * 3 + k2 % 3;
            if r1 == row && c1 == col {
                assert(b == b0);
                assert(b0 / 3 == row / 3 && b0 % 3 == col / 3);
                if box_cell(g2, b, k2) == num {
                    assert(g@[r2]@[c2] == num);
                    assert((row / 3) * 3 <= r2 < (row / 3) * 3 + 3);
                    assert((col / 3) * 3 <= c2 < (col / 3) * 3 + 3);
                    assert(false);
                }
            } else if r2 == row && c2 == col {
                assert(b == b0);
                assert(b0 / 3 == row / 3 && b0 % 3 == col / 3);
                if box_cell(g2, b, k1) == num {
                    assert(g@[r1]@[c1] == num);
                    assert((row / 3) * 3 <= r1 < (row / 3) * 3 + 3);
                    assert((col / 3) * 3 <= c1 < (col / 3) * 3 + 3);
                    assert(false);
                }
            } else {
                assert(box_cell(g2, b, k1) == g@[r1]@[c1] && box_cell(g, b, k1) == g@[r1]@[c1]);
                assert(box_cell(g2, b, k2) == g@[r2]@[c2] && box_cell(g, b, k2) == g@[r2]@[c2]);
            }
        }
    }
}

proof fn lemma_completion_forces_safe(
    g: Vec<Vec<u8>>,
    g2: Vec<Vec<u8>>,
    row: int,
    col: int,
    num: u8,
)
    requires
        grid_dims(g),
        grid_dims(g2),
        valid(g2),
        extends(g, g2),
        0 <= row < 9,
        0 <= col < 9,
        1 <= num <= 9,
        g@[row]@[col] == 0,
        g2@[row]@[col] == num,
    ensures
        spec_safe(g, row, col, num),
{
    assert(!(exists|j: int| 0 <= j < 9 && g@[row]@[j] == num)) by {
        if exists|j: int| 0 <= j < 9 && g@[row]@[j] == num {
            let j = choose|j: int| 0 <= j < 9 && g@[row]@[j] == num;
            assert(g2@[row]@[j] == num);
            assert(j != col);
            assert(row_ok(g2, row));
            if j < col {
                assert(g2@[row]@[j] != g2@[row]@[col]);
            } else {
                assert(g2@[row]@[col] != g2@[row]@[j]);
            }
            assert(false);
        }
    }
    assert(!(exists|i: int| 0 <= i < 9 && g@[i]@[col] == num)) by {
        if exists|i: int| 0 <= i < 9 && g@[i]@[col] == num {
            let i = choose|i: int| 0 <= i < 9 && g@[i]@[col] == num;
            assert(g2@[i]@[col] == num);
            assert(i != row);
            assert(col_ok(g2, col));
            if i < row {
                assert(g2@[i]@[col] != g2@[row]@[col]);
            } else {
                assert(g2@[row]@[col] != g2@[i]@[col]);
            }
            assert(false);
        }
    }
    let br = (row / 3) * 3;
    let bc = (col / 3) * 3;
    let b0 = (row / 3) * 3 + col / 3;
    assert(!(exists|a: int, b: int|
        br <= a < br + 3 && bc <= b < bc + 3 && g@[a]@[b] == num)) by {
        if exists|a: int, b: int| br <= a < br + 3 && bc <= b < bc + 3 && g@[a]@[b] == num {
            let (a, b) = choose|a: int, b: int|
                br <= a < br + 3 && bc <= b < bc + 3 && g@[a]@[b] == num;
            assert(g2@[a]@[b] == num);
            assert(!(a == row && b == col));
            assert(box_ok(g2, b0));
            assert(b0 / 3 == row / 3 && b0 % 3 == col / 3);
            let k1 = (a - br) * 3 + (b - bc);
            let k2 = (row - br) * 3 + (col - bc);
            assert(box_cell(g2, b0, k1) == g2@[a]@[b]);
            assert(box_cell(g2, b0, k2) == g2@[row]@[col]);
            assert(k1 != k2);
            if k1 < k2 {
                assert(box_cell(g2, b0, k1) != box_cell(g2, b0, k2));
            } else {
                assert(box_cell(g2, b0, k2) != box_cell(g2, b0, k1));
            }
            assert(false);
        }
    }
}

proof fn lemma_same_grid_valid(a: Vec<Vec<u8>>, b: Vec<Vec<u8>>)
    requires
        grid_dims(a),
        grid_dims(b),
        same_grid(a, b),
        valid(a),
    ensures
        valid(b),
{
    assert forall|r: int| 0 <= r < 9 implies #[trigger] row_ok(b, r) by {
        assert(row_ok(a, r));
        assert(forall|c: int| 0 <= c < 9 ==> a@[r]@[c] == #[trigger] b@[r]@[c]);
    }
    assert forall|c: int| 0 <= c < 9 implies #[trigger] col_ok(b, c) by {
        assert(col_ok(a, c));
        assert(forall|r: int| 0 <= r < 9 ==> a@[r]@[c] == #[trigger] b@[r]@[c]);
    }
    assert forall|bx: int| 0 <= bx < 9 implies #[trigger] box_ok(b, bx) by {
        assert(box_ok(a, bx));
        assert(forall|k: int|
            0 <= k < 9 ==> #[trigger] box_cell(b, bx, k) == box_cell(a, bx, k));
    }
}

/// Whether `grid` is a well-formed 9x9 puzzle: right dimensions, digits in
/// range, and no duplicate clue in any row, column or box.
#[verifier::loop_isolation(false)]
pub fn check_grid(grid: &Vec<Vec<u8>>) -> (r: bool)
    ensures
        r == (grid_dims(*grid) && in_range(*grid) && valid(*grid)),
{
    if grid.len() != 9 {
        return false;
    }
    let mut i: usize = 0;
    while i < 9
        invariant
            i <= 9,
            grid@.len() == 9,
            forall|t: int| 0 <= t < i ==> (#[trigger] grid@[t])@.len() == 9,
        decreases 9 - i,
    {
        if grid[i].len() != 9 {
            return false;
        }
        i = i + 1;
    }
    let mut rr: usize = 0;
    while rr < 9
        invariant
            rr <= 9,
            grid_dims(*grid),
            forall|a: int, b: int|
                #![trigger grid@[a]@[b]]
                0 <= a < rr && 0 <= b < 9 ==> grid@[a]@[b] <= 9,
        decreases 9 - rr,
    {
        let mut cc: usize = 0;
        while cc < 9
            invariant
                rr < 9,
                cc <= 9,
                forall|a: int, b: int|
                    #![trigger grid@[a]@[b]]
                    0 <= a < rr && 0 <= b < 9 ==> grid@[a]@[b] <= 9,
                forall|b: int| 0 <= b < cc ==> grid@[rr as int]@[b] <= 9,
            decreases 9 - cc,
        {
            if grid[rr][cc] > 9 {
                return false;
            }
            cc = cc + 1;
        }
        rr = rr + 1;
    }
    let mut r0: usize = 0;
    while r0 < 9
        invariant
            r0 <= 9,
            forall|t: int| 0 <= t < r0 ==> #[trigger] row_ok(*grid, t),
        decreases 9 - r0,
    {
        let mut c1: usize = 0;
        while c1 < 9
            invariant
                r0 < 9,
                c1 <= 9,
                forall|a: int, b: int|
                    #![trigger grid@[r0 as int]@[a], grid@[r0 as int]@[b]]
                    0 <= a < b < 9 && a < c1 && grid@[r0 as int]@[a] != 0 ==> grid@[r0 as int]@[a]
                        != grid@[r0 as int]@[b],
            decreases 9 - c1,
        {
            let v = grid[r0][c1];
            if v != 0 {
                let mut c2: usize = c1 + 1;
                while c2 < 9
                    invariant
                        c1 < c2 <= 9,
                        v == grid@[r0 as int]@[c1 as int],
                        forall|b: int| c1 < b < c2 ==> grid@[r0 as int]@[b] != v,
                    decreases 9 - c2,
                {
                    if grid[r0][c2] == v {
                        proof {
                            if valid(*grid) {
                                assert(row_ok(*grid, r0 as int));
                            }
                        }
                        return false;
                    }
                    c2 = c2 + 1;
                }
            }
            c1 = c1 + 1;
        }
        r0 = r0 + 1;
    }
    let mut c0: usize = 0;
    while c0 < 9
        invariant
            c0 <= 9,
            forall|t: int| 0 <= t < c0 ==> #[trigger] col_ok(*grid, t),
        decreases 9 - c0,
    {
        let mut r1: usize = 0;
        while r1 < 9
            invariant
                c0 < 9,
                r1 <= 9,
                forall|a: int, b: int|
                    #![trigger grid@[a]@[c0 as int], grid@[b]@[c0 as int]]
                    0 <= a < b < 9 && a < r1 && grid@[a]@[c0 as int] != 0 ==> grid@[a]@[c0 as int]
                        != grid@[b]@[c0 as int],
            decreases 9 - r1,
        {
            let v = grid[r1][c0];
            if v != 0 {
                let mut r2: usize = r1 + 1;
                while r2 < 9
                    invariant
                        r1 < r2 <= 9,
                        v == grid@[r1 as int]@[c0 as int],
                        forall|b: int| r1 < b < r2 ==> grid@[b]@[c0 as int] != v,
                    decreases 9 - r2,
                {
                    if grid[r2][c0] == v {
                        proof {
                            if valid(*grid) {
                                assert(col_ok(*grid, c0 as int));
                            }
                        }
                        return false;
                    }
                    r2 = r2 + 1;
                }
            }
            r1 = r1 + 1;
        }
        c0 = c0 + 1;
    }
    let mut bx: usize = 0;
    while bx < 9
        invariant
            bx <= 9,
            forall|t: int| 0 <= t < bx ==> #[trigger] box_ok(*grid, t),
        decreases 9 - bx,
    {
        let mut k1: usize = 0;
        while k1 < 9
            invariant
                bx < 9,
                k1 <= 9,
                forall|a: int, b: int|
                    #![trigger box_cell(*grid, bx as int, a), box_cell(*grid, bx as int, b)]
                    0 <= a < b < 9 && a < k1 && box_cell(*grid, bx as int, a) != 0 ==> box_cell(
                        *grid,
                        bx as int,
                        a,
                    ) != box_cell(*grid, bx as int, b),
            decreases 9 - k1,
        {
            let v = grid[bx / 3 * 3 + k1 / 3][bx % 3 * 3 + k1 % 3];
            proof {
                assert(v == box_cell(*grid, bx as int, k1 as int));
            }
            if v != 0 {
                let mut k2: usize = k1 + 1;
                while k2 < 9
                    invariant
                        k1 < k2 <= 9,
                        v == box_cell(*grid, bx as int, k1 as int),
                        forall|b: int| k1 < b < k2 ==> box_cell(*grid, bx as int, b) != v,
                    decreases 9 - k2,
                {
                    let w = grid[bx / 3 * 3 + k2 / 3][bx % 3 * 3 + k2 % 3];
                    proof {
                        assert(w == box_cell(*grid, bx as int, k2 as int));
                    }
                    if w == v {
                        proof {
                            if valid(*grid) {
                                assert(box_ok(*grid, bx as int));
                            }
                        }
                        return false;
                    }
                    k2 = k2 + 1;
                }
            }
            k1 = k1 + 1;
        }
        bx = bx + 1;
    }
    true
}

/// Solve the grid in place by trying each digit at the first empty cell and
/// recursing.  On success the grid is completely filled, still valid, and
/// keeps every original clue; on failure it is left exactly as it was, and
/// failure is definitive: no completion of the given clues exists at all.
#[verifier::loop_isolation(false)]
pub fn solve_sudoku(grid: &mut Vec<Vec<u8>>) -> (r: bool)
    requires
        grid_dims(*old(grid)),
        in_range(*old(grid)),
        valid(*old(grid)),
    ensures
        grid_dims(*final(grid)),
        in_range(*final(grid)),
        valid(*final(grid)),
        extends(*old(grid), *final(grid)),
        r ==> full(*final(grid)),
        !r ==> same_grid(*old(grid), *final(grid)),
        !r ==> (forall|g2: Vec<Vec<u8>>| !(#[trigger] is_completion_of(*old(grid), g2))),
    decreases count_zeros(old(grid)@),
{
    let loc = match find_unassigned_location(grid) {
        Some(x) => x,
        None => {
            return true;
        },
    };
    let row = loc.row;
    let col = loc.col;
    let mut num: u8 = 1;
    while num <= 9
        invariant
            1 <= num <= 10,
            row < 9,
            col < 9,
            grid_dims(*grid),
            in_range(*grid),
            valid(*grid),
            same_grid(*old(grid), *grid),
            grid@[row as int]@[col as int] == 0,
            forall|g2: Vec<Vec<u8>>|
                (#[trigger] is_completion_of(*old(grid), g2)) ==> g2@[row as int]@[col as int]
                    >= num,
        decreases 10 - num,
    {
        if is_safe(grid, row, col, num) {
            let ghost gpre = *grid;
            set_cell(grid, row, col, num);
            proof {
                lemma_place_keeps_valid(gpre, *grid, row as int, col as int, num);
                lemma_count_zeros_update(gpre@, row as int, grid@[row as int]);
                lemma_zeros_row_update(gpre@[row as int]@, col as int, num);
                assert(count_zeros(grid@) + 1 == count_zeros(gpre@));
                assert(forall|i: int|
                    0 <= i < 9 ==> (#[trigger] old(grid)@[i])@.len() == gpre@[i]@.len());
                lemma_zeros_congruence(old(grid)@, gpre@);
                assert(count_zeros(grid@) < count_zeros(old(grid)@));
                assert(in_range(*grid)) by {
                    assert(forall|a: int, b: int|
                        #![trigger grid@[a]@[b]]
                        0 <= a < 9 && 0 <= b < 9 && !(a == row && b == col) ==> grid@[a]@[b]
                            == gpre@[a]@[b]);
                }
            }
            let ghost gset = *grid;
            if solve_sudoku(grid) {
                proof {
                    assert forall|a: int, b: int|
                        #![trigger grid@[a]@[b]]
                        0 <= a < 9 && 0 <= b < 9 && old(grid)@[a]@[b] != 0 implies grid@[a]@[b]
                        == old(grid)@[a]@[b] by {
                        assert(gpre@[a]@[b] == old(grid)@[a]@[b]);
                        assert(!(a == row && b == col));
                        assert(gset@[a]@[b] == gpre@[a]@[b]);
                    }
                }
                return true;
            }
            let ghost gmid = *grid;
            set_cell(grid, row, col, 0);
            proof {
                assert forall|a: int, b: int|
                    #![trigger grid@[a]@[b]]
                    0 <= a < 9 && 0 <= b < 9 implies old(grid)@[a]@[b] == grid@[a]@[b] by {
                    if a == row && b == col {
                        assert(grid@[a]@[b] == 0);
                    } else {
                        assert(grid@[a]@[b] == gmid@[a]@[b]);
                        assert(gmid@[a]@[b] == gset@[a]@[b]);
                        assert(gset@[a]@[b] == gpre@[a]@[b]);
                        assert(gpre@[a]@[b] == old(grid)@[a]@[b]);
                    }
                }
                lemma_same_grid_valid(*old(grid), *grid);
                assert forall|g2: Vec<Vec<u8>>|
                    (#[trigger] is_completion_of(*old(grid), g2)) implies g2@[row as int]@[col
                    as int] != num by {
                    if g2@[row as int]@[col as int] == num {
                        assert(is_completion_of(gset, g2)) by {
                            assert forall|a: int, b: int|
                                #![trigger g2@[a]@[b]]
                                0 <= a < 9 && 0 <= b < 9 && gset@[a]@[b] != 0 implies g2@[a]@[b]
                                == gset@[a]@[b] by {
                                if a == row && b == col {
                                    assert(gset@[a]@[b] == num);
                                } else {
                                    assert(gset@[a]@[b] == gpre@[a]@[b]);
                                    assert(gpre@[a]@[b] == old(grid)@[a]@[b]);
                                }
                            }
                        }
                        assert(false);
                    }
                }
            }
        } else {
            proof {
                assert forall|g2: Vec<Vec<u8>>|
                    (#[trigger] is_completion_of(*old(grid), g2)) implies g2@[row as int]@[col
                    as int] != num by {
                    if g2@[row as int]@[col as int] == num {
                        assert(extends(*grid, g2)) by {
                            assert forall|a: int, b: int|
                                #![trigger g2@[a]@[b]]
                                0 <= a < 9 && 0 <= b < 9 && grid@[a]@[b] != 0 implies g2@[a]@[b]
                                == grid@[a]@[b] by {
                                assert(grid@[a]@[b] == old(grid)@[a]@[b]);
                            }
                        }
                        lemma_completion_forces_safe(*grid, g2, row as int, col as int, num);
                        assert(false);
                    }
                }
            }
        }
        num = num + 1;
    }
    proof {
        assert forall|g2: Vec<Vec<u8>>| !(#[trigger] is_completion_of(*old(grid), g2)) by {
            if is_completion_of(*old(grid), g2) {
                assert(g2@[row as int]@[col as int] >= 10);
                assert(g2@[row as int]@[col as int] <= 9);
                assert(false);
            }
        }
    }
    false
}

} // verus!

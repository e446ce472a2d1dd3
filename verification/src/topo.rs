//! Board topology: coordinates, the 27 units (rows, columns, boxes) and the
//! 20 peers of every cell.  Built once, read-only thereafter, independent of
//! any particular puzzle.

use vstd::prelude::*;

verus! {

/// A cell coordinate: `row` and `col` both in `[0, 9)`.
#[derive(Clone, Copy, Debug, PartialEq, Eq, Structural)]
pub struct Loc {
    pub row: usize,
    pub col: usize,
}

pub open spec fn valid_loc(l: Loc) -> bool {
    l.row < 9 && l.col < 9
}

/// The coordinate at mathematical row `r` and column `c`.
pub open spec fn loc_at(r: int, c: int) -> Loc {
    Loc { row: r as usize, col: c as usize }
}

/// Row-major index of a coordinate into a flat 81-entry table.
pub open spec fn loc_idx(l: Loc) -> int {
    l.row * 9 + l.col
}

pub open spec fn same_box(a: Loc, b: Loc) -> bool {
    a.row / 3 == b.row / 3 && a.col / 3 == b.col / 3
}

/// `b` shares a row, column or box with `a` but is not `a` itself.
pub open spec fn is_peer(a: Loc, b: Loc) -> bool {
    valid_loc(a) && valid_loc(b) && a != b && (a.row == b.row || a.col == b.col || same_box(a, b))
}

/// Membership of coordinate `q` in unit `u`, the 27 units numbered
/// row units 0..9, column units 9..18, box units 18..27 (boxes row-major).
pub open spec fn in_unit(q: Loc, u: int) -> bool {
    &&& valid_loc(q)
    &&& 0 <= u < 27
    &&& (if u < 9 {
        q.row as int == u
    } else if u < 18 {
        q.col as int == u - 9
    } else {
        (q.row as int / 3) * 3 + q.col as int / 3 == u - 18
    })
}

/// The unit number of the `g`-th stored unit (row, column, box) of `(r, c)`.
pub open spec fn unit_index(r: int, c: int, g: int) -> int {
    if g == 0 {
        r
    } else if g == 1 {
        9 + c
    } else {
        18 + (r / 3) * 3 + c / 3
    }
}

/// A coordinate belongs exactly to its own row, column and box units.
pub proof fn lemma_own_units(l: Loc, u: int)
    requires
        valid_loc(l),
        in_unit(l, u),
    ensures
        u == unit_index(l.row as int, l.col as int, 0) || u == unit_index(
            l.row as int,
            l.col as int,
            1,
        ) || u == unit_index(l.row as int, l.col as int, 2),
{
}

pub proof fn lemma_loc_idx_inj(a: Loc, b: Loc)
    requires
        valid_loc(a),
        valid_loc(b),
        loc_idx(a) == loc_idx(b),
    ensures
        a == b,
{
}

pub proof fn lemma_rc_idx(r: int, c: int)
    requires
        0 <= r < 9,
        0 <= c < 9,
    ensures
        (r * 9 + c) / 9 == r,
        (r * 9 + c) % 9 == c,
        0 <= r * 9 + c < 81,
{
}

/// The three unit lists stored for the cell at `(r, c)`: its row, its column
/// and its box, each as the exact list of 9 coordinates.
pub open spec fn units_ok_at(us: Vec<Vec<Loc>>, r: int, c: int) -> bool {
    &&& us@.len() == 3
    &&& us@[0]@.len() == 9
    &&& us@[1]@.len() == 9
    &&& us@[2]@.len() == 9
    &&& (forall|k: int| 0 <= k < 9 ==> #[trigger] us@[0]@[k] == loc_at(r, k))
    &&& (forall|k: int| 0 <= k < 9 ==> #[trigger] us@[1]@[k] == loc_at(k, c))
    &&& (forall|k: int|
        0 <= k < 9 ==> #[trigger] us@[2]@[k] == loc_at((r / 3) * 3 + k / 3, (c / 3) * 3 + k % 3))
}

pub open spec fn units_wf(u: Vec<Vec<Vec<Loc>>>) -> bool {
    &&& u@.len() == 81
    &&& (forall|i: int| 0 <= i < 81 ==> units_ok_at(#[trigger] u@[i], i / 9, i % 9))
}

/// The peer list stored for the cell at `(r, c)`: exactly the 20 coordinates
/// sharing a unit with it, each exactly once, the cell itself excluded.
pub open spec fn peers_ok_at(ps: Seq<Loc>, r: int, c: int) -> bool {
    &&& ps.len() == 20
    &&& (forall|k: int| 0 <= k < 20 ==> is_peer(loc_at(r, c), #[trigger] ps[k]))
    &&& (forall|k1: int, k2: int| 0 <= k1 < k2 < 20 ==> ps[k1] != ps[k2])
    &&& (forall|q: Loc| #[trigger] is_peer(loc_at(r, c), q) ==> ps.contains(q))
}

pub open spec fn peers_wf(p: Vec<Vec<Loc>>) -> bool {
    &&& p@.len() == 81
    &&& (forall|i: int| 0 <= i < 81 ==> peers_ok_at((#[trigger] p@[i])@, i / 9, i % 9))
}

/// Number of box cells visited before step `t` that lie neither in the
/// cell's own row (`dr`) nor its own column (`dc`) of the box.
pub open spec fn box_pushes(t: int, dr: int, dc: int) -> nat
    decreases t,
{
    if t <= 0 {
        0
    } else {
        box_pushes(t - 1, dr, dc) + (if (t - 1) / 3 != dr && (t - 1) % 3 != dc {
            1nat
        } else {
            0nat
        })
    }
}

proof fn lemma_box_pushes_total(dr: int, dc: int)
    requires
        0 <= dr < 3,
        0 <= dc < 3,
    ensures
        box_pushes(9, dr, dc) == 4,
{
    reveal_with_fuel(box_pushes, 10);
}

proof fn lemma_push_keeps_contains<T>(s: Seq<T>, x: T, q: T)
    requires
        s.contains(q),
    ensures
        s.push(x).contains(q),
{
    let k = choose|k: int| 0 <= k < s.len() && s[k] == q;
    assert(s.push(x)[k] == q);
}

/// Build, for every cell in row-major order, its three units.
pub fn build_units() -> (u: Vec<Vec<Vec<Loc>>>)
    ensures
        units_wf(u),
{
    let mut u: Vec<Vec<Vec<Loc>>> = Vec::new();
    let mut r: usize = 0;
    while r < 9
        invariant
            r <= 9,
            u@.len() == r * 9,
            forall|i: int| 0 <= i < u@.len() ==> units_ok_at(#[trigger] u@[i], i / 9, i % 9),
        decreases 9 - r,
    {
        let mut c: usize = 0;
        while c < 9
            invariant
                r < 9,
                c <= 9,
                u@.len() == r * 9 + c,
                forall|i: int| 0 <= i < u@.len() ==> units_ok_at(#[trigger] u@[i], i / 9, i % 9),
            decreases 9 - c,
        {
            let mut row_u: Vec<Loc> = Vec::new();
            let mut k: usize = 0;
            while k < 9
                invariant
                    k <= 9,
                    row_u@.len() == k,
                    forall|t: int| 0 <= t < k ==> #[trigger] row_u@[t] == loc_at(r as int, t),
                decreases 9 - k,
            {
                row_u.push(Loc { row: r, col: k });
                k = k + 1;
            }
            let mut col_u: Vec<Loc> = Vec::new();
            k = 0;
            while k < 9
                invariant
                    k <= 9,
                    col_u@.len() == k,
                    forall|t: int| 0 <= t < k ==> #[trigger] col_u@[t] == loc_at(t, c as int),
                decreases 9 - k,
            {
                col_u.push(Loc { row: k, col: c });
                k = k + 1;
            }
            let br = (r / 3) * 3;
            let bc = (c / 3) * 3;
            let mut box_u: Vec<Loc> = Vec::new();
            k = 0;
            while k < 9
                invariant
                    k <= 9,
                    br == (r / 3) * 3,
                    bc == (c / 3) * 3,
                    r < 9,
                    c < 9,
                    box_u@.len() == k,
                    forall|t: int|
                        0 <= t < k ==> #[trigger] box_u@[t] == loc_at(
                            (r as int / 3) * 3 + t / 3,
                            (c as int / 3) * 3 + t % 3,
                        ),
                decreases 9 - k,
            {
                box_u.push(Loc { row: br + k / 3, col: bc + k % 3 });
                k = k + 1;
            }
            let mut us: Vec<Vec<Loc>> = Vec::new();
            us.push(row_u);
            us.push(col_u);
            us.push(box_u);
            proof {
                assert(units_ok_at(us, r as int, c as int));
                lemma_rc_idx(r as int, c as int);
            }
            u.push(us);
            c = c + 1;
        }
        r = r + 1;
    }
    u
}

/// Build the 20-entry peer list of one cell: its 8 row mates, its 8 column
/// mates, then the 4 box mates not already counted.
fn build_peers_at(r: usize, c: usize) -> (ps: Vec<Loc>)
    requires
        r < 9,
        c < 9,
    ensures
        peers_ok_at(ps@, r as int, c as int),
{
    let mut ps: Vec<Loc> = Vec::new();
    let mut j: usize = 0;
    while j < 9
        invariant
            j <= 9,
            r < 9,
            c < 9,
            ps@.len() == (if j <= c {
                j as int
            } else {
                j - 1
            }),
            forall|k: int|
                0 <= k < ps@.len() ==> #[trigger] ps@[k] == loc_at(
                    r as int,
                    (if k < c {
                        k
                    } else {
                        k + 1
                    }),
                ),
        decreases 9 - j,
    {
        if j != c {
            ps.push(Loc { row: r, col: j });
        }
        j = j + 1;
    }
    let mut i: usize = 0;
    while i < 9
        invariant
            i <= 9,
            r < 9,
            c < 9,
            ps@.len() == 8 + (if i <= r {
                i as int
            } else {
                i - 1
            }),
            forall|k: int|
                0 <= k < 8 ==> #[trigger] ps@[k] == loc_at(
                    r as int,
                    (if k < c {
                        k
                    } else {
                        k + 1
                    }),
                ),
            forall|k: int|
                8 <= k < ps@.len() ==> #[trigger] ps@[k] == loc_at(
                    (if k - 8 < r {
                        k - 8
                    } else {
                        k - 7
                    }),
                    c as int,
                ),
        decreases 9 - i,
    {
        if i != r {
            ps.push(Loc { row: i, col: c });
        }
        i = i + 1;
    }
    let br = (r / 3) * 3;
    let bc = (c / 3) * 3;
    let mut t: usize = 0;
    while t < 9
        invariant
            t <= 9,
            r < 9,
            c < 9,
            br == (r / 3) * 3,
            bc == (c / 3) * 3,
            ps@.len() == 16 + box_pushes(t as int, r - br, c - bc),
            forall|k: int|
                0 <= k < 8 ==> #[trigger] ps@[k] == loc_at(
                    r as int,
                    (if k < c {
                        k
                    } else {
                        k + 1
                    }),
                ),
            forall|k: int|
                8 <= k < 16 ==> #[trigger] ps@[k] == loc_at(
                    (if k - 8 < r {
                        k - 8
                    } else {
                        k - 7
                    }),
                    c as int,
                ),
            forall|k: int|
                16 <= k < ps@.len() ==> {
                    &&& valid_loc(#[trigger] ps@[k])
                    &&& ps@[k].row / 3 == r / 3
                    &&& ps@[k].col / 3 == c / 3
                    &&& ps@[k].row != r
                    &&& ps@[k].col != c
                    &&& (ps@[k].row - br) * 3 + (ps@[k].col - bc) < t
                },
            forall|k1: int, k2: int|
                #![trigger ps@[k1], ps@[k2]]
                16 <= k1 < k2 < ps@.len() ==> (ps@[k1].row - br) * 3 + (ps@[k1].col - bc) < (
                ps@[k2].row - br) * 3 + (ps@[k2].col - bc),
            forall|q: Loc|
                valid_loc(q) && q.row / 3 == r / 3 && q.col / 3 == c / 3 && q.row != r && q.col != c
                    && (q.row - br) * 3 + (q.col - bc) < t ==> ps@.contains(q),
        decreases 9 - t,
    {
        let px = br + t / 3;
        let py = bc + t % 3;
        if px != r && py != c {
            let ghost olds = ps@;
            ps.push(Loc { row: px, col: py });
            proof {
                assert forall|q: Loc|
                    valid_loc(q) && q.row / 3 == r / 3 && q.col / 3 == c / 3 && q.row != r
                        && q.col != c && (q.row - br) * 3 + (q.col - bc) < t + 1 implies ps@
                    .contains(q) by {
                    if (q.row - br) * 3 + (q.col - bc) < t {
                        lemma_push_keeps_contains(olds, Loc { row: px, col: py }, q);
                    } else {
                        assert(q.row == px && q.col == py);
                        assert(ps@[olds.len() as int] == q);
                    }
                }
            }
        } else {
            proof {
                assert forall|q: Loc|
                    valid_loc(q) && q.row / 3 == r / 3 && q.col / 3 == c / 3 && q.row != r
                        && q.col != c && (q.row - br) * 3 + (q.col - bc) < t + 1 implies ps@
                    .contains(q) by {
                    if (q.row - br) * 3 + (q.col - bc) == t {
                        assert(q.row == px && q.col == py);
                        assert(false);
                    }
                }
            }
        }
        t = t + 1;
    }
    proof {
        lemma_box_pushes_total(r - br, c - bc);
        assert(ps@.len() == 20);
        let me = loc_at(r as int, c as int);
        assert forall|k: int| 0 <= k < 20 implies is_peer(me, #[trigger] ps@[k]) by {}
        assert forall|q: Loc| #[trigger] is_peer(me, q) implies ps@.contains(q) by {
            if q.row == r {
                let k: int = if q.col < c {
                    q.col as int
                } else {
                    q.col - 1
                };
                assert(ps@[k] == q);
            } else if q.col == c {
                let k: int = 8 + (if q.row < r {
                    q.row as int
                } else {
                    q.row - 1
                });
                assert(ps@[k] == q);
            } else {
                assert(same_box(me, q));
                assert((q.row - br) * 3 + (q.col - bc) < 9);
            }
        }
    }
    ps
}

/// Build the peer table for every cell in row-major order.
pub fn build_peers() -> (p: Vec<Vec<Loc>>)
    ensures
        peers_wf(p),
{
    let mut p: Vec<Vec<Loc>> = Vec::new();
    let mut r: usize = 0;
    while r < 9
        invariant
            r <= 9,
            p@.len() == r * 9,
            forall|i: int| 0 <= i < p@.len() ==> peers_ok_at((#[trigger] p@[i])@, i / 9, i % 9),
        decreases 9 - r,
    {
        let mut c: usize = 0;
        while c < 9
            invariant
                r < 9,
                c <= 9,
                p@.len() == r * 9 + c,
                forall|i: int| 0 <= i < p@.len() ==> peers_ok_at((#[trigger] p@[i])@, i / 9, i % 9),
            decreases 9 - c,
        {
            let ps = build_peers_at(r, c);
            proof {
                lemma_rc_idx(r as int, c as int);
            }
            p.push(ps);
            c = c + 1;
        }
        r = r + 1;
    }
    p
}

/// Peer-count law: for every coordinate the stored peer list has exactly 20
/// entries, all valid, pairwise distinct, and never the coordinate itself.
pub proof fn lemma_peer_count(p: Vec<Vec<Loc>>, r: int, c: int)
    requires
        peers_wf(p),
        0 <= r < 9,
        0 <= c < 9,
    ensures
        p@[r * 9 + c]@.len() == 20,
        forall|k: int| 0 <= k < 20 ==> #[trigger] p@[r * 9 + c]@[k] != loc_at(r, c),
        forall|k: int| 0 <= k < 20 ==> valid_loc(#[trigger] p@[r * 9 + c]@[k]),
        forall|k1: int, k2: int|
            #![trigger p@[r * 9 + c]@[k1], p@[r * 9 + c]@[k2]]
            0 <= k1 < k2 < 20 ==> p@[r * 9 + c]@[k1] != p@[r * 9 + c]@[k2],
{
    lemma_rc_idx(r, c);
    assert(peers_ok_at(p@[r * 9 + c]@, r, c));
    assert forall|k: int| 0 <= k < 20 implies #[trigger] p@[r * 9 + c]@[k] != loc_at(r, c)
        && valid_loc(p@[r * 9 + c]@[k]) by {
        assert(is_peer(loc_at(r, c), p@[r * 9 + c]@[k]));
    }
}

/// Unit-coverage law: every coordinate belongs to exactly 3 stored units
/// (its row, column and box, each of 9 distinct coordinates, the coordinate
/// itself among them), and a coordinate `q` lies in the row unit of `(r, c)`
/// exactly when it shares the row, in the column unit exactly when it shares
/// the column, and in the box unit exactly when it shares the box.
pub proof fn lemma_unit_coverage(u: Vec<Vec<Vec<Loc>>>, r: int, c: int)
    requires
        units_wf(u),
        0 <= r < 9,
        0 <= c < 9,
    ensures
        u@[r * 9 + c]@.len() == 3,
        forall|g: int| 0 <= g < 3 ==> (#[trigger] u@[r * 9 + c]@[g])@.len() == 9,
        forall|g: int, k1: int, k2: int|
            #![trigger u@[r * 9 + c]@[g]@[k1], u@[r * 9 + c]@[g]@[k2]]
            0 <= g < 3 && 0 <= k1 < k2 < 9 ==> u@[r * 9 + c]@[g]@[k1] != u@[r * 9 + c]@[g]@[k2],
        forall|g: int|
            0 <= g < 3 ==> (#[trigger] u@[r * 9 + c]@[g])@.contains(loc_at(r, c)),
        forall|q: Loc|
            u@[r * 9 + c]@[0]@.contains(q) <==> (valid_loc(q) && q.row == r),
        forall|q: Loc|
            u@[r * 9 + c]@[1]@.contains(q) <==> (valid_loc(q) && q.col == c),
        forall|q: Loc|
            u@[r * 9 + c]@[2]@.contains(q) <==> (valid_loc(q) && q.row / 3 == r / 3 && q.col / 3
                == c / 3),
{
    lemma_rc_idx(r, c);
    let us = u@[r * 9 + c];
    assert(units_ok_at(us, r, c));
    let br = (r / 3) * 3;
    let bc = (c / 3) * 3;
    assert(us@[0]@[c] == loc_at(r, c));
    assert(us@[0]@.contains(loc_at(r, c)));
    assert(us@[1]@[r] == loc_at(r, c));
    assert(us@[1]@.contains(loc_at(r, c)));
    assert(us@[2]@[(r - br) * 3 + (c - bc)] == loc_at(r, c));
    assert(us@[2]@.contains(loc_at(r, c)));
    assert forall|q: Loc| us@[0]@.contains(q) implies (valid_loc(q) && q.row == r) by {
        let k = choose|k: int| 0 <= k < 9 && us@[0]@[k] == q;
    }
    assert forall|q: Loc| valid_loc(q) && q.row == r implies us@[0]@.contains(q) by {
        assert(us@[0]@[q.col as int] == q);
    }
    assert forall|q: Loc| us@[1]@.contains(q) implies (valid_loc(q) && q.col == c) by {
        let k = choose|k: int| 0 <= k < 9 && us@[1]@[k] == q;
    }
    assert forall|q: Loc| valid_loc(q) && q.col == c implies us@[1]@.contains(q) by {
        assert(us@[1]@[q.row as int] == q);
    }
    assert forall|q: Loc| us@[2]@.contains(q) implies (valid_loc(q) && q.row / 3 == r / 3
        && q.col / 3 == c / 3) by {
        let k = choose|k: int| 0 <= k < 9 && us@[2]@[k] == q;
        assert(us@[2]@[k] == loc_at(br + k / 3, bc + k % 3));
    }
    assert forall|q: Loc| valid_loc(q) && q.row / 3 == r / 3 && q.col / 3 == c / 3 implies us@[2]@
        .contains(q) by {
        let k = (q.row - br) * 3 + (q.col - bc);
        assert(us@[2]@[k] == q);
    }
}

} // verus!

//! The constraint-propagation engine: one candidate set per cell plus the
//! shared topology, with `assign` and `eliminate` mutually recursing to
//! enforce the naked-single and hidden-single rules to closure.
//!
//! Failure (`false`) means the candidate configuration is provably
//! inconsistent.  Mutations already applied are not rolled back: a caller
//! exploring hypotheses must clone the engine first and discard the failed
//! copy.

use vstd::prelude::*;

use crate::cand::{
    count_true, lemma_count_true_all_false, lemma_count_true_full, lemma_count_true_ge_one,
    lemma_count_true_mono, lemma_count_true_single, lemma_count_true_unique,
    lemma_count_true_update, Possible,
};
use crate::topo::{
    build_peers, build_units, in_unit, is_peer, lemma_loc_idx_inj, lemma_own_units, lemma_rc_idx,
    loc_at, loc_idx, peers_ok_at, peers_wf, unit_index, units_ok_at, units_wf, valid_loc, Loc,
};

verus! {

/// Digit `d` (1..=9) is still a candidate at `q` in the cell sequence `s`.
pub open spec fn on_at(s: Seq<Possible>, q: Loc, d: int) -> bool {
    s[loc_idx(q)]@[d - 1]
}

/// `b` is the same board as `a` with possibly fewer candidate flags:
/// flags only ever transition from set to unset.
pub open spec fn narrows(a: Seq<Possible>, b: Seq<Possible>) -> bool {
    &&& b.len() == a.len()
    &&& forall|i: int, j: int|
        #![trigger b[i]@[j]]
        #![trigger a[i]@[j]]
        0 <= i < a.len() && 0 <= j < 9 && b[i]@[j] ==> a[i]@[j]
}

/// No cell has run out of candidates.
pub open spec fn all_pos(s: Seq<Possible>) -> bool {
    forall|i: int| 0 <= i < s.len() ==> count_true((#[trigger] s[i])@) >= 1
}

/// Cell `q` is solved and its value is `d`.
pub open spec fn solved_to(s: Seq<Possible>, q: Loc, d: int) -> bool {
    &&& on_at(s, q, d)
    &&& forall|e: int| 1 <= e <= 9 && e != d ==> !on_at(s, q, e)
}

/// Total number of set candidate flags on the whole board; the measure that
/// shrinks with every effective elimination.
pub open spec fn total_on(s: Seq<Possible>) -> nat
    decreases s.len(),
{
    if s.len() == 0 {
        0
    } else {
        total_on(s.drop_last()) + count_true(s.last()@)
    }
}

pub proof fn lemma_total_on_update(s: Seq<Possible>, i: int, p: Possible)
    requires
        0 <= i < s.len(),
    ensures
        total_on(s.update(i, p)) + count_true(s[i]@) == total_on(s) + count_true(p@),
    decreases s.len(),
{
    let t = s.update(i, p);
    if i == s.len() - 1 {
        assert(t.drop_last() =~= s.drop_last());
        assert(t.last() == p);
    } else {
        assert(t.drop_last() =~= s.drop_last().update(i, p));
        assert(t.last() == s.last());
        lemma_total_on_update(s.drop_last(), i, p);
    }
}

pub proof fn lemma_total_on_narrows(a: Seq<Possible>, b: Seq<Possible>)
    requires
        narrows(a, b),
    ensures
        total_on(b) <= total_on(a),
    decreases a.len(),
{
    if a.len() > 0 {
        assert(forall|i: int, j: int|
            0 <= i < a.len() - 1 && 0 <= j < 9 && #[trigger] b.drop_last()[i]@[j]
                ==> a.drop_last()[i]@[j]) by {
            assert(forall|i: int| 0 <= i < a.len() - 1 ==> #[trigger] b.drop_last()[i] == b[i]);
            assert(forall|i: int| 0 <= i < a.len() - 1 ==> #[trigger] a.drop_last()[i] == a[i]);
        }
        assert(narrows(a.drop_last(), b.drop_last()));
        lemma_total_on_narrows(a.drop_last(), b.drop_last());
        assert(forall|j: int| 0 <= j < 9 && #[trigger] b.last()@[j] ==> a.last()@[j]) by {
            assert(b.last() == b[a.len() - 1]);
            assert(a.last() == a[a.len() - 1]);
        }
        lemma_count_true_mono(a.last()@, b.last()@);
    }
}

pub proof fn lemma_narrows_trans(a: Seq<Possible>, b: Seq<Possible>, c: Seq<Possible>)
    requires
        narrows(a, b),
        narrows(b, c),
    ensures
        narrows(a, c),
{
}

pub proof fn lemma_narrows_off(a: Seq<Possible>, b: Seq<Possible>, i: int, j: int)
    requires
        narrows(a, b),
        0 <= i < a.len(),
        0 <= j < 9,
        !a[i]@[j],
    ensures
        !b[i]@[j],
{
}

/// Monotonicity law: under the narrowing relation, the candidate count of
/// every cell is non-increasing.
pub proof fn lemma_narrows_count(a: Seq<Possible>, b: Seq<Possible>, i: int)
    requires
        narrows(a, b),
        0 <= i < a.len(),
    ensures
        count_true(b[i]@) <= count_true(a[i]@),
{
    lemma_count_true_mono(a[i]@, b[i]@);
}

/// The digit that the complete assignment `S` (flat, row-major, 81 digits)
/// puts at `q`.
pub open spec fn sval(sol: Seq<u8>, q: Loc) -> int {
    sol[loc_idx(q)] as int
}

/// Unit `u` of the complete assignment holds digit `e` somewhere.
pub open spec fn unit_sol_has(sol: Seq<u8>, u: int, e: int) -> bool {
    exists|q: Loc| in_unit(q, u) && #[trigger] sval(sol, q) == e
}

/// A complete valid solution: 81 digits 1..=9, no two peers equal, and
/// every unit holding every digit.
pub open spec fn full_solution(sol: Seq<u8>) -> bool {
    &&& sol.len() == 81
    &&& (forall|q: Loc| valid_loc(q) ==> 1 <= #[trigger] sval(sol, q) <= 9)
    &&& (forall|a: Loc, b: Loc| #[trigger] is_peer(a, b) ==> sval(sol, a) != sval(sol, b))
    &&& (forall|u: int, e: int| 0 <= u < 27 && 1 <= e <= 9 ==> #[trigger] unit_sol_has(sol, u, e))
}

/// Every cell still admits the digit `sol` assigns it: the candidate grid
/// has not ruled the solution out.
pub open spec fn compat(s: Seq<Possible>, sol: Seq<u8>) -> bool {
    forall|q: Loc| valid_loc(q) ==> on_at(s, q, #[trigger] sval(sol, q))
}

proof fn lemma_compat_after_clear(
    s0: Seq<Possible>,
    s1: Seq<Possible>,
    lc: Loc,
    d: int,
    sol: Seq<u8>,
)
    requires
        s0.len() == 81,
        s1.len() == 81,
        valid_loc(lc),
        1 <= d <= 9,
        forall|i: int| 0 <= i < 81 && i != loc_idx(lc) ==> s1[i] == s0[i],
        forall|j: int| 0 <= j < 9 && j != d - 1 ==> s1[loc_idx(lc)]@[j] == s0[loc_idx(lc)]@[j],
        full_solution(sol),
        compat(s0, sol),
        sval(sol, lc) != d,
    ensures
        compat(s1, sol),
{
    assert forall|q: Loc| valid_loc(q) implies on_at(s1, q, #[trigger] sval(sol, q)) by {
        assert(on_at(s0, q, sval(sol, q)));
        if q == lc {
            assert(s1[loc_idx(lc)]@[sval(sol, lc) - 1] == s0[loc_idx(lc)]@[sval(sol, lc) - 1]);
        } else {
            if loc_idx(q) == loc_idx(lc) {
                lemma_loc_idx_inj(q, lc);
            }
            assert(s1[loc_idx(q)] == s0[loc_idx(q)]);
        }
    }
}

proof fn lemma_unit_list_covers(us: Vec<Vec<Loc>>, r: int, c: int, g: int, q: Loc)
    requires
        units_ok_at(us, r, c),
        0 <= r < 9,
        0 <= c < 9,
        0 <= g < 3,
        in_unit(q, unit_index(r, c, g)),
    ensures
        exists|k: int| 0 <= k < 9 && #[trigger] us@[g]@[k] == q,
{
    if g == 0 {
        assert(us@[0]@[q.col as int] == loc_at(r, q.col as int));
        assert(us@[0]@[q.col as int] == q);
    } else if g == 1 {
        assert(us@[1]@[q.row as int] == loc_at(q.row as int, c));
        assert(us@[1]@[q.row as int] == q);
    } else {
        let br = (r / 3) * 3;
        let bc = (c / 3) * 3;
        assert(q.row as int / 3 == r / 3 && q.col as int / 3 == c / 3);
        let k = (q.row - br) * 3 + (q.col - bc);
        assert(us@[2]@[k] == loc_at(br + k / 3, bc + k % 3));
        assert(us@[2]@[k] == q);
    }
}

proof fn lemma_solution_place_in_unit(
    s: Seq<Possible>,
    sol: Seq<u8>,
    us: Vec<Vec<Loc>>,
    r: int,
    c: int,
    g: int,
    d: int,
)
    requires
        units_ok_at(us, r, c),
        0 <= r < 9,
        0 <= c < 9,
        0 <= g < 3,
        1 <= d <= 9,
        s.len() == 81,
        full_solution(sol),
        compat(s, sol),
    ensures
        exists|k: int|
            0 <= k < 9 && on_at(s, #[trigger] us@[g]@[k], d) && sval(sol, us@[g]@[k]) == d,
{
    assert(0 <= unit_index(r, c, g) < 27);
    assert(unit_sol_has(sol, unit_index(r, c, g), d));
    let q = choose|q: Loc| in_unit(q, unit_index(r, c, g)) && #[trigger] sval(sol, q) == d;
    lemma_unit_list_covers(us, r, c, g, q);
    let k = choose|k: int| 0 <= k < 9 && #[trigger] us@[g]@[k] == q;
    assert(on_at(s, q, sval(sol, q)));
    assert(on_at(s, us@[g]@[k], d) && sval(sol, us@[g]@[k]) == d);
}

/// Naked-single soundness across one narrowing: every cell that went from
/// two or more candidates in `a` down to exactly one in `b` has its
/// remaining value excluded from all of its peers in `b`.
pub open spec fn rule1_sound(a: Seq<Possible>, b: Seq<Possible>) -> bool {
    forall|q: Loc, p: Loc, e: int|
        #![trigger on_at(b, q, e), is_peer(q, p)]
        valid_loc(q) && 1 <= e <= 9 && count_true(a[loc_idx(q)]@) >= 2 && count_true(
            b[loc_idx(q)]@,
        ) == 1 && on_at(b, q, e) && is_peer(q, p) ==> !on_at(b, p, e)
}

proof fn lemma_rule1_refl(s: Seq<Possible>)
    ensures
        rule1_sound(s, s),
{
}

proof fn lemma_rule1_compose(s0: Seq<Possible>, sa: Seq<Possible>, sb: Seq<Possible>)
    requires
        s0.len() == 81,
        sa.len() == 81,
        sb.len() == 81,
        narrows(sa, sb),
        rule1_sound(s0, sa),
        rule1_sound(sa, sb),
    ensures
        rule1_sound(s0, sb),
{
    assert forall|q: Loc, p: Loc, e: int|
        valid_loc(q) && 1 <= e <= 9 && count_true(s0[loc_idx(q)]@) >= 2 && count_true(
            sb[loc_idx(q)]@,
        ) == 1 && #[trigger] on_at(sb, q, e) && #[trigger] is_peer(q, p) implies !on_at(
        sb,
        p,
        e,
    ) by {
        let i = loc_idx(q);
        lemma_narrows_count(sa, sb, i);
        if count_true(sa[i]@) >= 2 {
            assert(!on_at(sb, p, e));
        } else {
            assert(count_true(sa[i]@) == 1);
            assert(on_at(sa, q, e));
            assert(!on_at(sa, p, e));
            lemma_narrows_off(sa, sb, loc_idx(p), e - 1);
        }
    }
}

/// Some cell of unit `u` still admits digit `e`.
pub open spec fn unit_has(s: Seq<Possible>, u: int, e: int) -> bool {
    exists|q: Loc| in_unit(q, u) && #[trigger] on_at(s, q, e)
}

/// Rule-1 closure as a state invariant: every solved cell's value is
/// already excluded from all of its peers.
pub open spec fn rule1_closed(s: Seq<Possible>) -> bool {
    forall|q: Loc, p: Loc, e: int|
        #![trigger on_at(s, q, e), is_peer(q, p)]
        valid_loc(q) && 1 <= e <= 9 && count_true(s[loc_idx(q)]@) == 1 && on_at(s, q, e)
            && is_peer(q, p) ==> !on_at(s, p, e)
}

/// Hidden-single closure as a state invariant: whenever exactly one cell of
/// a unit admits a digit, that cell is solved.
pub open spec fn rule2_closed(s: Seq<Possible>) -> bool {
    forall|u: int, e: int, x: Loc|
        #![trigger in_unit(x, u), on_at(s, x, e)]
        0 <= u < 27 && 1 <= e <= 9 && in_unit(x, u) && on_at(s, x, e) && (forall|y: Loc|
            in_unit(y, u) && #[trigger] on_at(s, y, e) ==> y == x) ==> count_true(
            s[loc_idx(x)]@,
        ) == 1
}

/// Hidden-single soundness across one narrowing: if some cell of unit `u`
/// lost digit `e` between `a` and `b`, and exactly one cell of `u` still
/// admits `e` in `b`, then that cell is solved in `b`.
pub open spec fn rule2_sound(a: Seq<Possible>, b: Seq<Possible>) -> bool {
    forall|u: int, e: int, x: Loc|
        #![trigger in_unit(x, u), on_at(b, x, e)]
        0 <= u < 27 && 1 <= e <= 9 && in_unit(x, u) && on_at(b, x, e) && (exists|y: Loc|
            in_unit(y, u) && #[trigger] on_at(a, y, e) && !on_at(b, y, e)) && (forall|y: Loc|
            in_unit(y, u) && #[trigger] on_at(b, y, e) ==> y == x) ==> count_true(
            b[loc_idx(x)]@,
        ) == 1
}

/// Unit `u` either already has a solved cell carrying digit `e`, or at
/// least two of its cells still admit `e`.
pub open spec fn placed_or_open(s: Seq<Possible>, u: int, e: int) -> bool {
    ||| (exists|x: Loc|
        in_unit(x, u) && #[trigger] on_at(s, x, e) && count_true(s[loc_idx(x)]@) == 1)
    ||| (exists|x: Loc, y: Loc|
        x != y && in_unit(x, u) && in_unit(y, u) && #[trigger] on_at(s, x, e) && #[trigger] on_at(
            s,
            y,
            e,
        ))
}

proof fn lemma_rule2_refl(s: Seq<Possible>)
    ensures
        rule2_sound(s, s),
{
    assert forall|u: int, e: int, x: Loc|
        0 <= u < 27 && 1 <= e <= 9 && #[trigger] in_unit(x, u) && #[trigger] on_at(s, x, e) && (
        exists|y: Loc| in_unit(y, u) && #[trigger] on_at(s, y, e) && !on_at(s, y, e)) && (forall|
            y: Loc,
        | in_unit(y, u) && #[trigger] on_at(s, y, e) ==> y == x) implies count_true(
        s[loc_idx(x)]@,
    ) == 1 by {
        let y = choose|y: Loc| in_unit(y, u) && #[trigger] on_at(s, y, e) && !on_at(s, y, e);
        assert(false);
    }
}

proof fn lemma_rule2_compose(sa: Seq<Possible>, sb: Seq<Possible>, sc: Seq<Possible>)
    requires
        sa.len() == 81,
        sb.len() == 81,
        sc.len() == 81,
        narrows(sa, sb),
        narrows(sb, sc),
        rule2_sound(sa, sb),
        rule2_sound(sb, sc),
        all_pos(sc),
    ensures
        rule2_sound(sa, sc),
{
    assert forall|u: int, e: int, x: Loc|
        0 <= u < 27 && 1 <= e <= 9 && #[trigger] in_unit(x, u) && #[trigger] on_at(sc, x, e) && (
        exists|y: Loc| in_unit(y, u) && #[trigger] on_at(sa, y, e) && !on_at(sc, y, e)) && (forall|
            y: Loc,
        | in_unit(y, u) && #[trigger] on_at(sc, y, e) ==> y == x) implies count_true(
        sc[loc_idx(x)]@,
    ) == 1 by {
        if exists|y: Loc| in_unit(y, u) && #[trigger] on_at(sb, y, e) && !on_at(sc, y, e) {
            assert(count_true(sc[loc_idx(x)]@) == 1);
        } else {
            assert forall|y: Loc| in_unit(y, u) && #[trigger] on_at(sb, y, e) implies on_at(
                sc,
                y,
                e,
            ) by {
                if !on_at(sc, y, e) {
                    assert(false);
                }
            }
            let y0 = choose|y: Loc| in_unit(y, u) && #[trigger] on_at(sa, y, e) && !on_at(sc, y, e);
            assert(!on_at(sb, y0, e));
            assert(on_at(sb, x, e));
            assert forall|y: Loc| in_unit(y, u) && #[trigger] on_at(sb, y, e) implies y == x by {
                assert(on_at(sc, y, e));
            }
            assert(count_true(sb[loc_idx(x)]@) == 1);
            lemma_narrows_count(sb, sc, loc_idx(x));
            assert(count_true(sc[loc_idx(x)]@) >= 1);
        }
    }
}

proof fn lemma_pom_step(a: Seq<Possible>, b: Seq<Possible>, u: int, e: int)
    requires
        a.len() == 81,
        b.len() == 81,
        narrows(a, b),
        all_pos(b),
        rule2_sound(a, b),
        unit_has(a, u, e) ==> unit_has(b, u, e),
        0 <= u < 27,
        1 <= e <= 9,
        placed_or_open(a, u, e),
    ensures
        placed_or_open(b, u, e),
{
    if exists|x: Loc|
        in_unit(x, u) && #[trigger] on_at(a, x, e) && count_true(a[loc_idx(x)]@) == 1 {
        let x = choose|x: Loc|
            in_unit(x, u) && #[trigger] on_at(a, x, e) && count_true(a[loc_idx(x)]@) == 1;
        lemma_narrows_count(a, b, loc_idx(x));
        assert(count_true(b[loc_idx(x)]@) == 1);
        assert(on_at(b, x, e)) by {
            lemma_count_true_all_false(b[loc_idx(x)]@);
            let j = choose|j: int| 0 <= j < 9 && b[loc_idx(x)]@[j];
            assert(a[loc_idx(x)]@[j]);
            lemma_count_true_unique(a[loc_idx(x)]@, j, e - 1);
        }
    } else {
        let (x, y) = choose|x: Loc, y: Loc|
            x != y && in_unit(x, u) && in_unit(y, u) && #[trigger] on_at(a, x, e)
                && #[trigger] on_at(a, y, e);
        if on_at(b, x, e) && on_at(b, y, e) {
            assert(placed_or_open(b, u, e));
        } else {
            assert(exists|z: Loc| in_unit(z, u) && #[trigger] on_at(a, z, e) && !on_at(b, z, e))
                by {
                if !on_at(b, x, e) {
                    assert(in_unit(x, u) && on_at(a, x, e) && !on_at(b, x, e));
                } else {
                    assert(in_unit(y, u) && on_at(a, y, e) && !on_at(b, y, e));
                }
            }
            assert(unit_has(a, u, e));
            assert(unit_has(b, u, e));
            let w = choose|q: Loc| in_unit(q, u) && #[trigger] on_at(b, q, e);
            if exists|x2: Loc, y2: Loc|
                x2 != y2 && in_unit(x2, u) && in_unit(y2, u) && #[trigger] on_at(b, x2, e)
                    && #[trigger] on_at(b, y2, e) {
                assert(placed_or_open(b, u, e));
            } else {
                assert forall|y2: Loc| in_unit(y2, u) && #[trigger] on_at(b, y2, e) implies y2
                    == w by {
                    if y2 != w {
                        assert(y2 != w && in_unit(y2, u) && in_unit(w, u) && on_at(b, y2, e)
                            && on_at(b, w, e));
                        assert(false);
                    }
                }
                assert(count_true(b[loc_idx(w)]@) == 1);
                assert(placed_or_open(b, u, e));
            }
        }
    }
}

/// Naked-single soundness as a standing invariant: a successful engine call
/// on a rule-1-closed grid leaves it rule-1-closed, so after seeding an open
/// grid by `assign`/`eliminate` alone, no solved cell's value ever survives
/// in a peer.  The hypotheses are exactly what the engine's postconditions
/// supply for a successful call on a grid with no empty cell.
pub proof fn lemma_rule1_closed_preserved(a: Seq<Possible>, b: Seq<Possible>)
    requires
        a.len() == 81,
        narrows(a, b),
        rule1_sound(a, b),
        rule1_closed(a),
    ensures
        rule1_closed(b),
{
    assert forall|q: Loc, p: Loc, e: int|
        valid_loc(q) && 1 <= e <= 9 && count_true(b[loc_idx(q)]@) == 1 && #[trigger] on_at(
            b,
            q,
            e,
        ) && #[trigger] is_peer(q, p) implies !on_at(b, p, e) by {
        lemma_narrows_count(a, b, loc_idx(q));
        if count_true(a[loc_idx(q)]@) >= 2 {
            assert(!on_at(b, p, e));
        } else {
            assert(count_true(a[loc_idx(q)]@) == 1);
            assert(on_at(a, q, e));
            assert(!on_at(a, p, e));
            lemma_narrows_off(a, b, loc_idx(p), e - 1);
        }
    }
}

/// Hidden-single soundness as a standing invariant: a successful engine
/// call on a rule-2-closed grid with no empty cell leaves it rule-2-closed,
/// so a unit reduced to a single place for a digit always has that place
/// solved.  The hypotheses are what the engine's postconditions supply.
pub proof fn lemma_rule2_closed_preserved(a: Seq<Possible>, b: Seq<Possible>)
    requires
        a.len() == 81,
        narrows(a, b),
        all_pos(b),
        rule2_sound(a, b),
        rule2_closed(a),
    ensures
        rule2_closed(b),
{
    assert forall|u: int, e: int, x: Loc|
        0 <= u < 27 && 1 <= e <= 9 && #[trigger] in_unit(x, u) && #[trigger] on_at(b, x, e) && (
        forall|y: Loc| in_unit(y, u) && #[trigger] on_at(b, y, e) ==> y == x) implies count_true(
        b[loc_idx(x)]@,
    ) == 1 by {
        if exists|y: Loc| in_unit(y, u) && #[trigger] on_at(a, y, e) && !on_at(b, y, e) {
            assert(count_true(b[loc_idx(x)]@) == 1);
        } else {
            assert forall|y: Loc| in_unit(y, u) && #[trigger] on_at(a, y, e) implies y == x by {
                if !on_at(b, y, e) {
                    assert(false);
                }
            }
            assert(on_at(a, x, e));
            assert(count_true(a[loc_idx(x)]@) == 1);
            lemma_narrows_count(a, b, loc_idx(x));
            assert(count_true(b[loc_idx(x)]@) >= 1);
        }
    }
}

/// A fully open grid (nine candidates everywhere) satisfies both closure
/// invariants vacuously: no cell is solved and no unit has a unique place
/// for any digit.  This anchors the two preservation laws at `Sudoku::new`.
pub proof fn lemma_open_grid_closed(s: Seq<Possible>)
    requires
        s.len() == 81,
        forall|i: int| 0 <= i < 81 ==> count_true((#[trigger] s[i])@) == 9,
    ensures
        rule1_closed(s),
        rule2_closed(s),
{
    assert forall|q: Loc, p: Loc, e: int|
        valid_loc(q) && 1 <= e <= 9 && count_true(s[loc_idx(q)]@) == 1 && #[trigger] on_at(
            s,
            q,
            e,
        ) && #[trigger] is_peer(q, p) implies !on_at(s, p, e) by {
        assert(false);
    }
    assert forall|u: int, e: int, x: Loc|
        0 <= u < 27 && 1 <= e <= 9 && #[trigger] in_unit(x, u) && #[trigger] on_at(s, x, e) && (
        forall|y: Loc| in_unit(y, u) && #[trigger] on_at(s, y, e) ==> y == x) implies count_true(
        s[loc_idx(x)]@,
    ) == 1 by {
        let y1: Loc = if u < 9 {
            loc_at(u, 0)
        } else if u < 18 {
            loc_at(0, u - 9)
        } else {
            loc_at(((u - 18) / 3) * 3, ((u - 18) % 3) * 3)
        };
        let y2: Loc = if u < 9 {
            loc_at(u, 1)
        } else if u < 18 {
            loc_at(1, u - 9)
        } else {
            loc_at(((u - 18) / 3) * 3, ((u - 18) % 3) * 3 + 1)
        };
        assert(valid_loc(y1) && valid_loc(y2) && y1 != y2);
        assert(in_unit(y1, u) && in_unit(y2, u));
        lemma_count_true_full(s[loc_idx(y1)]@);
        lemma_count_true_full(s[loc_idx(y2)]@);
        assert(on_at(s, y1, e) && on_at(s, y2, e));
        assert(y1 == x && y2 == x);
        assert(false);
    }
}

proof fn lemma_unit_list_distinct(us: Vec<Vec<Loc>>, r: int, c: int, g: int, k1: int, k2: int)
    requires
        units_ok_at(us, r, c),
        0 <= r < 9,
        0 <= c < 9,
        0 <= g < 3,
        0 <= k1 < 9,
        0 <= k2 < 9,
        k1 != k2,
    ensures
        us@[g]@[k1] != us@[g]@[k2],
{
    if g == 0 {
        assert(us@[0]@[k1] == loc_at(r, k1));
        assert(us@[0]@[k2] == loc_at(r, k2));
    } else if g == 1 {
        assert(us@[1]@[k1] == loc_at(k1, c));
        assert(us@[1]@[k2] == loc_at(k2, c));
    } else {
        assert(us@[2]@[k1] == loc_at((r / 3) * 3 + k1 / 3, (c / 3) * 3 + k1 % 3));
        assert(us@[2]@[k2] == loc_at((r / 3) * 3 + k2 / 3, (c / 3) * 3 + k2 % 3));
        if k1 / 3 == k2 / 3 {
            assert(k1 % 3 != k2 % 3);
        }
    }
}

proof fn lemma_unit_has_after_clear(
    s0: Seq<Possible>,
    s1: Seq<Possible>,
    l: Loc,
    d: int,
    u: int,
    e: int,
)
    requires
        s0.len() == 81,
        s1.len() == 81,
        valid_loc(l),
        1 <= d <= 9,
        1 <= e <= 9,
        0 <= u < 27,
        forall|i: int| 0 <= i < 81 && i != loc_idx(l) ==> s1[i] == s0[i],
        forall|j: int| 0 <= j < 9 && j != d - 1 ==> s1[loc_idx(l)]@[j] == s0[loc_idx(l)]@[j],
        !(e == d && in_unit(l, u)),
        unit_has(s0, u, e),
    ensures
        unit_has(s1, u, e),
{
    let q = choose|q: Loc| in_unit(q, u) && #[trigger] on_at(s0, q, e);
    if q == l {
        assert(e != d);
        assert(s1[loc_idx(l)]@[e - 1] == s0[loc_idx(l)]@[e - 1]);
    } else {
        if loc_idx(q) == loc_idx(l) {
            lemma_loc_idx_inj(q, l);
        }
        assert(s1[loc_idx(q)] == s0[loc_idx(q)]);
    }
    assert(on_at(s1, q, e));
}

proof fn lemma_units_live_frame(
    s0: Seq<Possible>,
    s1: Seq<Possible>,
    sf: Seq<Possible>,
    lc: Loc,
    d: int,
    row: int,
    col: int,
)
    requires
        s0.len() == 81,
        s1.len() == 81,
        valid_loc(lc),
        lc == loc_at(row, col),
        0 <= row < 9,
        0 <= col < 9,
        1 <= d <= 9,
        forall|i: int| 0 <= i < 81 && i != loc_idx(lc) ==> s1[i] == s0[i],
        forall|j: int| 0 <= j < 9 && j != d - 1 ==> s1[loc_idx(lc)]@[j] == s0[loc_idx(lc)]@[j],
        forall|u: int, e: int|
            0 <= u < 27 && 1 <= e <= 9 && unit_has(s1, u, e) ==> unit_has(sf, u, e),
        forall|g: int| 0 <= g < 3 ==> unit_has(sf, #[trigger] unit_index(row, col, g), d),
    ensures
        forall|u: int, e: int|
            0 <= u < 27 && 1 <= e <= 9 && unit_has(s0, u, e) ==> unit_has(sf, u, e),
{
    assert forall|u: int, e: int|
        0 <= u < 27 && 1 <= e <= 9 && unit_has(s0, u, e) implies unit_has(sf, u, e) by {
        if e == d && in_unit(lc, u) {
            lemma_own_units(lc, u);
            assert(lc.row as int == row && lc.col as int == col);
            if u == unit_index(row, col, 0) {
                assert(unit_has(sf, unit_index(row, col, 0), d));
            } else if u == unit_index(row, col, 1) {
                assert(unit_has(sf, unit_index(row, col, 1), d));
            } else {
                assert(u == unit_index(row, col, 2));
                assert(unit_has(sf, unit_index(row, col, 2), d));
            }
        } else {
            lemma_unit_has_after_clear(s0, s1, lc, d, u, e);
            assert(unit_has(s1, u, e));
        }
    }
}

proof fn lemma_rule1_frame(
    s0: Seq<Possible>,
    s1: Seq<Possible>,
    s2: Seq<Possible>,
    sf: Seq<Possible>,
    lc: Loc,
    d: int,
    ran: bool,
    gv: int,
)
    requires
        s0.len() == 81,
        s1.len() == 81,
        s2.len() == 81,
        valid_loc(lc),
        1 <= d <= 9,
        forall|i: int| 0 <= i < 81 && i != loc_idx(lc) ==> s1[i] == s0[i],
        count_true(s1[loc_idx(lc)]@) + 1 == count_true(s0[loc_idx(lc)]@),
        count_true(s1[loc_idx(lc)]@) >= 1,
        ran <==> count_true(s1[loc_idx(lc)]@) == 1,
        ran ==> 1 <= gv <= 9,
        ran ==> (forall|d2: int|
            #![trigger s1[loc_idx(lc)]@[d2 - 1]]
            1 <= d2 <= 9 && s1[loc_idx(lc)]@[d2 - 1] ==> d2 == gv),
        ran ==> (forall|q: Loc| is_peer(lc, q) ==> !on_at(s2, q, gv)),
        ran ==> narrows(s2, sf),
        narrows(s1, sf),
        rule1_sound(s1, sf),
    ensures
        rule1_sound(s0, sf),
{
    assert forall|q: Loc, p: Loc, e: int|
        valid_loc(q) && 1 <= e <= 9 && count_true(s0[loc_idx(q)]@) >= 2 && count_true(
            sf[loc_idx(q)]@,
        ) == 1 && #[trigger] on_at(sf, q, e) && #[trigger] is_peer(q, p) implies !on_at(
        sf,
        p,
        e,
    ) by {
        if q == lc && ran {
            assert(on_at(s1, lc, e));
            assert(s1[loc_idx(lc)]@[e - 1]);
            assert(e == gv);
            assert(is_peer(lc, p));
            assert(!on_at(s2, p, gv));
            lemma_narrows_off(s2, sf, loc_idx(p), gv - 1);
        } else {
            if q == lc {
                assert(count_true(s1[loc_idx(q)]@) >= 2);
            } else {
                if loc_idx(q) == loc_idx(lc) {
                    lemma_loc_idx_inj(q, lc);
                }
                assert(s1[loc_idx(q)] == s0[loc_idx(q)]);
            }
            assert(!on_at(sf, p, e));
        }
    }
}

proof fn lemma_rule2_frame(
    s0: Seq<Possible>,
    s1: Seq<Possible>,
    sf: Seq<Possible>,
    lc: Loc,
    d: int,
    row: int,
    col: int,
)
    requires
        s0.len() == 81,
        s1.len() == 81,
        sf.len() == 81,
        valid_loc(lc),
        lc == loc_at(row, col),
        0 <= row < 9,
        0 <= col < 9,
        1 <= d <= 9,
        forall|i: int| 0 <= i < 81 && i != loc_idx(lc) ==> s1[i] == s0[i],
        forall|j: int| 0 <= j < 9 && j != d - 1 ==> s1[loc_idx(lc)]@[j] == s0[loc_idx(lc)]@[j],
        rule2_sound(s1, sf),
        forall|g: int| 0 <= g < 3 ==> placed_or_open(sf, #[trigger] unit_index(row, col, g), d),
    ensures
        rule2_sound(s0, sf),
{
    assert forall|u: int, e: int, x: Loc|
        0 <= u < 27 && 1 <= e <= 9 && #[trigger] in_unit(x, u) && #[trigger] on_at(sf, x, e) && (
        exists|y: Loc| in_unit(y, u) && #[trigger] on_at(s0, y, e) && !on_at(sf, y, e)) && (forall|
            y: Loc,
        | in_unit(y, u) && #[trigger] on_at(sf, y, e) ==> y == x) implies count_true(
        sf[loc_idx(x)]@,
    ) == 1 by {
        if e == d && in_unit(lc, u) {
            lemma_own_units(lc, u);
            assert(lc.row as int == row && lc.col as int == col);
            if u == unit_index(row, col, 0) {
                assert(placed_or_open(sf, unit_index(row, col, 0), d));
            } else if u == unit_index(row, col, 1) {
                assert(placed_or_open(sf, unit_index(row, col, 1), d));
            } else {
                assert(u == unit_index(row, col, 2));
                assert(placed_or_open(sf, unit_index(row, col, 2), d));
            }
            assert(placed_or_open(sf, u, d));
            if exists|w: Loc|
                in_unit(w, u) && #[trigger] on_at(sf, w, e) && count_true(sf[loc_idx(w)]@) == 1 {
                let w = choose|w: Loc|
                    in_unit(w, u) && #[trigger] on_at(sf, w, e) && count_true(sf[loc_idx(w)]@)
                        == 1;
                assert(w == x);
            } else {
                let (w1, w2) = choose|w1: Loc, w2: Loc|
                    w1 != w2 && in_unit(w1, u) && in_unit(w2, u) && #[trigger] on_at(sf, w1, e)
                        && #[trigger] on_at(sf, w2, e);
                assert(w1 == x && w2 == x);
                assert(false);
            }
        } else {
            let y0 = choose|y: Loc| in_unit(y, u) && #[trigger] on_at(s0, y, e) && !on_at(sf, y, e);
            assert(on_at(s1, y0, e)) by {
                if y0 == lc {
                    assert(e != d);
                    assert(s1[loc_idx(lc)]@[e - 1] == s0[loc_idx(lc)]@[e - 1]);
                } else {
                    if loc_idx(y0) == loc_idx(lc) {
                        lemma_loc_idx_inj(y0, lc);
                    }
                    assert(s1[loc_idx(y0)] == s0[loc_idx(y0)]);
                }
            }
            assert(count_true(sf[loc_idx(x)]@) == 1);
        }
    }
}

/// The propagation engine: the candidate grid (flat, row-major) plus the
/// read-only topology tables.
pub struct Sudoku {
    /// 81 candidate sets, the cell `(r, c)` at index `r * 9 + c`.
    pub cells: Vec<Possible>,
    /// For each cell, its 3 units (row, column, box), each 9 coordinates.
    pub units: Vec<Vec<Vec<Loc>>>,
    /// For each cell, its 20 peers.
    pub peers: Vec<Vec<Loc>>,
}

impl Sudoku {
    pub open spec fn wf(self) -> bool {
        &&& self.cells@.len() == 81
        &&& units_wf(self.units)
        &&& peers_wf(self.peers)
    }

    pub open spec fn on(self, r: int, c: int, d: int) -> bool {
        on_at(self.cells@, loc_at(r, c), d)
    }

    /// A fresh engine: topology built once, every cell fully open, so both
    /// closure invariants hold vacuously.
    pub fn new() -> (s: Sudoku)
        ensures
            s.wf(),
            all_pos(s.cells@),
            forall|q: Loc, d: int| valid_loc(q) && 1 <= d <= 9 ==> on_at(s.cells@, q, d),
            forall|i: int| 0 <= i < 81 ==> count_true((#[trigger] s.cells@[i])@) == 9,
            rule1_closed(s.cells@),
            rule2_closed(s.cells@),
    {
        let mut cells: Vec<Possible> = Vec::new();
        let mut i: usize = 0;
        while i < 81
            invariant
                i <= 81,
                cells@.len() == i,
                forall|t: int| 0 <= t < i ==> count_true((#[trigger] cells@[t])@) == 9,
                forall|t: int, j: int|
                    #![trigger cells@[t]@[j]]
                    0 <= t < i && 0 <= j < 9 ==> cells@[t]@[j],
            decreases 81 - i,
        {
            cells.push(Possible::new());
            i = i + 1;
        }
        let s = Sudoku { cells, units: build_units(), peers: build_peers() };
        proof {
            assert forall|q: Loc, d: int| valid_loc(q) && 1 <= d <= 9 implies on_at(
                s.cells@,
                q,
                d,
            ) by {
                assert(0 <= loc_idx(q) < 81);
            }
            lemma_open_grid_closed(s.cells@);
        }
        s
    }

    /// Commit digit `d` as the value of `(row, col)` by eliminating every
    /// other digit there.  On success (with no cell previously empty) the
    /// cell is solved to `d`; on failure the grid may be left partially
    /// narrowed and must be discarded by the caller.
    ///
    /// Propagation is sound and complete in this sense: every complete
    /// valid solution compatible with the current candidates that puts `d`
    /// at `(row, col)` stays compatible, and while one exists the call
    /// cannot fail.
    #[verifier::loop_isolation(false)]
    pub fn assign(&mut self, row: usize, col: usize, d: u8) -> (r: bool)
        requires
            old(self).wf(),
            row < 9,
            col < 9,
            1 <= d <= 9,
        ensures
            final(self).wf(),
            final(self).units == old(self).units,
            final(self).peers == old(self).peers,
            narrows(old(self).cells@, final(self).cells@),
            (r && all_pos(old(self).cells@)) ==> all_pos(final(self).cells@) && solved_to(
                final(self).cells@,
                loc_at(row as int, col as int),
                d as int,
            ),
            (r && all_pos(old(self).cells@)) ==> (forall|u: int, e: int|
                0 <= u < 27 && 1 <= e <= 9 && unit_has(old(self).cells@, u, e) ==> unit_has(
                    final(self).cells@,
                    u,
                    e,
                )),
            (r && all_pos(old(self).cells@)) ==> rule1_sound(
                old(self).cells@,
                final(self).cells@,
            ),
            (r && all_pos(old(self).cells@)) ==> rule2_sound(
                old(self).cells@,
                final(self).cells@,
            ),
            forall|sol: Seq<u8>|
                (#[trigger] full_solution(sol)) && compat(old(self).cells@, sol) && sval(
                    sol,
                    loc_at(row as int, col as int),
                ) == d as int ==> r && compat(final(self).cells@, sol),
        decreases total_on(old(self).cells@), 1nat,
    {
        let ghost lc = loc_at(row as int, col as int);
        proof {
            lemma_rule1_refl(old(self).cells@);
            lemma_rule2_refl(old(self).cells@);
        }
        let mut i: u8 = 1;
        while i <= 9
            invariant
                1 <= i <= 10,
                self.wf(),
                self.units == old(self).units,
                self.peers == old(self).peers,
                narrows(old(self).cells@, self.cells@),
                forall|e: int| 1 <= e < i && e != d ==> !on_at(self.cells@, lc, e),
                all_pos(old(self).cells@) ==> all_pos(self.cells@),
                all_pos(old(self).cells@) ==> (forall|u: int, e: int|
                    0 <= u < 27 && 1 <= e <= 9 && unit_has(old(self).cells@, u, e) ==> unit_has(
                        self.cells@,
                        u,
                        e,
                    )),
                all_pos(old(self).cells@) ==> rule1_sound(old(self).cells@, self.cells@),
                all_pos(old(self).cells@) ==> rule2_sound(old(self).cells@, self.cells@),
                forall|sol: Seq<u8>|
                    (#[trigger] full_solution(sol)) && compat(old(self).cells@, sol) && sval(
                        sol,
                        lc,
                    ) == d as int ==> compat(self.cells@, sol),
            decreases 10 - i,
        {
            if i != d {
                proof {
                    lemma_total_on_narrows(old(self).cells@, self.cells@);
                }
                let ghost pre = self.cells@;
                proof {
                    assert(forall|e: int| 1 <= e < i && e != d ==> !on_at(pre, lc, e));
                }
                if !self.eliminate(row, col, i) {
                    proof {
                        assert forall|sol: Seq<u8>|
                            (#[trigger] full_solution(sol)) && compat(old(self).cells@, sol)
                                && sval(sol, lc) == d as int implies false by {
                            assert(compat(pre, sol));
                            assert(sval(sol, lc) != i as int);
                        }
                    }
                    return false;
                }
                proof {
                    lemma_narrows_trans(old(self).cells@, pre, self.cells@);
                    assert forall|e: int| 1 <= e < i + 1 && e != d implies !on_at(
                        self.cells@,
                        lc,
                        e,
                    ) by {
                        if e < i {
                            assert(!on_at(pre, lc, e));
                            lemma_narrows_off(pre, self.cells@, loc_idx(lc), e - 1);
                        }
                    }
                    assert forall|u: int, e: int|
                        all_pos(old(self).cells@) && 0 <= u < 27 && 1 <= e <= 9 && unit_has(
                            old(self).cells@,
                            u,
                            e,
                        ) implies unit_has(self.cells@, u, e) by {
                        assert(unit_has(pre, u, e));
                    }
                    if all_pos(old(self).cells@) {
                        lemma_rule1_compose(old(self).cells@, pre, self.cells@);
                        lemma_rule2_compose(old(self).cells@, pre, self.cells@);
                    }
                    assert forall|sol: Seq<u8>|
                        (#[trigger] full_solution(sol)) && compat(old(self).cells@, sol) && sval(
                            sol,
                            lc,
                        ) == d as int implies compat(self.cells@, sol) by {
                        assert(compat(pre, sol));
                        assert(sval(sol, lc) != i as int);
                    }
                }
            }
            i = i + 1;
        }
        proof {
            if all_pos(old(self).cells@) {
                let cell = self.cells@[loc_idx(lc)];
                lemma_count_true_all_false(cell@);
                let j = choose|j: int| 0 <= j < 9 && cell@[j];
                assert(on_at(self.cells@, lc, j + 1));
                assert(j + 1 == d as int);
                assert(solved_to(self.cells@, lc, d as int));
            }
        }
        true
    }

    /// Remove digit `d` as a candidate at `(row, col)` and propagate every
    /// forced consequence.  Returns `false` when propagation runs into a
    /// contradiction; flags are only ever cleared, never restored, so a
    /// failed call leaves a grid that the caller must discard.
    ///
    /// If `d` was already eliminated here, the call is a no-op that
    /// succeeds, which is what makes elimination idempotent.
    ///
    /// Propagation is sound and complete in this sense: every complete
    /// valid solution compatible with the current candidates that avoids
    /// `d` at `(row, col)` stays compatible, and while one exists the call
    /// cannot fail.
    #[verifier::loop_isolation(false)]
    #[verifier::rlimit(100)]
    pub fn eliminate(&mut self, row: usize, col: usize, d: u8) -> (r: bool)
        requires
            old(self).wf(),
            row < 9,
            col < 9,
            1 <= d <= 9,
        ensures
            final(self).wf(),
            final(self).units == old(self).units,
            final(self).peers == old(self).peers,
            narrows(old(self).cells@, final(self).cells@),
            !on_at(final(self).cells@, loc_at(row as int, col as int), d as int),
            !on_at(old(self).cells@, loc_at(row as int, col as int), d as int) ==> r && *final(self)
                == *old(self),
            (r && all_pos(old(self).cells@)) ==> all_pos(final(self).cells@),
            (r && all_pos(old(self).cells@)) ==> (forall|u: int, e: int|
                0 <= u < 27 && 1 <= e <= 9 && unit_has(old(self).cells@, u, e) ==> unit_has(
                    final(self).cells@,
                    u,
                    e,
                )),
            (r && all_pos(old(self).cells@)) ==> rule1_sound(
                old(self).cells@,
                final(self).cells@,
            ),
            (r && all_pos(old(self).cells@)) ==> rule2_sound(
                old(self).cells@,
                final(self).cells@,
            ),
            forall|sol: Seq<u8>|
                (#[trigger] full_solution(sol)) && compat(old(self).cells@, sol) && sval(
                    sol,
                    loc_at(row as int, col as int),
                ) != d as int ==> r && compat(final(self).cells@, sol),
            (r && on_at(old(self).cells@, loc_at(row as int, col as int), d as int) && count_true(
                old(self).cells@[loc_idx(loc_at(row as int, col as int))]@,
            ) == 2) ==> (forall|e: int, q: Loc|
                1 <= e <= 9 && e != d && on_at(old(self).cells@, loc_at(row as int, col as int), e)
                    && is_peer(loc_at(row as int, col as int), q) ==> !on_at(
                    final(self).cells@,
                    q,
                    e,
                )),
        decreases total_on(old(self).cells@), 0nat,
    {
        let ghost lc = loc_at(row as int, col as int);
        let idx = row * 9 + col;
        proof {
            lemma_rc_idx(row as int, col as int);
        }
        if !self.cells[idx].is_on(d) {
            return true;
        }
        let mut p = self.cells[idx];
        p.eliminate(d);
        proof {
            lemma_count_true_update(old(self).cells@[idx as int]@, d - 1, false);
            lemma_total_on_update(old(self).cells@, idx as int, p);
        }
        self.cells[idx] = p;
        let ghost s1 = self.cells@;
        proof {
            assert(total_on(s1) + 1 == total_on(old(self).cells@));
            assert forall|i: int, j: int|
                0 <= i < 81 && 0 <= j < 9 && #[trigger] s1[i]@[j] implies old(
                self,
            ).cells@[i]@[j] by {}
            assert(narrows(old(self).cells@, s1));
            assert(loc_idx(lc) == idx as int);
            lemma_rule1_refl(s1);
            lemma_rule2_refl(s1);
            assert(forall|i: int| 0 <= i < 81 && i != loc_idx(lc) ==> s1[i] == old(self).cells@[i]);
            assert(forall|j: int|
                0 <= j < 9 && j != d - 1 ==> s1[loc_idx(lc)]@[j] == old(self).cells@[loc_idx(
                    lc,
                )]@[j]);
            assert forall|sol: Seq<u8>|
                (#[trigger] full_solution(sol)) && compat(old(self).cells@, sol) && sval(sol, lc)
                    != d as int implies compat(s1, sol) by {
                lemma_compat_after_clear(old(self).cells@, s1, lc, d as int, sol);
            }
        }
        let cnt = self.cells[idx].count();
        if cnt == 0 {
            proof {
                assert forall|sol: Seq<u8>|
                    (#[trigger] full_solution(sol)) && compat(old(self).cells@, sol) && sval(
                        sol,
                        lc,
                    ) != d as int implies false by {
                    assert(compat(s1, sol));
                    assert(on_at(s1, lc, sval(sol, lc)));
                    lemma_count_true_ge_one(s1[loc_idx(lc)]@, sval(sol, lc) - 1);
                }
            }
            return false;
        }
        proof {
            assert forall|i: int|
                0 <= i < 81 && all_pos(old(self).cells@) implies count_true(
                (#[trigger] self.cells@[i])@,
            ) >= 1 by {
                if i != idx as int {
                    assert(self.cells@[i] == old(self).cells@[i]);
                }
            }
        }
        let ghost mut ran: bool = false;
        let ghost mut gv: int = 0;
        if cnt == 1 {
            let pcell = self.cells[idx];
            let v = pcell.val();
            proof {
                ran = true;
                gv = v as int;
                assert(pcell == s1[loc_idx(lc)]);
                assert forall|d2: int|
                    #![trigger s1[loc_idx(lc)]@[d2 - 1]]
                    1 <= d2 <= 9 && s1[loc_idx(lc)]@[d2 - 1] implies d2 == gv by {
                    assert(pcell.spec_on(d2));
                }
                assert(1 <= gv <= 9 && s1[loc_idx(lc)]@[gv - 1]) by {
                    assert(pcell.spec_on(gv));
                }
            }
            let mut k: usize = 0;
            while k < 20
                invariant
                    k <= 20,
                    1 <= v <= 9,
                    self.wf(),
                    self.units == old(self).units,
                    self.peers == old(self).peers,
                    narrows(s1, self.cells@),
                    !on_at(self.cells@, lc, d as int),
                    all_pos(old(self).cells@) ==> all_pos(self.cells@),
                    all_pos(old(self).cells@) ==> (forall|u: int, e: int|
                        0 <= u < 27 && 1 <= e <= 9 && unit_has(s1, u, e) ==> unit_has(
                            self.cells@,
                            u,
                            e,
                        )),
                    all_pos(old(self).cells@) ==> rule1_sound(s1, self.cells@),
                    all_pos(old(self).cells@) ==> rule2_sound(s1, self.cells@),
                    forall|sol: Seq<u8>|
                        (#[trigger] full_solution(sol)) && compat(old(self).cells@, sol) && sval(
                            sol,
                            lc,
                        ) != d as int ==> compat(self.cells@, sol),
                    forall|k2: int|
                        0 <= k2 < k ==> !on_at(
                            self.cells@,
                            #[trigger] old(self).peers@[idx as int]@[k2],
                            v as int,
                        ),
                decreases 20 - k,
            {
                proof {
                    assert(peers_ok_at(old(self).peers@[idx as int]@, row as int, col as int));
                    assert(is_peer(lc, old(self).peers@[idx as int]@[k as int]));
                }
                let pl = self.peers[idx][k];
                proof {
                    lemma_total_on_narrows(s1, self.cells@);
                }
                let ghost pre = self.cells@;
                if !self.eliminate(pl.row, pl.col, v) {
                    proof {
                        lemma_narrows_trans(s1, pre, self.cells@);
                        lemma_narrows_trans(old(self).cells@, s1, self.cells@);
                        lemma_narrows_off(pre, self.cells@, loc_idx(lc), d - 1);
                        assert forall|sol: Seq<u8>|
                            (#[trigger] full_solution(sol)) && compat(old(self).cells@, sol)
                                && sval(sol, lc) != d as int implies false by {
                            assert(compat(pre, sol));
                            assert(compat(s1, sol));
                            assert(on_at(s1, lc, sval(sol, lc)));
                            assert(s1[loc_idx(lc)]@[sval(sol, lc) - 1]);
                            assert(sval(sol, lc) == gv);
                            assert(is_peer(lc, old(self).peers@[idx as int]@[k as int]));
                            assert(loc_at(pl.row as int, pl.col as int) == old(
                                self,
                            ).peers@[idx as int]@[k as int]);
                            assert(sval(sol, loc_at(pl.row as int, pl.col as int)) != v as int);
                        }
                    }
                    return false;
                }
                proof {
                    lemma_narrows_trans(s1, pre, self.cells@);
                    lemma_narrows_off(pre, self.cells@, loc_idx(lc), d - 1);
                    assert forall|u: int, e: int|
                        all_pos(old(self).cells@) && 0 <= u < 27 && 1 <= e <= 9 && unit_has(
                            s1,
                            u,
                            e,
                        ) implies unit_has(self.cells@, u, e) by {
                        assert(unit_has(pre, u, e));
                    }
                    if all_pos(old(self).cells@) {
                        lemma_rule1_compose(s1, pre, self.cells@);
                        lemma_rule2_compose(s1, pre, self.cells@);
                    }
                    assert forall|sol: Seq<u8>|
                        (#[trigger] full_solution(sol)) && compat(old(self).cells@, sol) && sval(
                            sol,
                            lc,
                        ) != d as int implies compat(self.cells@, sol) by {
                        assert(compat(pre, sol));
                        assert(compat(s1, sol));
                        assert(on_at(s1, lc, sval(sol, lc)));
                        assert(s1[loc_idx(lc)]@[sval(sol, lc) - 1]);
                        assert(sval(sol, lc) == gv);
                        assert(is_peer(lc, old(self).peers@[idx as int]@[k as int]));
                        assert(loc_at(pl.row as int, pl.col as int) == old(
                            self,
                        ).peers@[idx as int]@[k as int]);
                        assert(sval(sol, loc_at(pl.row as int, pl.col as int)) != v as int);
                    }
                    assert(loc_at(pl.row as int, pl.col as int) == old(
                        self,
                    ).peers@[idx as int]@[k as int]);
                    assert forall|k2: int|
                        0 <= k2 < k + 1 implies !on_at(
                        self.cells@,
                        #[trigger] old(self).peers@[idx as int]@[k2],
                        v as int,
                    ) by {
                        let q = old(self).peers@[idx as int]@[k2];
                        if k2 < k {
                            assert(is_peer(lc, q));
                            lemma_narrows_off(pre, self.cells@, loc_idx(q), v - 1);
                        }
                    }
                }
                k = k + 1;
            }
            proof {
                assert(peers_ok_at(old(self).peers@[idx as int]@, row as int, col as int));
                assert forall|q: Loc| is_peer(lc, q) implies !on_at(self.cells@, q, gv) by {
                    let plist = old(self).peers@[idx as int]@;
                    assert(plist.contains(q));
                    let k2 = choose|k2: int| 0 <= k2 < plist.len() && plist[k2] == q;
                    assert(!on_at(self.cells@, plist[k2], gv));
                }
            }
        }
        let ghost s2 = self.cells@;
        proof {
            assert(ran ==> forall|q: Loc| is_peer(lc, q) ==> !on_at(s2, q, gv));
            lemma_narrows_trans(old(self).cells@, s1, s2);
        }
        let mut uu: usize = 0;
        while uu < 3
            invariant
                uu <= 3,
                self.wf(),
                self.units == old(self).units,
                self.peers == old(self).peers,
                narrows(s2, self.cells@),
                narrows(s1, self.cells@),
                narrows(old(self).cells@, self.cells@),
                !on_at(self.cells@, lc, d as int),
                all_pos(old(self).cells@) ==> all_pos(self.cells@),
                all_pos(old(self).cells@) ==> (forall|u: int, e: int|
                    0 <= u < 27 && 1 <= e <= 9 && unit_has(s1, u, e) ==> unit_has(
                        self.cells@,
                        u,
                        e,
                    )),
                all_pos(old(self).cells@) ==> (forall|g: int|
                    0 <= g < uu ==> unit_has(
                        self.cells@,
                        #[trigger] unit_index(row as int, col as int, g),
                        d as int,
                    )),
                all_pos(old(self).cells@) ==> rule1_sound(s1, self.cells@),
                all_pos(old(self).cells@) ==> rule2_sound(s1, self.cells@),
                all_pos(old(self).cells@) ==> (forall|g: int|
                    0 <= g < uu ==> placed_or_open(
                        self.cells@,
                        #[trigger] unit_index(row as int, col as int, g),
                        d as int,
                    )),
                forall|sol: Seq<u8>|
                    (#[trigger] full_solution(sol)) && compat(old(self).cells@, sol) && sval(
                        sol,
                        lc,
                    ) != d as int ==> compat(self.cells@, sol),
            decreases 3 - uu,
        {
            proof {
                assert(units_ok_at(old(self).units@[idx as int], row as int, col as int));
            }
            let mut places: usize = 0;
            let mut last_r: usize = 0;
            let mut last_c: usize = 0;
            let mut k: usize = 0;
            let ghost ulist = old(self).units@[idx as int]@[uu as int]@;
            let ghost mut kw: int = 0;
            let ghost mut klast: int = 0;
            while k < 9
                invariant
                    k <= 9,
                    uu < 3,
                    places <= k,
                    places >= 1 ==> last_r < 9 && last_c < 9 && on_at(
                        self.cells@,
                        loc_at(last_r as int, last_c as int),
                        d as int,
                    ) && in_unit(
                        loc_at(last_r as int, last_c as int),
                        unit_index(row as int, col as int, uu as int),
                    ),
                    places >= 1 ==> 0 <= kw < k && on_at(self.cells@, ulist[kw], d as int)
                        && in_unit(ulist[kw], unit_index(row as int, col as int, uu as int)),
                    places >= 1 ==> 0 <= klast < k && ulist[klast] == loc_at(
                        last_r as int,
                        last_c as int,
                    ),
                    places >= 2 ==> kw < klast,
                    places == 0 ==> (forall|k2: int|
                        0 <= k2 < k ==> !on_at(self.cells@, #[trigger] ulist[k2], d as int)),
                    places == 1 ==> (forall|k2: int|
                        0 <= k2 < k && #[trigger] ulist[k2] != loc_at(
                            last_r as int,
                            last_c as int,
                        ) ==> !on_at(self.cells@, ulist[k2], d as int)),
                decreases 9 - k,
            {
                let x = self.units[idx][uu][k];
                proof {
                    assert(units_ok_at(old(self).units@[idx as int], row as int, col as int));
                    assert(valid_loc(x)) by {
                        if uu == 0 {
                            assert(x == loc_at(row as int, k as int));
                        } else if uu == 1 {
                            assert(x == loc_at(k as int, col as int));
                        } else {
                            assert(x == loc_at(
                                (row as int / 3) * 3 + k as int / 3,
                                (col as int / 3) * 3 + k as int % 3,
                            ));
                        }
                    }
                }
                if self.cells[x.row * 9 + x.col].is_on(d) {
                    proof {
                        if places == 0 {
                            kw = k as int;
                        }
                        klast = k as int;
                        assert(ulist[k as int] == x);
                    }
                    places = places + 1;
                    last_r = x.row;
                    last_c = x.col;
                    proof {
                        assert(loc_at(x.row as int, x.col as int) == x);
                        assert(on_at(self.cells@, x, d as int));
                        assert(in_unit(x, unit_index(row as int, col as int, uu as int))) by {
                            if uu == 0 {
                                assert(x == loc_at(row as int, k as int));
                            } else if uu == 1 {
                                assert(x == loc_at(k as int, col as int));
                            } else {
                                assert(x == loc_at(
                                    (row as int / 3) * 3 + k as int / 3,
                                    (col as int / 3) * 3 + k as int % 3,
                                ));
                                assert(x.row as int / 3 == row as int / 3);
                                assert(x.col as int / 3 == col as int / 3);
                            }
                        }
                    }
                } else {
                    proof {
                        assert(ulist[k as int] == x);
                        assert(!on_at(self.cells@, x, d as int));
                    }
                }
                k = k + 1;
            }
            if places == 0 {
                proof {
                    assert forall|sol: Seq<u8>|
                        (#[trigger] full_solution(sol)) && compat(old(self).cells@, sol) && sval(
                            sol,
                            lc,
                        ) != d as int implies false by {
                        assert(compat(self.cells@, sol));
                        lemma_solution_place_in_unit(
                            self.cells@,
                            sol,
                            old(self).units@[idx as int],
                            row as int,
                            col as int,
                            uu as int,
                            d as int,
                        );
                        let k0 = choose|k0: int|
                            0 <= k0 < 9 && on_at(
                                self.cells@,
                                #[trigger] old(self).units@[idx as int]@[uu as int]@[k0],
                                d as int,
                            ) && sval(sol, old(self).units@[idx as int]@[uu as int]@[k0]) == d;
                        assert(!on_at(self.cells@, ulist[k0], d as int));
                    }
                }
                return false;
            }
            if places == 1 {
                proof {
                    lemma_total_on_narrows(s1, self.cells@);
                }
                let ghost pre = self.cells@;
                proof {
                    assert forall|sol: Seq<u8>|
                        (#[trigger] full_solution(sol)) && compat(old(self).cells@, sol) && sval(
                            sol,
                            lc,
                        ) != d as int implies sval(sol, loc_at(last_r as int, last_c as int))
                        == d as int by {
                        assert(compat(pre, sol));
                        lemma_solution_place_in_unit(
                            pre,
                            sol,
                            old(self).units@[idx as int],
                            row as int,
                            col as int,
                            uu as int,
                            d as int,
                        );
                        let k0 = choose|k0: int|
                            0 <= k0 < 9 && on_at(
                                pre,
                                #[trigger] old(self).units@[idx as int]@[uu as int]@[k0],
                                d as int,
                            ) && sval(sol, old(self).units@[idx as int]@[uu as int]@[k0]) == d;
                        if ulist[k0] != loc_at(last_r as int, last_c as int) {
                            assert(!on_at(self.cells@, ulist[k0], d as int));
                        }
                    }
                }
                if !self.assign(last_r, last_c, d) {
                    proof {
                        lemma_narrows_trans(s1, pre, self.cells@);
                        lemma_narrows_trans(old(self).cells@, s1, self.cells@);
                        lemma_narrows_off(pre, self.cells@, loc_idx(lc), d - 1);
                        assert forall|sol: Seq<u8>|
                            (#[trigger] full_solution(sol)) && compat(old(self).cells@, sol)
                                && sval(sol, lc) != d as int implies false by {
                            assert(compat(pre, sol));
                            assert(sval(sol, loc_at(last_r as int, last_c as int)) == d as int);
                        }
                    }
                    return false;
                }
                proof {
                    lemma_narrows_trans(s2, pre, self.cells@);
                    lemma_narrows_trans(s1, pre, self.cells@);
                    lemma_narrows_trans(old(self).cells@, s1, self.cells@);
                    lemma_narrows_off(pre, self.cells@, loc_idx(lc), d - 1);
                    assert forall|sol: Seq<u8>|
                        (#[trigger] full_solution(sol)) && compat(old(self).cells@, sol) && sval(
                            sol,
                            lc,
                        ) != d as int implies compat(self.cells@, sol) by {
                        assert(compat(pre, sol));
                        assert(sval(sol, loc_at(last_r as int, last_c as int)) == d as int);
                    }
                    assert forall|u: int, e: int|
                        all_pos(old(self).cells@) && 0 <= u < 27 && 1 <= e <= 9 && unit_has(
                            s1,
                            u,
                            e,
                        ) implies unit_has(self.cells@, u, e) by {
                        assert(unit_has(pre, u, e));
                    }
                    assert forall|g: int|
                        all_pos(old(self).cells@) && 0 <= g < uu implies unit_has(
                        self.cells@,
                        #[trigger] unit_index(row as int, col as int, g),
                        d as int,
                    ) by {
                        assert(unit_has(pre, unit_index(row as int, col as int, g), d as int));
                    }
                    if all_pos(old(self).cells@) {
                        lemma_rule1_compose(s1, pre, self.cells@);
                        lemma_rule2_compose(s1, pre, self.cells@);
                        assert forall|g: int| 0 <= g < uu implies placed_or_open(
                            self.cells@,
                            #[trigger] unit_index(row as int, col as int, g),
                            d as int,
                        ) by {
                            assert(placed_or_open(pre, unit_index(row as int, col as int, g), d as int));
                            if unit_has(pre, unit_index(row as int, col as int, g), d as int) {
                                assert(unit_has(
                                    self.cells@,
                                    unit_index(row as int, col as int, g),
                                    d as int,
                                ));
                            }
                            lemma_pom_step(
                                pre,
                                self.cells@,
                                unit_index(row as int, col as int, g),
                                d as int,
                            );
                        }
                        let xx = loc_at(last_r as int, last_c as int);
                        assert(solved_to(self.cells@, xx, d as int));
                        assert(on_at(self.cells@, xx, d as int));
                        assert(count_true(self.cells@[loc_idx(xx)]@) == 1) by {
                            assert forall|j: int|
                                0 <= j < 9 && j != d - 1 implies !self.cells@[loc_idx(
                                xx,
                            )]@[j] by {
                                assert(!on_at(self.cells@, xx, j + 1));
                            }
                            lemma_count_true_single(self.cells@[loc_idx(xx)]@, d - 1);
                        }
                        assert(placed_or_open(
                            self.cells@,
                            unit_index(row as int, col as int, uu as int),
                            d as int,
                        ));
                    }
                }
            }
            proof {
                if all_pos(old(self).cells@) {
                    assert(unit_has(
                        self.cells@,
                        unit_index(row as int, col as int, uu as int),
                        d as int,
                    )) by {
                        assert(on_at(self.cells@, loc_at(last_r as int, last_c as int), d as int));
                        assert(in_unit(
                            loc_at(last_r as int, last_c as int),
                            unit_index(row as int, col as int, uu as int),
                        ));
                    }
                    if places >= 2 {
                        lemma_unit_list_distinct(
                            old(self).units@[idx as int],
                            row as int,
                            col as int,
                            uu as int,
                            kw,
                            klast,
                        );
                        assert(ulist[kw] != ulist[klast]);
                        assert(on_at(self.cells@, ulist[kw], d as int));
                        assert(ulist[klast] == loc_at(last_r as int, last_c as int));
                        assert(on_at(self.cells@, ulist[klast], d as int));
                        assert(in_unit(
                            ulist[klast],
                            unit_index(row as int, col as int, uu as int),
                        ));
                        assert(placed_or_open(
                            self.cells@,
                            unit_index(row as int, col as int, uu as int),
                            d as int,
                        ));
                    }
                }
            }
            uu = uu + 1;
        }
        proof {
            if all_pos(old(self).cells@) {
                assert(ran <==> count_true(s1[loc_idx(lc)]@) == 1);
                assert(count_true(s1[loc_idx(lc)]@) + 1 == count_true(old(self).cells@[loc_idx(
                    lc,
                )]@));
                lemma_units_live_frame(
                    old(self).cells@,
                    s1,
                    self.cells@,
                    lc,
                    d as int,
                    row as int,
                    col as int,
                );
                lemma_rule1_frame(
                    old(self).cells@,
                    s1,
                    s2,
                    self.cells@,
                    lc,
                    d as int,
                    ran,
                    gv,
                );
                lemma_rule2_frame(
                    old(self).cells@,
                    s1,
                    self.cells@,
                    lc,
                    d as int,
                    row as int,
                    col as int,
                );
            }
            if ran {
                assert forall|e: int, q: Loc|
                    1 <= e <= 9 && e != d && on_at(old(self).cells@, lc, e) && is_peer(lc, q)
                        && e == gv implies !on_at(self.cells@, q, e) by {
                    assert(!on_at(s2, q, gv));
                    lemma_narrows_off(s2, self.cells@, loc_idx(q), gv - 1);
                }
            }
            if on_at(old(self).cells@, lc, d as int) && count_true(old(self).cells@[loc_idx(lc)]@)
                == 2 {
                assert(count_true(s1[loc_idx(lc)]@) == 1);
                assert(ran);
                assert forall|e: int, q: Loc|
                    1 <= e <= 9 && e != d && on_at(old(self).cells@, lc, e) && is_peer(
                        lc,
                        q,
                    ) implies !on_at(self.cells@, q, e) by {
                    assert(s1[loc_idx(lc)]@[e - 1]);
                    assert(e == gv);
                    assert(!on_at(s2, q, gv));
                    lemma_narrows_off(s2, self.cells@, loc_idx(q), gv - 1);
                }
            }
        }
        true
    }
}

} // verus!

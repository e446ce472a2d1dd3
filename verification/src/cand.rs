//! Per-cell candidate sets: nine flags, one per digit 1..=9.

use vstd::prelude::*;

verus! {

/// Number of `true` entries in a sequence of flags.
pub open spec fn count_true(s: Seq<bool>) -> nat
    decreases s.len(),
{
    if s.len() == 0 {
        0
    } else {
        count_true(s.drop_last()) + (if s.last() {
            1nat
        } else {
            0nat
        })
    }
}

pub proof fn lemma_count_true_le_len(s: Seq<bool>)
    ensures
        count_true(s) <= s.len(),
    decreases s.len(),
{
    if s.len() > 0 {
        lemma_count_true_le_len(s.drop_last());
    }
}

pub proof fn lemma_count_true_full(s: Seq<bool>)
    requires
        count_true(s) == s.len(),
    ensures
        forall|j: int| 0 <= j < s.len() ==> s[j],
    decreases s.len(),
{
    if s.len() > 0 {
        lemma_count_true_le_len(s.drop_last());
        assert(s.last());
        lemma_count_true_full(s.drop_last());
        assert(forall|j: int| 0 <= j < s.len() - 1 ==> s[j] == s.drop_last()[j]);
    }
}

pub proof fn lemma_count_true_take_step(s: Seq<bool>, k: int)
    requires
        0 <= k < s.len(),
    ensures
        count_true(s.take(k + 1)) == count_true(s.take(k)) + (if s[k] {
            1nat
        } else {
            0nat
        }),
{
    assert(s.take(k + 1).drop_last() =~= s.take(k));
    assert(s.take(k + 1).last() == s[k]);
}

pub proof fn lemma_count_true_update(s: Seq<bool>, i: int, v: bool)
    requires
        0 <= i < s.len(),
    ensures
        count_true(s.update(i, v)) == count_true(s) - (if s[i] {
            1nat
        } else {
            0nat
        }) + (if v {
            1nat
        } else {
            0nat
        }),
    decreases s.len(),
{
    let t = s.update(i, v);
    if i == s.len() - 1 {
        assert(t.drop_last() =~= s.drop_last());
        assert(t.last() == v);
    } else {
        assert(t.drop_last() =~= s.drop_last().update(i, v));
        assert(t.last() == s.last());
        lemma_count_true_update(s.drop_last(), i, v);
    }
}

pub proof fn lemma_count_true_all_false(s: Seq<bool>)
    ensures
        (count_true(s) == 0) <==> (forall|i: int| 0 <= i < s.len() ==> !s[i]),
    decreases s.len(),
{
    if s.len() > 0 {
        lemma_count_true_all_false(s.drop_last());
        assert(forall|i: int| 0 <= i < s.len() - 1 ==> s.drop_last()[i] == s[i]);
        if count_true(s) == 0 {
            assert(!s.last());
            assert(forall|i: int| 0 <= i < s.len() ==> !s[i]) by {
                assert(forall|i: int| 0 <= i < s.len() - 1 ==> !s.drop_last()[i]);
            }
        }
    }
}

pub proof fn lemma_count_true_all_true(s: Seq<bool>)
    requires
        forall|i: int| 0 <= i < s.len() ==> s[i],
    ensures
        count_true(s) == s.len(),
    decreases s.len(),
{
    if s.len() > 0 {
        lemma_count_true_all_true(s.drop_last());
    }
}

pub proof fn lemma_count_true_single(s: Seq<bool>, i: int)
    requires
        0 <= i < s.len(),
        s[i],
        forall|j: int| 0 <= j < s.len() && j != i ==> !s[j],
    ensures
        count_true(s) == 1,
    decreases s.len(),
{
    if i == s.len() - 1 {
        lemma_count_true_all_false(s.drop_last());
        assert(forall|j: int| 0 <= j < s.len() - 1 ==> !s.drop_last()[j]);
    } else {
        assert(!s.last());
        assert(forall|j: int| 0 <= j < s.len() - 1 && j != i ==> !s.drop_last()[j]);
        lemma_count_true_single(s.drop_last(), i);
    }
}

pub proof fn lemma_count_true_ge_one(s: Seq<bool>, i: int)
    requires
        0 <= i < s.len(),
        s[i],
    ensures
        count_true(s) >= 1,
    decreases s.len(),
{
    if i == s.len() - 1 {
    } else {
        lemma_count_true_ge_one(s.drop_last(), i);
    }
}

pub proof fn lemma_count_true_ge_two(s: Seq<bool>, i: int, j: int)
    requires
        0 <= i < j < s.len(),
        s[i],
        s[j],
    ensures
        count_true(s) >= 2,
    decreases s.len(),
{
    if j == s.len() - 1 {
        lemma_count_true_ge_one(s.drop_last(), i);
    } else {
        lemma_count_true_ge_two(s.drop_last(), i, j);
    }
}

pub proof fn lemma_count_true_unique(s: Seq<bool>, i: int, j: int)
    requires
        count_true(s) == 1,
        0 <= i < s.len(),
        0 <= j < s.len(),
        s[i],
        s[j],
    ensures
        i == j,
{
    if i < j {
        lemma_count_true_ge_two(s, i, j);
    } else if j < i {
        lemma_count_true_ge_two(s, j, i);
    }
}

pub proof fn lemma_count_true_mono(a: Seq<bool>, b: Seq<bool>)
    requires
        a.len() == b.len(),
        forall|i: int| 0 <= i < b.len() && #[trigger] b[i] ==> a[i],
    ensures
        count_true(b) <= count_true(a),
    decreases a.len(),
{
    if a.len() > 0 {
        assert(forall|i: int|
            0 <= i < b.drop_last().len() && #[trigger] b.drop_last()[i] ==> a.drop_last()[i]);
        lemma_count_true_mono(a.drop_last(), b.drop_last());
    }
}

/// The set of digits 1..=9 still considered possible for one cell.
/// Flag `b[d - 1]` means "digit `d` is still a candidate".
#[derive(Clone, Copy, Debug)]
pub struct Possible {
    pub b: [bool; 9],
}

impl View for Possible {
    type V = Seq<bool>;

    open spec fn view(&self) -> Seq<bool> {
        self.b@
    }
}

impl Possible {
    /// Digit `d` is still a candidate (spec view; `d` is 1-based).
    pub open spec fn spec_on(self, d: int) -> bool {
        self@[d - 1]
    }

    /// Number of candidates left.
    pub open spec fn spec_count(self) -> nat {
        count_true(self@)
    }

    /// A fully open cell: every digit 1..=9 possible.
    pub fn new() -> (r: Possible)
        ensures
            r@.len() == 9,
            forall|j: int| 0 <= j < 9 ==> r@[j],
            forall|d: int| 1 <= d <= 9 ==> r.spec_on(d),
            r.spec_count() == 9,
    {
        let r = Possible { b: [true; 9] };
        proof {
            lemma_count_true_all_true(r@);
        }
        r
    }

    /// Whether digit `i` (1..=9) is still a candidate.
    pub fn is_on(&self, i: u8) -> (r: bool)
        requires
            1 <= i <= 9,
        ensures
            r == self.spec_on(i as int),
    {
        self.b[(i - 1) as usize]
    }

    /// How many digits are still possible: 0 signals a contradiction,
    /// 1 a solved cell, more an undetermined cell.
    pub fn count(&self) -> (r: u8)
        ensures
            r as nat == self.spec_count(),
    {
        let mut n: u8 = 0;
        let mut k: usize = 0;
        while k < 9
            invariant
                k <= 9,
                n <= k,
                n as nat == count_true(self@.take(k as int)),
            decreases 9 - k,
        {
            proof {
                lemma_count_true_take_step(self@, k as int);
            }
            if self.b[k] {
                n = n + 1;
            }
            k = k + 1;
        }
        proof {
            assert(self@.take(9) =~= self@);
        }
        n
    }

    /// Drop digit `i` (1..=9) from the candidates.  Clearing a flag that is
    /// already clear is a no-op.
    pub fn eliminate(&mut self, i: u8)
        requires
            1 <= i <= 9,
        ensures
            final(self)@ == old(self)@.update(i - 1, false),
    {
        self.b[(i - 1) as usize] = false;
    }

    /// The single remaining digit of a solved cell.
    pub fn val(&self) -> (r: u8)
        requires
            self.spec_count() == 1,
        ensures
            1 <= r <= 9,
            self.spec_on(r as int),
            forall|d: int| 1 <= d <= 9 && self.spec_on(d) ==> d == r as int,
    {
        let mut k: usize = 0;
        while k < 9
            invariant
                k <= 9,
                self.spec_count() == 1,
                forall|j: int| 0 <= j < k ==> !self@[j],
            decreases 9 - k,
        {
            if self.b[k] {
                proof {
                    assert forall|d: int| 1 <= d <= 9 && self.spec_on(d) implies d == k + 1 by {
                        lemma_count_true_unique(self@, k as int, d - 1);
                    }
                }
                return (k as u8) + 1;
            }
            k = k + 1;
        }
        proof {
            lemma_count_true_all_false(self@);
        }
        vstd::pervasive::unreached()
    }
}

} // verus!

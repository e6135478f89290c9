//! Per-letter statistics.
//!
//! For every letter the engine expects, the session records a confusion
//! distribution: how often each actually pressed character was typed while
//! that letter was expected.  Distributions are kept as vectors of
//! `(character, count)` pairs with pairwise distinct keys, so enumeration
//! order is deterministic.

use vstd::prelude::*;

verus! {

// ---------------------------------------------------------------------------
// Keyed sequences: specification toolkit.
// ---------------------------------------------------------------------------
/// Index of the first pair with key `c`, or `-1` when there is none.
pub open spec fn find_idx<T>(s: Seq<(char, T)>, c: char) -> int
    decreases s.len(),
{
    if s.len() == 0 {
        -1
    } else if s[0].0 == c {
        0
    } else {
        let r = find_idx(s.drop_first(), c);
        if r == -1 {
            -1
        } else {
            r + 1
        }
    }
}

/// All keys of the sequence are pairwise distinct.
pub open spec fn keys_unique<T>(s: Seq<(char, T)>) -> bool {
    forall|i: int, j: int| 0 <= i < j < s.len() ==> (#[trigger] s[i]).0 != (#[trigger] s[j]).0
}

/// The count recorded under key `c`, zero when the key is absent.
pub open spec fn count_of(d: Seq<(char, u64)>, c: char) -> int {
    if find_idx(d, c) == -1 {
        0
    } else {
        d[find_idx(d, c)].1 as int
    }
}

/// Sum of all counts in the distribution.
pub open spec fn dist_sum(d: Seq<(char, u64)>) -> int
    decreases d.len(),
{
    if d.len() == 0 {
        0
    } else {
        d[0].1 + dist_sum(d.drop_first())
    }
}

/// Every count in the distribution is at least one.
pub open spec fn counts_positive(d: Seq<(char, u64)>) -> bool {
    forall|k: int| 0 <= k < d.len() ==> (#[trigger] d[k]).1 >= 1
}

/// A well-formed confusion distribution: distinct keys, no zero counts.
pub open spec fn dist_wf(d: Seq<(char, u64)>) -> bool {
    keys_unique(d) && counts_positive(d)
}

/// Add `n` presses of character `c` to the distribution.
pub open spec fn add_count(d: Seq<(char, u64)>, c: char, n: u64) -> Seq<(char, u64)> {
    let i = find_idx(d, c);
    if i == -1 {
        d.push((c, n))
    } else {
        d.update(i, (c, (d[i].1 + n) as u64))
    }
}

/// `find_idx` finds the first occurrence of a key, and `-1` means absence.
pub proof fn lemma_find_idx<T>(s: Seq<(char, T)>, c: char)
    ensures
        find_idx(s, c) == -1 ==> forall|k: int| 0 <= k < s.len() ==> (#[trigger] s[k]).0 != c,
        find_idx(s, c) != -1 ==> 0 <= find_idx(s, c) < s.len() && s[find_idx(s, c)].0 == c && (
        forall|k: int| 0 <= k < find_idx(s, c) ==> (#[trigger] s[k]).0 != c),
    decreases s.len(),
{
    if s.len() > 0 && s[0].0 != c {
        let t = s.drop_first();
        lemma_find_idx(t, c);
        if find_idx(s, c) == -1 {
            assert forall|k: int| 0 <= k < s.len() implies (#[trigger] s[k]).0 != c by {
                if k > 0 {
                    assert(t[k - 1] == s[k]);
                }
            }
        } else {
            assert forall|k: int| 0 <= k < find_idx(s, c) implies (#[trigger] s[k]).0 != c by {
                if k > 0 {
                    assert(t[k - 1] == s[k]);
                }
            }
        }
    }
}

/// A position that holds `c` with no earlier occurrence is what `find_idx`
/// returns.
pub proof fn lemma_find_idx_at<T>(s: Seq<(char, T)>, c: char, i: int)
    requires
        0 <= i < s.len(),
        s[i].0 == c,
        forall|k: int| 0 <= k < i ==> (#[trigger] s[k]).0 != c,
    ensures
        find_idx(s, c) == i,
    decreases s.len(),
{
    if i > 0 {
        lemma_find_idx_at(s.drop_first(), c, i - 1);
    }
}

/// Appending a pair adds its count to the sum.
pub proof fn lemma_dist_sum_push(d: Seq<(char, u64)>, p: (char, u64))
    ensures
        dist_sum(d.push(p)) == dist_sum(d) + p.1,
    decreases d.len(),
{
    if d.len() == 0 {
        assert(d.push(p).drop_first() =~= Seq::<(char, u64)>::empty());
        assert(dist_sum(Seq::<(char, u64)>::empty()) == 0);
    } else {
        assert(d.push(p).drop_first() =~= d.drop_first().push(p));
        lemma_dist_sum_push(d.drop_first(), p);
    }
}

/// Replacing a pair changes the sum by the difference of the counts.
pub proof fn lemma_dist_sum_update(d: Seq<(char, u64)>, i: int, p: (char, u64))
    requires
        0 <= i < d.len(),
    ensures
        dist_sum(d.update(i, p)) == dist_sum(d) - d[i].1 + p.1,
    decreases d.len(),
{
    if i == 0 {
        assert(d.update(0, p).drop_first() =~= d.drop_first());
    } else {
        assert(d.update(i, p).drop_first() =~= d.drop_first().update(i - 1, p));
        lemma_dist_sum_update(d.drop_first(), i - 1, p);
    }
}

/// In a distribution every count is bounded by the sum of all counts.
pub proof fn lemma_count_le_sum(d: Seq<(char, u64)>, i: int)
    requires
        0 <= i < d.len(),
    ensures
        d[i].1 <= dist_sum(d),
        dist_sum(d) >= 0,
    decreases d.len(),
{
    lemma_dist_sum_nonneg(d.drop_first());
    if i > 0 {
        lemma_count_le_sum(d.drop_first(), i - 1);
    }
}

/// Counts are unsigned, so their sum is never negative.
pub proof fn lemma_dist_sum_nonneg(d: Seq<(char, u64)>)
    ensures
        dist_sum(d) >= 0,
    decreases d.len(),
{
    if d.len() > 0 {
        lemma_dist_sum_nonneg(d.drop_first());
    }
}

/// What `add_count` does, pointwise: the chosen key gains `n`, all others
/// keep their count, well-formedness and the total are maintained.
pub proof fn lemma_add_count(d: Seq<(char, u64)>, c: char, n: u64)
    requires
        dist_wf(d),
        n >= 1,
        count_of(d, c) + n <= u64::MAX,
    ensures
        dist_wf(add_count(d, c, n)),
        count_of(add_count(d, c, n), c) == count_of(d, c) + n,
        forall|x: char| x != c ==> #[trigger] count_of(add_count(d, c, n), x) == count_of(d, x),
        dist_sum(add_count(d, c, n)) == dist_sum(d) + n,
        find_idx(add_count(d, c, n), c) != -1,
        forall|x: char| x != c ==> (#[trigger] find_idx(add_count(d, c, n), x) == -1 <==> find_idx(
            d,
            x,
        ) == -1),
{
    let i = find_idx(d, c);
    lemma_find_idx(d, c);
    let r = add_count(d, c, n);
    if i == -1 {
        lemma_dist_sum_push(d, (c, n));
        assert forall|x: char| true implies #[trigger] find_idx(r, x) == (if find_idx(d, x) == -1 {
            if x == c {
                d.len() as int
            } else {
                -1int
            }
        } else {
            find_idx(d, x)
        }) by {
            lemma_find_idx(d, x);
            if find_idx(d, x) == -1 {
                if x == c {
                    lemma_find_idx_at(r, x, d.len() as int);
                } else {
                    lemma_find_idx(r, x);
                    if find_idx(r, x) != -1 {
                        assert(r[find_idx(r, x)].0 == x);
                        assert(false);
                    }
                }
            } else {
                lemma_find_idx_at(r, x, find_idx(d, x));
            }
        }
        assert forall|x: char| x != c implies #[trigger] count_of(r, x) == count_of(d, x) by {
            assert(find_idx(r, x) == find_idx(d, x));
            if find_idx(d, x) != -1 {
                lemma_find_idx(d, x);
                assert(r[find_idx(d, x)] == d[find_idx(d, x)]);
            }
        }
        assert(count_of(r, c) == count_of(d, c) + n) by {
            assert(find_idx(r, c) == d.len() as int);
            assert(r[d.len() as int] == (c, n));
        }
        assert(dist_wf(r)) by {
            assert forall|p: int, q: int| 0 <= p < q < r.len() implies (#[trigger] r[p]).0 != (
            #[trigger] r[q]).0 by {
                if q == d.len() as int {
                    if r[p].0 == c {
                        lemma_find_idx(d, c);
                        lemma_find_idx_at(d, c, p);
                    }
                }
            }
        }
    } else {
        let upd = (c, (d[i].1 + n) as u64);
        lemma_dist_sum_update(d, i, upd);
        lemma_count_le_sum(d, i);
        assert forall|x: char| true implies #[trigger] find_idx(r, x) == find_idx(d, x) by {
            lemma_find_idx(d, x);
            if find_idx(d, x) == -1 {
                lemma_find_idx(r, x);
                if find_idx(r, x) != -1 {
                    assert(r[find_idx(r, x)].0 == x);
                    assert(d[find_idx(r, x)].0 == x || find_idx(r, x) == i);
                    assert(false);
                }
            } else {
                lemma_find_idx_at(r, x, find_idx(d, x));
            }
        }
        assert forall|x: char| x != c implies #[trigger] count_of(r, x) == count_of(d, x) by {
            assert(find_idx(r, x) == find_idx(d, x));
            if find_idx(d, x) != -1 {
                lemma_find_idx(d, x);
                assert(d[find_idx(d, x)].0 == x);
                assert(find_idx(d, x) != i);
                assert(r[find_idx(d, x)] == d[find_idx(d, x)]);
            }
        }
        assert(count_of(r, c) == count_of(d, c) + n) by {
            assert(find_idx(r, c) == i);
            assert(r[i] == upd);
        }
        assert(dist_wf(r)) by {
            assert(forall|k: int| 0 <= k < r.len() ==> (#[trigger] r[k]).0 == d[k].0);
        }
    }
}

// ---------------------------------------------------------------------------
// Rounded percentages.
// ---------------------------------------------------------------------------
/// `a / b` rounded to the nearest integer, halves rounded up.  Meaningful
/// for `a >= 0` and `b > 0`.
pub open spec fn round_div(a: int, b: int) -> int {
    (2 * a + b) / (2 * b)
}

/// Accuracy in tenths of a percent: the share of `count` in `presses`,
/// rounded to one decimal place of a percentage.  Zero presses count as
/// zero accuracy rather than a division by zero.
pub open spec fn perc_tenths(count: int, presses: int) -> int {
    if presses <= 0 {
        0
    } else {
        round_div(count * 1000, presses)
    }
}

/// A share of a whole, as a percentage, is between 0 and 100.
pub proof fn lemma_perc_tenths_bounds(count: int, presses: int)
    requires
        0 <= count <= presses,
    ensures
        0 <= perc_tenths(count, presses) <= 1000,
{
    if presses > 0 {
        let a = 2 * (count * 1000) + presses;
        let b = 2 * presses;
        vstd::arithmetic::div_mod::lemma_div_pos_is_pos(a, b);
        vstd::arithmetic::div_mod::lemma_div_is_ordered(a, 2001 * presses, b);
        vstd::arithmetic::div_mod::lemma_fundamental_div_mod_converse(
            2001 * presses,
            b,
            1000,
            presses,
        );
    }
}

/// Everything out of everything is a full score.
pub proof fn lemma_perc_tenths_full(n: int)
    requires
        n >= 1,
    ensures
        perc_tenths(n, n) == 1000,
{
    vstd::arithmetic::div_mod::lemma_fundamental_div_mod_converse(
        2 * (n * 1000) + n,
        2 * n,
        1000,
        n,
    );
}

/// Scaling numerator and denominator by the same factor leaves the rounded
/// percentage unchanged.
pub proof fn lemma_perc_tenths_scaled(count: int, presses: int, f: int)
    requires
        count >= 0,
        presses >= 1,
        f >= 1,
    ensures
        perc_tenths(f * count, f * presses) == perc_tenths(count, presses),
{
    let a = 2 * (count * 1000) + presses;
    let b = 2 * presses;
    vstd::arithmetic::div_mod::lemma_div_multiples_vanish_quotient(f, a, b);
    assert(f * (2 * (count * 1000) + presses) == 2 * ((f * count) * 1000) + f * presses)
        by (nonlinear_arith);
    assert(f * (2 * presses) == 2 * (f * presses)) by (nonlinear_arith);
}

// ---------------------------------------------------------------------------
// Accuracy.
// ---------------------------------------------------------------------------
/// A ratio of correctly typed letters to attempts.
#[derive(Clone, Copy)]
pub struct Accuracy {
    /// Letters that were to be typed.
    pub amount: usize,
    /// Keystrokes spent on them.
    pub attempts: usize,
}

impl Accuracy {
    pub fn new(amount: usize, attempts: usize) -> (r: Accuracy)
        ensures
            r.amount == amount,
            r.attempts == attempts,
    {
        Accuracy { amount, attempts }
    }

    /// The ratio as a percentage in tenths: `66.7%` comes back as `667`.
    pub fn get_percent(&self) -> (r: u64)
        requires
            self.amount <= self.attempts,
        ensures
            r == perc_tenths(self.amount as int, self.attempts as int),
            r <= 1000,
    {
        proof {
            lemma_perc_tenths_bounds(self.amount as int, self.attempts as int);
        }
        if self.attempts == 0 {
            0
        } else {
            let a: u128 = self.amount as u128;
            let p: u128 = self.attempts as u128;
            ((2 * (a * 1000) + p) / (2 * p)) as u64
        }
    }
}

// ---------------------------------------------------------------------------
// LetterInfo.
// ---------------------------------------------------------------------------
/// Statistics for one expected letter: how many keystrokes were recorded
/// while it was expected, and which characters those keystrokes were.
pub struct LetterInfo {
    presses: u64,
    pressed_letters: Vec<(char, u64)>,
}

/// The abstract value of a `LetterInfo`.
pub ghost struct LetterInfoV {
    pub presses: u64,
    pub dist: Seq<(char, u64)>,
}

impl LetterInfoV {
    /// Distinct keys, positive counts, and counts that add up to the total
    /// number of presses recorded for the letter.
    pub open spec fn wf(self) -> bool {
        dist_wf(self.dist) && dist_sum(self.dist) == self.presses && self.presses >= 1
    }
}

impl View for LetterInfo {
    type V = LetterInfoV;

    closed spec fn view(&self) -> LetterInfoV {
        LetterInfoV { presses: self.presses, dist: self.pressed_letters@ }
    }
}

/// Find the position of `c` in the distribution.
pub(crate) fn find_key(d: &Vec<(char, u64)>, c: char) -> (r: Option<usize>)
    ensures
        match r {
            Some(i) => i < d.len() && find_idx(d@, c) == i as int,
            None => find_idx(d@, c) == -1,
        },
{
    let n = d.len();
    let mut i: usize = 0;
    while i < n
        invariant
            i <= n,
            n == d.len(),
            forall|k: int| 0 <= k < i ==> (#[trigger] d@[k]).0 != c,
        decreases n - i,
    {
        if d[i].0 == c {
            proof {
                lemma_find_idx_at(d@, c, i as int);
            }
            return Some(i);
        }
        i = i + 1;
    }
    proof {
        lemma_find_idx(d@, c);
    }
    None
}

/// Add `n` presses of character `c` to a distribution vector.
pub(crate) fn add_to_dist(d: &mut Vec<(char, u64)>, c: char, n: u64)
    requires
        dist_wf(old(d)@),
        n >= 1,
        count_of(old(d)@, c) + n <= u64::MAX,
    ensures
        final(d)@ == add_count(old(d)@, c, n),
        dist_wf(final(d)@),
        dist_sum(final(d)@) == dist_sum(old(d)@) + n,
{
    proof {
        lemma_add_count(old(d)@, c, n);
    }
    match find_key(d, c) {
        Some(i) => {
            let cnt = d[i].1;
            proof {
                lemma_find_idx(d@, c);
            }
            d[i] = (c, cnt + n);
            proof {
                assert(d@ =~= add_count(old(d)@, c, n));
            }
        },
        None => {
            d.push((c, n));
        },
    }
}

impl LetterInfo {
    /// A fresh record for an expected letter whose first keystroke was
    /// `pressed_key`.
    pub fn new(pressed_key: char) -> (r: LetterInfo)
        ensures
            r@.wf(),
            r@.presses == 1,
            r@.dist =~= seq![(pressed_key, 1u64)],
    {
        let mut pressed_letters: Vec<(char, u64)> = Vec::new();
        pressed_letters.push((pressed_key, 1));
        proof {
            assert(pressed_letters@.drop_first() =~= Seq::<(char, u64)>::empty());
            assert(dist_sum(Seq::<(char, u64)>::empty()) == 0);
        }
        LetterInfo { presses: 1, pressed_letters }
    }

    /// Record one more keystroke, `ch`, for this expected letter.
    pub fn insert_press(&mut self, ch: char)
        requires
            old(self)@.wf(),
            old(self)@.presses < u64::MAX,
        ensures
            final(self)@.wf(),
            final(self)@.presses == old(self)@.presses + 1,
            final(self)@.dist == add_count(old(self)@.dist, ch, 1),
    {
        proof {
            let i = find_idx(self@.dist, ch);
            lemma_find_idx(self@.dist, ch);
            if i != -1 {
                lemma_count_le_sum(self@.dist, i);
            }
        }
        self.presses = self.presses + 1;
        add_to_dist(&mut self.pressed_letters, ch, 1);
    }

    /// Total number of keystrokes recorded for this letter.
    pub fn total_presses(&self) -> (r: u64)
        ensures
            r == self@.presses,
    {
        self.presses
    }

    /// This record as a result-document record for `main_letter`.  The
    /// letter itself is not stored here, so the caller passes the key the
    /// record was filed under.
    pub fn to_json(&self, main_letter: char) -> (r: crate::results::JSONLetterInfo)
        ensures
            r@.main == main_letter,
            r@.presses == self@.presses,
            r@.dist == self@.dist,
    {
        let n = self.pressed_letters.len();
        let mut letter_presses: Vec<(char, u64)> = Vec::new();
        let mut k: usize = 0;
        proof {
            assert(self@.dist.take(0) =~= Seq::<(char, u64)>::empty());
        }
        while k < n
            invariant
                k <= n,
                n == self.pressed_letters.len(),
                letter_presses@ == self@.dist.take(k as int),
            decreases n - k,
        {
            letter_presses.push(self.pressed_letters[k]);
            proof {
                assert(letter_presses@ =~= self@.dist.take(k as int + 1));
            }
            k = k + 1;
        }
        proof {
            assert(self@.dist.take(n as int) =~= self@.dist);
        }
        crate::results::JSONLetterInfo {
            main_letter,
            letter_accuracies: letter_presses,
            presses_of_key: self.presses,
        }
    }
}

} // verus!

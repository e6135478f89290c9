//! Session results and the cross-session aggregate.
//!
//! A finished session yields a `JSONResults`: typing speed, total accuracy
//! and a per-letter breakdown.  The persisted aggregate has the same shape
//! and is folded together with new results by `update`: scalar fields are
//! averaged (adopting the new value outright while the old one is still the
//! unset sentinel `0`), per-letter press counts are summed so the aggregate
//! keeps true totals.
//!
//! All percentages are integers in tenths of a percent (`66.7%` is `667`);
//! speed is kept in thousandths of a word per minute, so that averaging on
//! merge loses as little as possible while accuracy stays rounded to one
//! decimal, as displayed.

use vstd::prelude::*;

use crate::letter_stats::add_count;
use crate::letter_stats::add_to_dist;
use crate::letter_stats::count_of;
use crate::letter_stats::dist_sum;
use crate::letter_stats::dist_wf;
use crate::letter_stats::find_idx;
use crate::letter_stats::find_key;
use crate::letter_stats::keys_unique;
use crate::letter_stats::lemma_add_count;
use crate::letter_stats::lemma_count_le_sum;
use crate::letter_stats::lemma_dist_sum_nonneg;
use crate::letter_stats::lemma_dist_sum_push;
use crate::letter_stats::lemma_find_idx;
use crate::letter_stats::lemma_find_idx_at;
use crate::letter_stats::lemma_perc_tenths_bounds;
use crate::letter_stats::lemma_perc_tenths_scaled;
use crate::letter_stats::perc_tenths;

verus! {

// ---------------------------------------------------------------------------
// Abstract values.
// ---------------------------------------------------------------------------
/// Abstract value of a per-letter record in a result document.
#[verifier::ext_equal]
pub ghost struct JSONLetterInfoV {
    pub main: char,
    pub presses: u64,
    pub dist: Seq<(char, u64)>,
}

impl JSONLetterInfoV {
    /// Counts are consistent: distinct keys, positive counts, counts adding
    /// up to the press total.
    pub open spec fn wf(self) -> bool {
        dist_wf(self.dist) && dist_sum(self.dist) == self.presses && self.presses >= 1
    }

    /// A record of a finished session additionally mentions its own letter:
    /// the session can only have ended by typing that letter correctly.
    pub open spec fn complete(self) -> bool {
        self.wf() && find_idx(self.dist, self.main) != -1
    }
}

/// Abstract value of a whole result document.
#[verifier::ext_equal]
pub ghost struct JSONResultsV {
    pub wpm_milli: u64,
    pub acc_tenths: u64,
    pub letters: Seq<JSONLetterInfoV>,
}

/// Index of the record for letter `c`, or `-1` when there is none.
pub open spec fn find_main(ls: Seq<JSONLetterInfoV>, c: char) -> int
    decreases ls.len(),
{
    if ls.len() == 0 {
        -1
    } else if ls[0].main == c {
        0
    } else {
        let r = find_main(ls.drop_first(), c);
        if r == -1 {
            -1
        } else {
            r + 1
        }
    }
}

/// The record stored for letter `c`; meaningful when `find_main` succeeds.
pub open spec fn entry_of(ls: Seq<JSONLetterInfoV>, c: char) -> JSONLetterInfoV {
    ls[find_main(ls, c)]
}

/// Each letter owns at most one record.
pub open spec fn mains_unique(ls: Seq<JSONLetterInfoV>) -> bool {
    forall|i: int, j: int| 0 <= i < j < ls.len() ==> (#[trigger] ls[i]).main != (
    #[trigger] ls[j]).main
}

/// A well-formed collection of per-letter records.
pub open spec fn letters_wf(ls: Seq<JSONLetterInfoV>) -> bool {
    mains_unique(ls) && forall|i: int| 0 <= i < ls.len() ==> (#[trigger] ls[i]).complete()
}

impl JSONResultsV {
    pub open spec fn wf(self) -> bool {
        self.acc_tenths <= 1000 && letters_wf(self.letters)
    }
}

/// The empty aggregate: both scalars at the unset sentinel, no letters.
pub open spec fn empty_results() -> JSONResultsV {
    JSONResultsV { wpm_milli: 0, acc_tenths: 0, letters: Seq::empty() }
}

// ---------------------------------------------------------------------------
// The merge, as a specification.
// ---------------------------------------------------------------------------
/// Fold a second confusion distribution into a first one, summing counts.
pub open spec fn merge_dist(d: Seq<(char, u64)>, e: Seq<(char, u64)>) -> Seq<(char, u64)>
    decreases e.len(),
{
    if e.len() == 0 {
        d
    } else {
        merge_dist(add_count(d, e[0].0, e[0].1), e.drop_first())
    }
}

/// Merge two records of the same letter: true totals are summed, never
/// averaged.
pub open spec fn merge_entry(a: JSONLetterInfoV, b: JSONLetterInfoV) -> JSONLetterInfoV {
    JSONLetterInfoV {
        main: a.main,
        presses: (a.presses + b.presses) as u64,
        dist: merge_dist(a.dist, b.dist),
    }
}

/// Fold one new record into a collection.
pub open spec fn merge_one(ls: Seq<JSONLetterInfoV>, b: JSONLetterInfoV) -> Seq<JSONLetterInfoV> {
    let i = find_main(ls, b.main);
    if i == -1 {
        ls.push(b)
    } else {
        ls.update(i, merge_entry(ls[i], b))
    }
}

/// Fold a whole collection of new records into an existing one, left to
/// right.
pub open spec fn merge_letters(a: Seq<JSONLetterInfoV>, b: Seq<JSONLetterInfoV>) -> Seq<
    JSONLetterInfoV,
>
    decreases b.len(),
{
    if b.len() == 0 {
        a
    } else {
        merge_letters(merge_one(a, b[0]), b.drop_first())
    }
}

/// Press totals stay within the machine word when the collections are
/// merged.
pub open spec fn letters_merge_fits(a: Seq<JSONLetterInfoV>, b: Seq<JSONLetterInfoV>) -> bool {
    forall|j: int|
        0 <= j < b.len() ==> (find_main(a, (#[trigger] b[j]).main) != -1 ==> entry_of(
            a,
            b[j].main,
        ).presses + b[j].presses <= u64::MAX)
}

/// The merge stays within the machine word.
pub open spec fn merge_fits(a: JSONResultsV, b: JSONResultsV) -> bool {
    a.wpm_milli + b.wpm_milli <= u64::MAX && letters_merge_fits(a.letters, b.letters)
}

/// The aggregate merge rule.  Speed keeps its full precision and is not
/// re-rounded; accuracy is re-rounded to one decimal on every merge.  A
/// scalar still at the unset sentinel `0` adopts the new value outright.
pub open spec fn merge_results(a: JSONResultsV, b: JSONResultsV) -> JSONResultsV {
    JSONResultsV {
        wpm_milli: if a.wpm_milli == 0 {
            b.wpm_milli
        } else {
            ((a.wpm_milli + b.wpm_milli) / 2) as u64
        },
        acc_tenths: if a.acc_tenths == 0 {
            b.acc_tenths
        } else {
            ((a.acc_tenths + b.acc_tenths + 1) / 2) as u64
        },
        letters: merge_letters(a.letters, b.letters),
    }
}

// ---------------------------------------------------------------------------
// Lemmas about the merge.
// ---------------------------------------------------------------------------
/// `find_main` finds the first record of a letter, and `-1` means absence.
pub proof fn lemma_find_main(ls: Seq<JSONLetterInfoV>, c: char)
    ensures
        find_main(ls, c) == -1 ==> forall|k: int|
            0 <= k < ls.len() ==> (#[trigger] ls[k]).main != c,
        find_main(ls, c) != -1 ==> 0 <= find_main(ls, c) < ls.len() && ls[find_main(ls, c)].main
            == c && (forall|k: int| 0 <= k < find_main(ls, c) ==> (#[trigger] ls[k]).main != c),
    decreases ls.len(),
{
    if ls.len() > 0 && ls[0].main != c {
        let t = ls.drop_first();
        lemma_find_main(t, c);
        if find_main(ls, c) == -1 {
            assert forall|k: int| 0 <= k < ls.len() implies (#[trigger] ls[k]).main != c by {
                if k > 0 {
                    assert(t[k - 1] == ls[k]);
                }
            }
        } else {
            assert forall|k: int| 0 <= k < find_main(ls, c) implies (#[trigger] ls[k]).main
                != c by {
                if k > 0 {
                    assert(t[k - 1] == ls[k]);
                }
            }
        }
    }
}

/// A position whose record is for `c`, with no earlier record of `c`, is
/// what `find_main` returns.
pub proof fn lemma_find_main_at(ls: Seq<JSONLetterInfoV>, c: char, i: int)
    requires
        0 <= i < ls.len(),
        ls[i].main == c,
        forall|k: int| 0 <= k < i ==> (#[trigger] ls[k]).main != c,
    ensures
        find_main(ls, c) == i,
    decreases ls.len(),
{
    if i > 0 {
        lemma_find_main_at(ls.drop_first(), c, i - 1);
    }
}

/// Splitting a distribution splits its sum.
pub proof fn lemma_dist_sum_split(e: Seq<(char, u64)>, j: int)
    requires
        0 <= j <= e.len(),
    ensures
        dist_sum(e) == dist_sum(e.take(j)) + dist_sum(e.skip(j)),
    decreases j,
{
    if j == 0 {
        assert(e.take(0) =~= Seq::<(char, u64)>::empty());
        assert(dist_sum(Seq::<(char, u64)>::empty()) == 0);
        assert(e.skip(0) =~= e);
    } else {
        assert(e.take(j).drop_first() =~= e.drop_first().take(j - 1));
        assert(e.skip(j) =~= e.drop_first().skip(j - 1));
        assert(dist_sum(e.take(j)) == e[0].1 + dist_sum(e.drop_first().take(j - 1)));
        lemma_dist_sum_split(e.drop_first(), j - 1);
    }
}

/// Dropping the first entry of a well-formed distribution keeps it
/// well-formed and keeps the counts of all other keys.
pub proof fn lemma_dist_drop_first(e: Seq<(char, u64)>)
    requires
        dist_wf(e),
        e.len() > 0,
    ensures
        dist_wf(e.drop_first()),
        count_of(e, e[0].0) == e[0].1,
        forall|x: char| x != e[0].0 ==> #[trigger] count_of(e, x) == count_of(e.drop_first(), x),
        find_idx(e, e[0].0) == 0,
        forall|x: char| x != e[0].0 ==> (#[trigger] find_idx(e, x) == -1 <==> find_idx(
            e.drop_first(),
            x,
        ) == -1),
{
    let t = e.drop_first();
    assert forall|i: int, j: int| 0 <= i < j < t.len() implies (#[trigger] t[i]).0 != (
    #[trigger] t[j]).0 by {
        assert(t[i] == e[i + 1] && t[j] == e[j + 1]);
    }
    assert forall|k: int| 0 <= k < t.len() implies (#[trigger] t[k]).1 >= 1 by {
        assert(t[k] == e[k + 1]);
    }
    assert forall|x: char| x != e[0].0 implies (#[trigger] find_idx(e, x) == -1 <==> find_idx(
        t,
        x,
    ) == -1) by {
        lemma_find_idx(t, x);
        assert(find_idx(e, x) == (if find_idx(t, x) == -1 {
            -1int
        } else {
            find_idx(t, x) + 1
        }));
    }
    assert forall|x: char| x != e[0].0 implies #[trigger] count_of(e, x) == count_of(t, x) && (
    find_idx(e, x) == -1 <==> find_idx(t, x) == -1) by {
        assert(find_idx(e, x) == (if find_idx(t, x) == -1 {
            -1int
        } else {
            find_idx(t, x) + 1
        }));
        if find_idx(t, x) != -1 {
            lemma_find_idx(t, x);
            assert(e[find_idx(t, x) + 1] == t[find_idx(t, x)]);
        }
    }
}

/// What `merge_dist` does, pointwise: every key ends up with the sum of its
/// two counts, and the total is the sum of the two totals.
pub proof fn lemma_merge_dist(d: Seq<(char, u64)>, e: Seq<(char, u64)>)
    requires
        dist_wf(d),
        dist_wf(e),
        dist_sum(d) + dist_sum(e) <= u64::MAX,
    ensures
        dist_wf(merge_dist(d, e)),
        dist_sum(merge_dist(d, e)) == dist_sum(d) + dist_sum(e),
        forall|x: char| #[trigger]
            count_of(merge_dist(d, e), x) == count_of(d, x) + count_of(e, x),
        forall|x: char| (#[trigger] find_idx(merge_dist(d, e), x) == -1 <==> (find_idx(d, x) == -1
            && find_idx(e, x) == -1)),
    decreases e.len(),
{
    lemma_dist_sum_nonneg(d);
    lemma_dist_sum_nonneg(e);
    if e.len() == 0 {
        assert forall|x: char| #[trigger] count_of(e, x) == 0 by {
            lemma_find_idx(e, x);
        }
    } else {
        let c0 = e[0].0;
        let n0 = e[0].1;
        lemma_dist_drop_first(e);
        lemma_count_le_sum(e, 0);
        assert(count_of(d, c0) + n0 <= u64::MAX) by {
            lemma_find_idx(d, c0);
            if find_idx(d, c0) != -1 {
                lemma_count_le_sum(d, find_idx(d, c0));
            }
        }
        lemma_add_count(d, c0, n0);
        let d1 = add_count(d, c0, n0);
        assert(dist_sum(e) == n0 + dist_sum(e.drop_first()));
        lemma_merge_dist(d1, e.drop_first());
        assert(count_of(e.drop_first(), c0) == 0) by {
            lemma_find_idx(e.drop_first(), c0);
        }
        assert forall|x: char| #[trigger]
            count_of(merge_dist(d, e), x) == count_of(d, x) + count_of(e, x) by {
            if x == c0 {
                assert(count_of(merge_dist(d1, e.drop_first()), x) == count_of(d1, x) + count_of(
                    e.drop_first(),
                    x,
                ));
            }
        }
    }
}

/// `merge_dist` folded one entry at a time, from the left.
pub proof fn lemma_merge_dist_push(d: Seq<(char, u64)>, s: Seq<(char, u64)>, p: (char, u64))
    ensures
        merge_dist(d, s.push(p)) == add_count(merge_dist(d, s), p.0, p.1),
    decreases s.len(),
{
    if s.len() == 0 {
        assert(s.push(p).drop_first() =~= Seq::<(char, u64)>::empty());
        assert(merge_dist(add_count(d, p.0, p.1), s.push(p).drop_first()) == add_count(
            d,
            p.0,
            p.1,
        ));
        assert(merge_dist(d, s) == d);
    } else {
        assert(s.push(p)[0] == s[0]);
        assert(s.push(p).drop_first() =~= s.drop_first().push(p));
        lemma_merge_dist_push(add_count(d, s[0].0, s[0].1), s.drop_first(), p);
    }
}

/// The merged record of one letter is well formed, sums the press totals,
/// and sums the counts key by key.
pub proof fn lemma_merge_entry(a: JSONLetterInfoV, b: JSONLetterInfoV)
    requires
        a.complete(),
        b.wf(),
        a.presses + b.presses <= u64::MAX,
    ensures
        merge_entry(a, b).complete(),
        merge_entry(a, b).main == a.main,
        merge_entry(a, b).presses == a.presses + b.presses,
        forall|x: char| #[trigger]
            count_of(merge_entry(a, b).dist, x) == count_of(a.dist, x) + count_of(b.dist, x),
{
    lemma_merge_dist(a.dist, b.dist);
    let m = merge_entry(a, b);
    assert(find_idx(m.dist, a.main) != -1) by {
        assert(count_of(a.dist, a.main) >= 1) by {
            lemma_find_idx(a.dist, a.main);
        }
        assert(count_of(m.dist, a.main) >= 1);
    }
}

/// Dropping the first record of a well-formed collection keeps it well
/// formed and keeps all other letters' records.
pub proof fn lemma_letters_drop_first(b: Seq<JSONLetterInfoV>)
    requires
        letters_wf(b),
        b.len() > 0,
    ensures
        letters_wf(b.drop_first()),
        find_main(b, b[0].main) == 0,
        forall|c: char| c != b[0].main ==> (#[trigger] find_main(b, c) == -1 <==> find_main(
            b.drop_first(),
            c,
        ) == -1),
        forall|c: char| c != b[0].main && find_main(b, c) != -1 ==> #[trigger] entry_of(b, c)
            == entry_of(b.drop_first(), c),
{
    let t = b.drop_first();
    assert forall|i: int, j: int| 0 <= i < j < t.len() implies (#[trigger] t[i]).main != (
    #[trigger] t[j]).main by {
        assert(t[i] == b[i + 1] && t[j] == b[j + 1]);
    }
    assert forall|k: int| 0 <= k < t.len() implies (#[trigger] t[k]).complete() by {
        assert(t[k] == b[k + 1]);
    }
    assert forall|c: char| c != b[0].main implies (#[trigger] find_main(b, c) == -1 <==> find_main(
        t,
        c,
    ) == -1) by {
        lemma_find_main(t, c);
        assert(find_main(b, c) == (if find_main(t, c) == -1 {
            -1int
        } else {
            find_main(t, c) + 1
        }));
    }
    assert forall|c: char| c != b[0].main && find_main(b, c) != -1 implies #[trigger] entry_of(
        b,
        c,
    ) == entry_of(t, c) by {
        lemma_find_main(t, c);
        assert(find_main(b, c) == (if find_main(t, c) == -1 {
            -1int
        } else {
            find_main(t, c) + 1
        }));
        assert(b[find_main(t, c) + 1] == t[find_main(t, c)]);
    }
}

/// What `merge_one` does: the new record's letter is merged or appended,
/// every other letter's record is untouched.
pub proof fn lemma_merge_one(a: Seq<JSONLetterInfoV>, b: JSONLetterInfoV)
    requires
        letters_wf(a),
        b.complete(),
        find_main(a, b.main) != -1 ==> entry_of(a, b.main).presses + b.presses <= u64::MAX,
    ensures
        letters_wf(merge_one(a, b)),
        find_main(merge_one(a, b), b.main) != -1,
        entry_of(merge_one(a, b), b.main) == (if find_main(a, b.main) == -1 {
            b
        } else {
            merge_entry(entry_of(a, b.main), b)
        }),
        forall|c: char| c != b.main ==> (#[trigger] find_main(merge_one(a, b), c) == -1
            <==> find_main(a, c) == -1),
        forall|c: char| c != b.main && find_main(a, c) != -1 ==> #[trigger] entry_of(
            merge_one(a, b),
            c,
        ) == entry_of(a, c),
{
    let i = find_main(a, b.main);
    lemma_find_main(a, b.main);
    let r = merge_one(a, b);
    if i == -1 {
        assert forall|c: char| true implies #[trigger] find_main(r, c) == (if find_main(a, c)
            == -1 {
            if c == b.main {
                a.len() as int
            } else {
                -1int
            }
        } else {
            find_main(a, c)
        }) by {
            lemma_find_main(a, c);
            if find_main(a, c) == -1 {
                if c == b.main {
                    lemma_find_main_at(r, c, a.len() as int);
                } else {
                    lemma_find_main(r, c);
                    if find_main(r, c) != -1 {
                        assert(r[find_main(r, c)].main == c);
                        assert(false);
                    }
                }
            } else {
                lemma_find_main_at(r, c, find_main(a, c));
            }
        }
        assert forall|c: char| c != b.main && find_main(a, c) != -1 implies #[trigger] entry_of(
            r,
            c,
        ) == entry_of(a, c) by {
            lemma_find_main(a, c);
            assert(r[find_main(a, c)] == a[find_main(a, c)]);
        }
        assert(letters_wf(r)) by {
            assert forall|p: int, q: int| 0 <= p < q < r.len() implies (#[trigger] r[p]).main != (
            #[trigger] r[q]).main by {
                if q == a.len() as int {
                    if r[p].main == b.main {
                        lemma_find_main_at(a, b.main, p);
                    }
                }
            }
            assert forall|k: int| 0 <= k < r.len() implies (#[trigger] r[k]).complete() by {
                if k < a.len() as int {
                    assert(r[k] == a[k]);
                }
            }
        }
    } else {
        lemma_merge_entry(a[i], b);
        let m = merge_entry(a[i], b);
        assert forall|c: char| true implies #[trigger] find_main(r, c) == find_main(a, c) by {
            lemma_find_main(a, c);
            if find_main(a, c) == -1 {
                lemma_find_main(r, c);
                if find_main(r, c) != -1 {
                    assert(r[find_main(r, c)].main == c);
                    assert(a[find_main(r, c)].main == c || find_main(r, c) == i);
                    assert(false);
                }
            } else {
                assert(r[find_main(a, c)].main == c);
                lemma_find_main_at(r, c, find_main(a, c));
            }
        }
        assert forall|c: char| c != b.main && find_main(a, c) != -1 implies #[trigger] entry_of(
            r,
            c,
        ) == entry_of(a, c) by {
            lemma_find_main(a, c);
            assert(find_main(a, c) != i);
            assert(r[find_main(a, c)] == a[find_main(a, c)]);
        }
        assert(letters_wf(r)) by {
            assert(forall|k: int| 0 <= k < r.len() ==> (#[trigger] r[k]).main == a[k].main);
            assert forall|k: int| 0 <= k < r.len() implies (#[trigger] r[k]).complete() by {
                if k != i {
                    assert(r[k] == a[k]);
                }
            }
        }
    }
}

/// `merge_letters` folded one record at a time, from the left.
pub proof fn lemma_merge_letters_push(
    a: Seq<JSONLetterInfoV>,
    s: Seq<JSONLetterInfoV>,
    e: JSONLetterInfoV,
)
    ensures
        merge_letters(a, s.push(e)) == merge_one(merge_letters(a, s), e),
    decreases s.len(),
{
    if s.len() == 0 {
        assert(s.push(e).drop_first() =~= Seq::<JSONLetterInfoV>::empty());
        assert(merge_letters(merge_one(a, e), s.push(e).drop_first()) == merge_one(a, e));
        assert(merge_letters(a, s) == a);
    } else {
        assert(s.push(e)[0] == s[0]);
        assert(s.push(e).drop_first() =~= s.drop_first().push(e));
        lemma_merge_letters_push(merge_one(a, s[0]), s.drop_first(), e);
    }
}

/// What `merge_letters` does, letter by letter: a letter known on one side
/// only keeps that side's record, a letter known on both gets the merged
/// record.
pub proof fn lemma_merge_letters(a: Seq<JSONLetterInfoV>, b: Seq<JSONLetterInfoV>)
    requires
        letters_wf(a),
        letters_wf(b),
        letters_merge_fits(a, b),
    ensures
        letters_wf(merge_letters(a, b)),
        forall|c: char| (#[trigger] find_main(merge_letters(a, b), c) == -1 <==> (find_main(a, c)
            == -1 && find_main(b, c) == -1)),
        forall|c: char| find_main(a, c) != -1 && find_main(b, c) == -1 ==> #[trigger] entry_of(
            merge_letters(a, b),
            c,
        ) == entry_of(a, c),
        forall|c: char| find_main(a, c) == -1 && find_main(b, c) != -1 ==> #[trigger] entry_of(
            merge_letters(a, b),
            c,
        ) == entry_of(b, c),
        forall|c: char| find_main(a, c) != -1 && find_main(b, c) != -1 ==> #[trigger] entry_of(
            merge_letters(a, b),
            c,
        ) == merge_entry(entry_of(a, c), entry_of(b, c)),
    decreases b.len(),
{
    let m = merge_letters(a, b);
    if b.len() == 0 {
        assert(m == a);
    } else {
        let b0 = b[0];
        let bt = b.drop_first();
        lemma_letters_drop_first(b);
        assert(find_main(a, b0.main) != -1 ==> entry_of(a, b0.main).presses + b0.presses
            <= u64::MAX) by {
            assert(b[0] == b0);
        }
        lemma_merge_one(a, b0);
        let a1 = merge_one(a, b0);
        assert(letters_merge_fits(a1, bt)) by {
            assert forall|j: int|
                0 <= j < bt.len() && find_main(a1, (#[trigger] bt[j]).main) != -1 implies entry_of(
                a1,
                bt[j].main,
            ).presses + bt[j].presses <= u64::MAX by {
                assert(bt[j] == b[j + 1]);
                assert(bt[j].main != b0.main);
                assert(find_main(a, bt[j].main) != -1);
                assert(entry_of(a1, bt[j].main) == entry_of(a, bt[j].main));
            }
        }
        lemma_merge_letters(a1, bt);
        assert(m == merge_letters(a1, bt));
        assert forall|c: char| (#[trigger] find_main(m, c) == -1 <==> (find_main(a, c) == -1
            && find_main(b, c) == -1)) by {
            if c == b0.main {
                assert(find_main(a1, c) != -1);
            }
        }
        assert forall|c: char|
            find_main(a, c) != -1 && find_main(b, c) == -1 implies #[trigger] entry_of(m, c)
            == entry_of(a, c) by {
            assert(c != b0.main);
            assert(find_main(bt, c) == -1);
            assert(entry_of(m, c) == entry_of(a1, c));
        }
        assert forall|c: char|
            find_main(a, c) == -1 && find_main(b, c) != -1 implies #[trigger] entry_of(m, c)
            == entry_of(b, c) by {
            if c == b0.main {
                lemma_find_main(bt, c);
                if find_main(bt, c) != -1 {
                    assert(bt[find_main(bt, c)] == b[find_main(bt, c) + 1]);
                    assert(false);
                }
                assert(entry_of(m, c) == entry_of(a1, c));
                assert(entry_of(a1, c) == b0);
                assert(entry_of(b, c) == b0);
            } else {
                assert(find_main(bt, c) != -1);
                assert(entry_of(m, c) == entry_of(bt, c));
                assert(entry_of(bt, c) == entry_of(b, c));
            }
        }
        assert forall|c: char|
            find_main(a, c) != -1 && find_main(b, c) != -1 implies #[trigger] entry_of(m, c)
            == merge_entry(entry_of(a, c), entry_of(b, c)) by {
            if c == b0.main {
                lemma_find_main(bt, c);
                if find_main(bt, c) != -1 {
                    assert(bt[find_main(bt, c)] == b[find_main(bt, c) + 1]);
                    assert(false);
                }
                assert(entry_of(m, c) == entry_of(a1, c));
                assert(entry_of(a1, c) == merge_entry(entry_of(a, c), b0));
                assert(entry_of(b, c) == b0);
            } else {
                assert(find_main(bt, c) != -1);
                assert(find_main(a1, c) != -1);
                assert(entry_of(m, c) == merge_entry(entry_of(a1, c), entry_of(bt, c)));
                assert(entry_of(a1, c) == entry_of(a, c));
                assert(entry_of(bt, c) == entry_of(b, c));
            }
        }
    }
}

/// The merged aggregate is well formed.
pub proof fn lemma_merge_results_wf(a: JSONResultsV, b: JSONResultsV)
    requires
        a.wf(),
        b.wf(),
        merge_fits(a, b),
    ensures
        merge_results(a, b).wf(),
{
    lemma_merge_letters(a.letters, b.letters);
    if a.acc_tenths != 0 {
        let s = a.acc_tenths + b.acc_tenths + 1;
        vstd::arithmetic::div_mod::lemma_div_pos_is_pos(s, 2);
        vstd::arithmetic::div_mod::lemma_div_is_ordered(s, 2001, 2);
        vstd::arithmetic::div_mod::lemma_fundamental_div_mod_converse(2001, 2, 1000, 1);
    }
}

/// Merging records for letters that are all new appends them in order.
pub proof fn lemma_merge_letters_fresh(a: Seq<JSONLetterInfoV>, b: Seq<JSONLetterInfoV>)
    requires
        mains_unique(b),
        forall|j: int| 0 <= j < b.len() ==> find_main(a, (#[trigger] b[j]).main) == -1,
    ensures
        merge_letters(a, b) == a + b,
    decreases b.len(),
{
    if b.len() == 0 {
        assert(a + b =~= a);
    } else {
        let b0 = b[0];
        let bt = b.drop_first();
        assert(find_main(a, b0.main) == -1) by {
            assert(b[0] == b0);
        }
        let a1 = a.push(b0);
        assert(merge_one(a, b0) == a1);
        assert forall|i: int, j: int| 0 <= i < j < bt.len() implies (#[trigger] bt[i]).main != (
        #[trigger] bt[j]).main by {
            assert(bt[i] == b[i + 1] && bt[j] == b[j + 1]);
        }
        assert forall|j: int| 0 <= j < bt.len() implies find_main(a1, (#[trigger] bt[j]).main)
            == -1 by {
            assert(bt[j] == b[j + 1]);
            let x = bt[j].main;
            assert(find_main(a, x) == -1);
            lemma_find_main(a, x);
            lemma_find_main(a1, x);
            if find_main(a1, x) != -1 {
                assert(a1[find_main(a1, x)].main == x);
                assert(x != b0.main);
                assert(false);
            }
        }
        lemma_merge_letters_fresh(a1, bt);
        assert(a1 + bt =~= a + b);
    }
}

/// Merging a result into the empty aggregate adopts it unchanged.
pub proof fn lemma_merge_into_empty(r: JSONResultsV)
    requires
        r.wf(),
    ensures
        merge_results(empty_results(), r) == r,
{
    let a = empty_results();
    assert forall|j: int|
        0 <= j < r.letters.len() implies find_main(a.letters, (#[trigger] r.letters[j]).main)
        == -1 by {
        assert(a.letters.len() == 0);
    }
    lemma_merge_letters_fresh(a.letters, r.letters);
    assert(a.letters + r.letters =~= r.letters);
    assert(merge_results(a, r) =~= r);
}

/// Merging two results with identical letter statistics doubles every raw
/// press total while every letter's derived accuracy stays the same.
pub proof fn lemma_merge_identical_letters(a: JSONResultsV, b: JSONResultsV)
    requires
        a.wf(),
        b.wf(),
        merge_fits(a, b),
        a.letters == b.letters,
    ensures
        forall|c: char| (#[trigger] find_main(merge_results(a, b).letters, c) == -1 <==> find_main(
            a.letters,
            c,
        ) == -1),
        forall|c: char| #![trigger entry_of(merge_results(a, b).letters, c)]
            find_main(a.letters, c) != -1 ==> {
                let e = entry_of(a.letters, c);
                let m = entry_of(merge_results(a, b).letters, c);
                m.presses == 2 * e.presses && (forall|x: char| #[trigger]
                    count_of(m.dist, x) == 2 * count_of(e.dist, x)) && perc_tenths(
                    count_of(m.dist, c),
                    m.presses as int,
                ) == perc_tenths(count_of(e.dist, c), e.presses as int)
            },
{
    lemma_merge_letters(a.letters, b.letters);
    assert forall|c: char| #![trigger entry_of(merge_results(a, b).letters, c)]
        find_main(a.letters, c) != -1 implies {
        let e = entry_of(a.letters, c);
        let m = entry_of(merge_results(a, b).letters, c);
        m.presses == 2 * e.presses && (forall|x: char| #[trigger]
            count_of(m.dist, x) == 2 * count_of(e.dist, x)) && perc_tenths(
            count_of(m.dist, c),
            m.presses as int,
        ) == perc_tenths(count_of(e.dist, c), e.presses as int)
    } by {
        let e = entry_of(a.letters, c);
        let m = entry_of(merge_results(a, b).letters, c);
        lemma_find_main(a.letters, c);
        assert(e.complete());
        assert(entry_of(b.letters, c) == e);
        assert(letters_merge_fits(a.letters, b.letters));
        assert(e.presses + e.presses <= u64::MAX) by {
            let j = find_main(b.letters, c);
            assert(b.letters[j] == e);
        }
        lemma_merge_entry(e, e);
        assert(m == merge_entry(e, e));
        assert(m.presses == 2 * e.presses);
        assert forall|x: char| #[trigger]
            count_of(m.dist, x) == 2 * count_of(e.dist, x) by {
            assert(count_of(m.dist, x) == count_of(e.dist, x) + count_of(e.dist, x));
        }
        lemma_perc_tenths_scaled(count_of(e.dist, c), e.presses as int, 2);
        assert(count_of(m.dist, c) == 2 * count_of(e.dist, c));
    }
}

// ---------------------------------------------------------------------------
// Executable result documents.
// ---------------------------------------------------------------------------
/// Per-letter record of a result document: the letter itself, its
/// confusion distribution, and the total number of presses recorded while
/// it was expected.
pub struct JSONLetterInfo {
    pub main_letter: char,
    pub letter_accuracies: Vec<(char, u64)>,
    pub presses_of_key: u64,
}

impl View for JSONLetterInfo {
    type V = JSONLetterInfoV;

    open spec fn view(&self) -> JSONLetterInfoV {
        JSONLetterInfoV {
            main: self.main_letter,
            presses: self.presses_of_key,
            dist: self.letter_accuracies@,
        }
    }
}

impl JSONLetterInfo {
    /// Accuracy of character `ch` against this letter, in tenths of a
    /// percent: its share among all presses recorded for the letter.
    pub fn get_perc(&self, ch: char) -> (r: u64)
        requires
            self@.wf(),
            find_idx(self@.dist, ch) != -1,
        ensures
            r == perc_tenths(count_of(self@.dist, ch), self@.presses as int),
            r <= 1000,
    {
        proof {
            lemma_find_idx(self@.dist, ch);
        }
        match find_key(&self.letter_accuracies, ch) {
            Some(i) => {
                let cnt = self.letter_accuracies[i].1;
                proof {
                    lemma_count_le_sum(self@.dist, i as int);
                    lemma_perc_tenths_bounds(cnt as int, self.presses_of_key as int);
                }
                let c128: u128 = cnt as u128;
                let p128: u128 = self.presses_of_key as u128;
                ((2 * (c128 * 1000) + p128) / (2 * p128)) as u64
            },
            None => unreached(),
        }
    }

    /// Fold another record for the same letter into this one, summing the
    /// raw counts.
    pub fn update(&mut self, other: &JSONLetterInfo)
        requires
            old(self)@.wf(),
            other@.wf(),
            old(self)@.presses + other@.presses <= u64::MAX,
        ensures
            final(self)@ == merge_entry(old(self)@, other@),
            final(self)@.wf(),
            final(self)@.main == old(self)@.main,
            final(self)@.presses == old(self)@.presses + other@.presses,
    {
        proof {
            lemma_merge_dist(old(self)@.dist, other@.dist);
        }
        self.presses_of_key = self.presses_of_key + other.presses_of_key;
        let n = other.letter_accuracies.len();
        let mut k: usize = 0;
        while k < n
            invariant
                k <= n,
                n == other.letter_accuracies.len(),
                other@.wf(),
                old(self)@.wf(),
                old(self)@.presses + other@.presses <= u64::MAX,
                self.main_letter == old(self).main_letter,
                self.presses_of_key == old(self)@.presses + other@.presses,
                self@.dist == merge_dist(old(self)@.dist, other@.dist.take(k as int)),
                dist_wf(self@.dist),
                dist_sum(self@.dist) == dist_sum(old(self)@.dist) + dist_sum(
                    other@.dist.take(k as int),
                ),
            decreases n - k,
        {
            let pair = other.letter_accuracies[k];
            proof {
                let e = other@.dist;
                let kk = k as int;
                lemma_dist_sum_split(e, kk);
                assert(e.skip(kk)[0] == e[kk]);
                lemma_count_le_sum(e.skip(kk), 0);
                lemma_find_idx(self@.dist, pair.0);
                if find_idx(self@.dist, pair.0) != -1 {
                    lemma_count_le_sum(self@.dist, find_idx(self@.dist, pair.0));
                }
                assert(pair.1 >= 1);
                lemma_merge_dist_push(old(self)@.dist, e.take(kk), pair);
                assert(e.take(kk + 1) =~= e.take(kk).push(pair));
                lemma_dist_sum_push(e.take(kk), pair);
            }
            add_to_dist(&mut self.letter_accuracies, pair.0, pair.1);
            k = k + 1;
        }
        proof {
            assert(other@.dist.take(n as int) =~= other@.dist);
            assert(self@ =~= merge_entry(old(self)@, other@));
            lemma_merge_dist(old(self)@.dist, other@.dist);
        }
    }

    /// A deep copy of this record.
    pub fn get_copy(&self) -> (r: JSONLetterInfo)
        ensures
            r@ == self@,
    {
        let n = self.letter_accuracies.len();
        let mut dist: Vec<(char, u64)> = Vec::new();
        let mut k: usize = 0;
        while k < n
            invariant
                k <= n,
                n == self.letter_accuracies.len(),
                dist@ == self@.dist.take(k as int),
            decreases n - k,
        {
            dist.push(self.letter_accuracies[k]);
            proof {
                assert(dist@ =~= self@.dist.take(k as int + 1));
            }
            k = k + 1;
        }
        let r = JSONLetterInfo {
            main_letter: self.main_letter,
            letter_accuracies: dist,
            presses_of_key: self.presses_of_key,
        };
        proof {
            assert(self@.dist.take(n as int) =~= self@.dist);
            assert(r@ =~= self@);
        }
        r
    }

    /// Total number of presses recorded for this letter.
    pub fn total_presses(&self) -> (r: u64)
        ensures
            r == self@.presses,
    {
        self.presses_of_key
    }
}

impl JSONLetterInfo {
    /// Decide whether this record could have come from a finished session:
    /// consistent counts, and at least one correct press of its own letter.
    pub fn check_complete(&self) -> (r: bool)
        ensures
            r == self@.complete(),
    {
        if self.presses_of_key == 0 {
            return false;
        }
        let n = self.letter_accuracies.len();
        let ghost d = self@.dist;
        let mut k: usize = 0;
        while k < n
            invariant
                k <= n,
                n == self.letter_accuracies.len(),
                d == self@.dist,
                forall|k2: int| 0 <= k2 < k ==> (#[trigger] d[k2]).1 >= 1,
                forall|k2: int| 0 <= k2 < k ==> #[trigger] find_idx(d, d[k2].0) == k2,
            decreases n - k,
        {
            let (c, cnt) = self.letter_accuracies[k];
            if cnt == 0 {
                return false;
            }
            match find_key(&self.letter_accuracies, c) {
                Some(i) => {
                    if i != k {
                        proof {
                            lemma_find_idx(d, c);
                            assert(d[i as int].0 == c && d[k as int].0 == c);
                            assert((i as int) < (k as int));
                        }
                        return false;
                    }
                },
                None => {
                    proof {
                        lemma_find_idx(d, c);
                        assert(d[k as int].0 == c);
                        assert(false);
                    }
                    return false;
                },
            }
            k = k + 1;
        }
        proof {
            assert forall|i: int, j: int| 0 <= i < j < d.len() implies (#[trigger] d[i]).0 != (
            #[trigger] d[j]).0 by {
                if d[i].0 == d[j].0 {
                    assert(find_idx(d, d[i].0) == i && find_idx(d, d[j].0) == j);
                }
            }
        }
        let mut total: u128 = 0;
        let mut k2: usize = 0;
        proof {
            assert(d.take(0) =~= Seq::<(char, u64)>::empty());
            assert(dist_sum(Seq::<(char, u64)>::empty()) == 0);
        }
        while k2 < n
            invariant
                k2 <= n,
                n == self.letter_accuracies.len(),
                d == self@.dist,
                total == dist_sum(d.take(k2 as int)),
                total <= u64::MAX,
            decreases n - k2,
        {
            let (_, cnt) = self.letter_accuracies[k2];
            proof {
                assert(d.take(k2 as int + 1) =~= d.take(k2 as int).push(d[k2 as int]));
                lemma_dist_sum_push(d.take(k2 as int), d[k2 as int]);
            }
            total = total + (cnt as u128);
            if total > 0xffffffffffffffff {
                proof {
                    lemma_dist_sum_split(d, k2 as int + 1);
                    lemma_dist_sum_nonneg(d.skip(k2 as int + 1));
                    assert(dist_sum(d) > u64::MAX);
                }
                return false;
            }
            k2 = k2 + 1;
        }
        proof {
            assert(d.take(n as int) =~= d);
        }
        if total != self.presses_of_key as u128 {
            return false;
        }
        match find_key(&self.letter_accuracies, self.main_letter) {
            Some(_) => true,
            None => false,
        }
    }
}

/// A whole result document: one typing session's outcome, or the running
/// aggregate of all past sessions.
pub struct JSONResults {
    /// Words per minute, in thousandths.
    pub wpm_milli: u64,
    /// Total accuracy, in tenths of a percent.
    pub total_accuracy_tenths: u64,
    /// Per-letter records, one for each distinct letter of the samples.
    pub letters_info: Vec<JSONLetterInfo>,
}

/// The abstract value of a vector of per-letter records.
pub open spec fn letters_view(v: Seq<JSONLetterInfo>) -> Seq<JSONLetterInfoV> {
    v.map_values(|li: JSONLetterInfo| li@)
}

/// The record vector, record by record.
pub proof fn lemma_letters_view(v: Seq<JSONLetterInfo>)
    ensures
        letters_view(v).len() == v.len(),
        forall|k: int| 0 <= k < v.len() ==> #[trigger] letters_view(v)[k] == v[k]@,
{
}

impl View for JSONResults {
    type V = JSONResultsV;

    open spec fn view(&self) -> JSONResultsV {
        JSONResultsV {
            wpm_milli: self.wpm_milli,
            acc_tenths: self.total_accuracy_tenths,
            letters: letters_view(self.letters_info@),
        }
    }
}

/// Find the position of the record for letter `c`.
pub(crate) fn find_letter(v: &Vec<JSONLetterInfo>, c: char) -> (r: Option<usize>)
    ensures
        match r {
            Some(i) => i < v.len() && find_main(letters_view(v@), c) == i as int,
            None => find_main(letters_view(v@), c) == -1,
        },
{
    let n = v.len();
    let mut i: usize = 0;
    while i < n
        invariant
            i <= n,
            n == v.len(),
            forall|k: int| 0 <= k < i ==> (#[trigger] letters_view(v@)[k]).main != c,
        decreases n - i,
    {
        if v[i].main_letter == c {
            proof {
                lemma_find_main_at(letters_view(v@), c, i as int);
            }
            return Some(i);
        }
        i = i + 1;
    }
    proof {
        lemma_find_main(letters_view(v@), c);
    }
    None
}

impl JSONResults {
    /// The empty aggregate: scalars at the unset sentinel, no letters.
    pub fn new() -> (r: JSONResults)
        ensures
            r@ == empty_results(),
            r@.wf(),
    {
        let r = JSONResults { wpm_milli: 0, total_accuracy_tenths: 0, letters_info: Vec::new() };
        proof {
            assert(r@ =~= empty_results());
        }
        r
    }

    /// Fold another result document into this one: scalars by mean (with
    /// adoption while still unset), per-letter records by summing raw
    /// counts.
    pub fn update(&mut self, other: &JSONResults)
        requires
            old(self)@.wf(),
            other@.wf(),
            merge_fits(old(self)@, other@),
        ensures
            final(self)@ == merge_results(old(self)@, other@),
            final(self)@.wf(),
    {
        proof {
            lemma_merge_results_wf(old(self)@, other@);
        }
        if self.wpm_milli != 0 {
            self.wpm_milli = (self.wpm_milli + other.wpm_milli) / 2;
        } else {
            self.wpm_milli = other.wpm_milli;
        }
        if self.total_accuracy_tenths != 0 {
            self.total_accuracy_tenths = (self.total_accuracy_tenths + other.total_accuracy_tenths
                + 1) / 2;
        } else {
            self.total_accuracy_tenths = other.total_accuracy_tenths;
        }
        let ghost a0 = old(self)@.letters;
        let ghost b = other@.letters;
        let n = other.letters_info.len();
        let mut j: usize = 0;
        while j < n
            invariant
                j <= n,
                n == other.letters_info.len(),
                b == other@.letters,
                letters_wf(a0),
                letters_wf(b),
                letters_merge_fits(a0, b),
                self.wpm_milli == merge_results(old(self)@, other@).wpm_milli,
                self.total_accuracy_tenths == merge_results(old(self)@, other@).acc_tenths,
                letters_view(self.letters_info@) == merge_letters(a0, b.take(j as int)),
                letters_wf(letters_view(self.letters_info@)),
            decreases n - j,
        {
            let ghost jj = j as int;
            let ghost cur = letters_view(self.letters_info@);
            proof {
                assert(b.take(jj).len() == jj);
                assert forall|p: int, q: int| 0 <= p < q < jj implies (#[trigger] b.take(
                    jj,
                )[p]).main != (#[trigger] b.take(jj)[q]).main by {
                    assert(b.take(jj)[p] == b[p] && b.take(jj)[q] == b[q]);
                }
                assert forall|p: int| 0 <= p < jj implies (#[trigger] b.take(jj)[p]).complete() by {
                    assert(b.take(jj)[p] == b[p]);
                }
                assert(letters_merge_fits(a0, b.take(jj))) by {
                    assert forall|p: int|
                        0 <= p < jj && find_main(a0, (#[trigger] b.take(jj)[p]).main)
                            != -1 implies entry_of(a0, b.take(jj)[p].main).presses + b.take(
                        jj,
                    )[p].presses <= u64::MAX by {
                        assert(b.take(jj)[p] == b[p]);
                    }
                }
                lemma_merge_letters(a0, b.take(jj));
                // The letter being folded in has not been seen in this loop
                // yet, so its record has not been touched so far.
                lemma_find_main(b.take(jj), b[jj].main);
                if find_main(b.take(jj), b[jj].main) != -1 {
                    assert(b.take(jj)[find_main(b.take(jj), b[jj].main)] == b[find_main(
                        b.take(jj),
                        b[jj].main,
                    )]);
                    assert(false);
                }
                assert(find_main(cur, b[jj].main) != -1 ==> entry_of(cur, b[jj].main) == entry_of(
                    a0,
                    b[jj].main,
                ) && find_main(a0, b[jj].main) != -1);
                lemma_merge_one(cur, b[jj]);
                lemma_merge_letters_push(a0, b.take(jj), b[jj]);
                assert(b.take(jj + 1) =~= b.take(jj).push(b[jj]));
            }
            let e_main = other.letters_info[j].main_letter;
            match find_letter(&self.letters_info, e_main) {
                Some(i) => {
                    let ghost pre = self.letters_info@;
                    let mut entry = self.letters_info.remove(i);
                    proof {
                        assert(entry@ == cur[i as int]);
                        assert(find_main(cur, b[jj].main) == i as int);
                        assert(entry@ == entry_of(cur, b[jj].main));
                    }
                    entry.update(&other.letters_info[j]);
                    self.letters_info.insert(i, entry);
                    proof {
                        assert forall|k: int|
                            0 <= k < pre.len() implies #[trigger] self.letters_info@[k] == (if k
                            == i as int {
                            self.letters_info@[i as int]
                        } else {
                            pre[k]
                        }) by {
                            assert(self.letters_info@ == pre.remove(i as int).insert(
                                i as int,
                                self.letters_info@[i as int],
                            ));
                        }
                        assert(letters_view(self.letters_info@) =~= merge_one(cur, b[jj]));
                    }
                },
                None => {
                    let cp = other.letters_info[j].get_copy();
                    self.letters_info.push(cp);
                    proof {
                        assert(letters_view(self.letters_info@) =~= merge_one(cur, b[jj]));
                    }
                },
            }
            j = j + 1;
        }
        proof {
            assert(b.take(n as int) =~= b);
            assert(self@ =~= merge_results(old(self)@, other@));
        }
    }
}

// ---------------------------------------------------------------------------
// Display order: accuracy descending, letter ascending.
// ---------------------------------------------------------------------------
/// Display order of `(letter, accuracy)` pairs: higher accuracy first,
/// ties broken by the letter, ascending.
pub open spec fn disp_before(x: (char, u64), y: (char, u64)) -> bool {
    x.1 > y.1 || (x.1 == y.1 && (x.0 as u32) <= (y.0 as u32))
}

/// The sequence is in display order.
pub open spec fn disp_sorted(s: Seq<(char, u64)>) -> bool {
    forall|p: int, q: int| 0 <= p < q < s.len() ==> disp_before(#[trigger] s[p], #[trigger] s[q])
}

/// What inserting a fresh key anywhere does, pointwise.
pub proof fn lemma_dist_insert(d: Seq<(char, u64)>, i: int, p: (char, u64))
    requires
        keys_unique(d),
        find_idx(d, p.0) == -1,
        0 <= i <= d.len(),
    ensures
        keys_unique(d.insert(i, p)),
        count_of(d.insert(i, p), p.0) == p.1,
        find_idx(d.insert(i, p), p.0) == i,
        forall|x: char| x != p.0 ==> #[trigger] count_of(d.insert(i, p), x) == count_of(d, x),
        forall|x: char| x != p.0 ==> (#[trigger] find_idx(d.insert(i, p), x) == -1 <==> find_idx(
            d,
            x,
        ) == -1),
    decreases d.len(),
{
    lemma_find_idx(d, p.0);
    let r = d.insert(i, p);
    assert forall|k: int| 0 <= k < r.len() implies #[trigger] r[k] == (if k < i {
        d[k]
    } else if k == i {
        p
    } else {
        d[k - 1]
    }) by {}
    assert forall|a: int, b2: int| 0 <= a < b2 < r.len() implies (#[trigger] r[a]).0 != (
    #[trigger] r[b2]).0 by {
        if a == i || b2 == i {
        } else {
        }
    }
    lemma_find_idx_at(r, p.0, i);
    assert forall|x: char| x != p.0 implies (#[trigger] find_idx(r, x) == -1 <==> find_idx(d, x)
        == -1) && count_of(r, x) == count_of(d, x) by {
        lemma_find_idx(d, x);
        lemma_find_idx(r, x);
        if find_idx(d, x) != -1 {
            let f = find_idx(d, x);
            if f < i {
                lemma_find_idx_at(r, x, f);
            } else {
                assert forall|k: int| 0 <= k < f + 1 implies (#[trigger] r[k]).0 != x by {}
                lemma_find_idx_at(r, x, f + 1);
            }
        } else {
            if find_idx(r, x) != -1 {
                assert(r[find_idx(r, x)].0 == x);
                assert(false);
            }
        }
    }
    assert forall|x: char| x != p.0 implies (#[trigger] find_idx(r, x) == -1 <==> find_idx(d, x)
        == -1) by {
        assert(count_of(r, x) == count_of(d, x));
    }
}

/// Insert one pair with a fresh key into a vector kept in display order.
fn insert_sorted(out: &mut Vec<(char, u64)>, e: (char, u64))
    requires
        keys_unique(old(out)@),
        disp_sorted(old(out)@),
        find_idx(old(out)@, e.0) == -1,
    ensures
        final(out)@.len() == old(out)@.len() + 1,
        keys_unique(final(out)@),
        disp_sorted(final(out)@),
        count_of(final(out)@, e.0) == e.1,
        find_idx(final(out)@, e.0) != -1,
        forall|x: char| x != e.0 ==> #[trigger] count_of(final(out)@, x) == count_of(old(out)@, x),
        forall|x: char| x != e.0 ==> (#[trigger] find_idx(final(out)@, x) == -1 <==> find_idx(
            old(out)@,
            x,
        ) == -1),
{
    let n = out.len();
    let mut pos: usize = 0;
    while pos < n && !(e.1 > out[pos].1 || (e.1 == out[pos].1 && (e.0 as u32) <= (out[pos].0
        as u32)))
        invariant
            pos <= n,
            n == out.len(),
            forall|k: int| 0 <= k < pos ==> disp_before(#[trigger] out@[k], e),
        decreases n - pos,
    {
        pos = pos + 1;
    }
    proof {
        lemma_dist_insert(out@, pos as int, e);
    }
    let ghost pre = out@;
    out.insert(pos, e);
    proof {
        assert forall|p: int, q: int| 0 <= p < q < out@.len() implies disp_before(
            #[trigger] out@[p],
            #[trigger] out@[q],
        ) by {
            let i = pos as int;
            assert(out@[p] == (if p < i {
                pre[p]
            } else if p == i {
                e
            } else {
                pre[p - 1]
            }));
            assert(out@[q] == (if q < i {
                pre[q]
            } else if q == i {
                e
            } else {
                pre[q - 1]
            }));
        }
    }
}

/// Two keyed sequences with the same keys in the same positions are found
/// at the same positions.
pub proof fn lemma_find_aligned(s: Seq<(char, u64)>, ls: Seq<JSONLetterInfoV>, c: char)
    requires
        s.len() == ls.len(),
        forall|k: int| 0 <= k < s.len() ==> (#[trigger] s[k]).0 == ls[k].main,
    ensures
        find_idx(s, c) == find_main(ls, c),
    decreases s.len(),
{
    if s.len() > 0 && s[0].0 != c {
        let st = s.drop_first();
        let lt = ls.drop_first();
        assert forall|k: int| 0 <= k < st.len() implies (#[trigger] st[k]).0 == lt[k].main by {
            assert(st[k] == s[k + 1] && lt[k] == ls[k + 1]);
        }
        lemma_find_aligned(st, lt, c);
    }
}

/// Same, for two pair sequences.
pub proof fn lemma_find_aligned_pairs(s: Seq<(char, u64)>, d: Seq<(char, u64)>, c: char)
    requires
        s.len() == d.len(),
        forall|k: int| 0 <= k < s.len() ==> (#[trigger] s[k]).0 == d[k].0,
    ensures
        find_idx(s, c) == find_idx(d, c),
    decreases s.len(),
{
    if s.len() > 0 && s[0].0 != c {
        let st = s.drop_first();
        let dt = d.drop_first();
        assert forall|k: int| 0 <= k < st.len() implies (#[trigger] st[k]).0 == dt[k].0 by {
            assert(st[k] == s[k + 1] && dt[k] == d[k + 1]);
        }
        lemma_find_aligned_pairs(st, dt, c);
    }
}

/// Bring a vector of `(letter, accuracy)` pairs into display order.
fn sort_by_accuracy(pairs: &Vec<(char, u64)>) -> (r: Vec<(char, u64)>)
    requires
        keys_unique(pairs@),
    ensures
        r@.len() == pairs@.len(),
        keys_unique(r@),
        disp_sorted(r@),
        forall|x: char| #[trigger] count_of(r@, x) == count_of(pairs@, x),
        forall|x: char| (#[trigger] find_idx(r@, x) == -1 <==> find_idx(pairs@, x) == -1),
{
    let n = pairs.len();
    let mut out: Vec<(char, u64)> = Vec::new();
    let mut j: usize = 0;
    while j < n
        invariant
            j <= n,
            n == pairs.len(),
            keys_unique(pairs@),
            out@.len() == j,
            keys_unique(out@),
            disp_sorted(out@),
            forall|x: char| #[trigger] count_of(out@, x) == count_of(pairs@.take(j as int), x),
            forall|x: char| (#[trigger] find_idx(out@, x) == -1 <==> find_idx(
                pairs@.take(j as int),
                x,
            ) == -1),
        decreases n - j,
    {
        let e = pairs[j];
        let ghost jj = j as int;
        proof {
            assert forall|k: int| 0 <= k < jj implies (#[trigger] pairs@.take(jj)[k]).0 != e.0 by {
                assert(pairs@.take(jj)[k] == pairs@[k]);
            }
            lemma_find_idx(pairs@.take(jj), e.0);
            if find_idx(pairs@.take(jj), e.0) != -1 {
                assert(false);
            }
            assert forall|p: int, q: int| 0 <= p < q < jj implies (#[trigger] pairs@.take(
                jj,
            )[p]).0 != (#[trigger] pairs@.take(jj)[q]).0 by {
                assert(pairs@.take(jj)[p] == pairs@[p] && pairs@.take(jj)[q] == pairs@[q]);
            }
            lemma_dist_insert(pairs@.take(jj), jj, e);
            assert(pairs@.take(jj).insert(jj, e) =~= pairs@.take(jj + 1));
        }
        insert_sorted(&mut out, e);
        j = j + 1;
    }
    proof {
        assert(pairs@.take(n as int) =~= pairs@);
    }
    out
}

/// The reason a per-letter lookup can fail.
#[derive(Clone, Copy, PartialEq, Eq, Structural, Debug)]
pub enum ResultsError {
    /// No statistics were ever recorded for the requested letter.
    LetterNotFound,
}

impl ResultsError {
    /// A short description for the presentation layer.
    pub fn message(&self) -> (r: &'static str)
        ensures
            r@ == "We have no info about this letter :("@,
    {
        "We have no info about this letter :("
    }
}

impl JSONResults {
    /// Every letter's accuracy against itself, in display order.
    pub fn get_total_results(&self) -> (r: Vec<(char, u64)>)
        requires
            self@.wf(),
        ensures
            r@.len() == self@.letters.len(),
            keys_unique(r@),
            disp_sorted(r@),
            forall|c: char| (#[trigger] find_idx(r@, c) == -1 <==> find_main(self@.letters, c)
                == -1),
            forall|c: char| find_main(self@.letters, c) != -1 ==> #[trigger] count_of(r@, c)
                == perc_tenths(
                count_of(entry_of(self@.letters, c).dist, c),
                entry_of(self@.letters, c).presses as int,
            ),
    {
        let ghost ls = self@.letters;
        let n = self.letters_info.len();
        let mut pairs: Vec<(char, u64)> = Vec::new();
        let mut k: usize = 0;
        while k < n
            invariant
                k <= n,
                n == self.letters_info.len(),
                self@.wf(),
                ls == self@.letters,
                pairs@.len() == k,
                forall|i: int| #![trigger pairs@[i]]
                    0 <= i < k ==> pairs@[i].0 == ls[i].main && pairs@[i].1 == perc_tenths(
                        count_of(ls[i].dist, ls[i].main),
                        ls[i].presses as int,
                    ),
            decreases n - k,
        {
            let li = &self.letters_info[k];
            proof {
                assert(ls[k as int] == li@);
                assert(ls[k as int].complete());
            }
            let p = li.get_perc(li.main_letter);
            pairs.push((li.main_letter, p));
            k = k + 1;
        }
        proof {
            assert forall|i: int, j2: int| 0 <= i < j2 < pairs@.len() implies (
            #[trigger] pairs@[i]).0 != (#[trigger] pairs@[j2]).0 by {
                assert(pairs@[i].0 == ls[i].main && pairs@[j2].0 == ls[j2].main);
            }
        }
        let r = sort_by_accuracy(&pairs);
        proof {
            assert forall|c: char| true implies ((#[trigger] find_idx(r@, c) == -1 <==> find_main(
                ls,
                c,
            ) == -1) && (find_main(ls, c) != -1 ==> count_of(r@, c) == perc_tenths(
                count_of(entry_of(ls, c).dist, c),
                entry_of(ls, c).presses as int,
            ))) by {
                lemma_find_aligned(pairs@, ls, c);
                lemma_find_main(ls, c);
                if find_main(ls, c) != -1 {
                    assert(pairs@[find_main(ls, c)].1 == perc_tenths(
                        count_of(entry_of(ls, c).dist, c),
                        entry_of(ls, c).presses as int,
                    ));
                }
            }
        }
        r
    }

    /// The confusion distribution of one letter, each pressed character
    /// with its share, in display order.  Asking for a letter without
    /// recorded statistics is a reportable condition, not a crash.
    pub fn get_result_by_letter(&self, pressed_ch: char) -> (r: Result<
        Vec<(char, u64)>,
        ResultsError,
    >)
        requires
            self@.wf(),
        ensures
            r is Err <==> find_main(self@.letters, pressed_ch) == -1,
            r matches Err(e) ==> e == ResultsError::LetterNotFound,
            r matches Ok(v) ==> {
                let ent = entry_of(self@.letters, pressed_ch);
                &&& v@.len() == ent.dist.len()
                &&& keys_unique(v@)
                &&& disp_sorted(v@)
                &&& (forall|x: char| (#[trigger] find_idx(v@, x) == -1 <==> find_idx(ent.dist, x)
                    == -1))
                &&& (forall|x: char| find_idx(ent.dist, x) != -1 ==> #[trigger] count_of(v@, x)
                    == perc_tenths(count_of(ent.dist, x), ent.presses as int))
            },
    {
        let idx = match find_letter(&self.letters_info, pressed_ch) {
            Some(i) => i,
            None => {
                return Err(ResultsError::LetterNotFound);
            },
        };
        let ghost ent = entry_of(self@.letters, pressed_ch);
        let li = &self.letters_info[idx];
        proof {
            assert(li@ == ent);
            assert(ent.complete());
        }
        let n = li.letter_accuracies.len();
        let mut pairs: Vec<(char, u64)> = Vec::new();
        let mut k: usize = 0;
        while k < n
            invariant
                k <= n,
                n == li.letter_accuracies.len(),
                li@ == ent,
                ent.complete(),
                pairs@.len() == k,
                forall|i: int| #![trigger pairs@[i]]
                    0 <= i < k ==> pairs@[i].0 == ent.dist[i].0 && pairs@[i].1 == perc_tenths(
                        count_of(ent.dist, ent.dist[i].0),
                        ent.presses as int,
                    ),
            decreases n - k,
        {
            let x = li.letter_accuracies[k].0;
            proof {
                assert(x == ent.dist[k as int].0);
                assert forall|k2: int| 0 <= k2 < k as int implies (#[trigger] ent.dist[k2]).0
                    != x by {}
                lemma_find_idx_at(ent.dist, x, k as int);
            }
            let p = li.get_perc(x);
            pairs.push((x, p));
            k = k + 1;
        }
        proof {
            assert forall|i: int, j2: int| 0 <= i < j2 < pairs@.len() implies (
            #[trigger] pairs@[i]).0 != (#[trigger] pairs@[j2]).0 by {
                assert(pairs@[i].0 == ent.dist[i].0 && pairs@[j2].0 == ent.dist[j2].0);
            }
        }
        let v = sort_by_accuracy(&pairs);
        proof {
            assert forall|x: char| true implies ((#[trigger] find_idx(v@, x) == -1 <==> find_idx(
                ent.dist,
                x,
            ) == -1) && (find_idx(ent.dist, x) != -1 ==> count_of(v@, x) == perc_tenths(
                count_of(ent.dist, x),
                ent.presses as int,
            ))) by {
                lemma_find_aligned_pairs(pairs@, ent.dist, x);
                lemma_find_idx(ent.dist, x);
                if find_idx(ent.dist, x) != -1 {
                    assert(pairs@[find_idx(ent.dist, x)].1 == perc_tenths(
                        count_of(ent.dist, x),
                        ent.presses as int,
                    ));
                }
            }
        }
        Ok(v)
    }

    /// Decide whether this document is well formed: accuracy within range,
    /// one record per letter, every record consistent.
    pub fn check_wf(&self) -> (r: bool)
        ensures
            r == self@.wf(),
    {
        if self.total_accuracy_tenths > 1000 {
            return false;
        }
        let n = self.letters_info.len();
        let ghost lv = letters_view(self.letters_info@);
        proof {
            lemma_letters_view(self.letters_info@);
        }
        let mut j: usize = 0;
        while j < n
            invariant
                j <= n,
                n == self.letters_info.len(),
                lv == letters_view(self.letters_info@),
                lv.len() == n,
                forall|k: int| 0 <= k < n ==> #[trigger] lv[k] == self.letters_info@[k]@,
                forall|j2: int| 0 <= j2 < j ==> (#[trigger] lv[j2]).complete(),
                forall|j2: int| 0 <= j2 < j ==> #[trigger] find_main(lv, lv[j2].main) == j2,
            decreases n - j,
        {
            let li = &self.letters_info[j];
            if !li.check_complete() {
                proof {
                    assert(lv[j as int] == li@);
                    assert(!lv[j as int].complete());
                    assert(!letters_wf(lv));
                }
                return false;
            }
            match find_letter(&self.letters_info, li.main_letter) {
                Some(i) => {
                    if i != j {
                        proof {
                            lemma_find_main(lv, li@.main);
                            assert(lv[i as int].main == li@.main && lv[j as int].main == li@.main);
                            assert((i as int) < (j as int));
                        }
                        return false;
                    }
                },
                None => {
                    proof {
                        lemma_find_main(lv, li@.main);
                        assert(lv[j as int].main == li@.main);
                        assert(false);
                    }
                    return false;
                },
            }
            j = j + 1;
        }
        proof {
            assert forall|p: int, q: int| 0 <= p < q < lv.len() implies (#[trigger] lv[p]).main
                != (#[trigger] lv[q]).main by {
                if lv[p].main == lv[q].main {
                    assert(find_main(lv, lv[p].main) == p && find_main(lv, lv[q].main) == q);
                }
            }
        }
        true
    }

    /// Whether folding `other` into `self` stays within the machine word.
    pub fn can_merge(&self, other: &JSONResults) -> (r: bool)
        ensures
            r == merge_fits(self@, other@),
    {
        if !(self.wpm_milli <= u64::MAX - other.wpm_milli) {
            proof {
                assert(!merge_fits(self@, other@));
            }
            return false;
        }
        let n = other.letters_info.len();
        let mut j: usize = 0;
        while j < n
            invariant
                j <= n,
                n == other.letters_info.len(),
                self@.wpm_milli + other@.wpm_milli <= u64::MAX,
                forall|p: int|
                    0 <= p < j ==> (find_main(self@.letters, (#[trigger] other@.letters[p]).main)
                        != -1 ==> entry_of(self@.letters, other@.letters[p].main).presses
                        + other@.letters[p].presses <= u64::MAX),
            decreases n - j,
        {
            let e = &other.letters_info[j];
            match find_letter(&self.letters_info, e.main_letter) {
                Some(i) => {
                    let pa = self.letters_info[i].presses_of_key;
                    proof {
                        lemma_find_main(self@.letters, e@.main);
                        assert(self@.letters[i as int].presses == pa);
                        assert(entry_of(self@.letters, e@.main).presses == pa);
                    }
                    if !(pa <= u64::MAX - e.presses_of_key) {
                        proof {
                            assert(0 <= j < other@.letters.len());
                            assert(find_main(self@.letters, other@.letters[j as int].main) != -1);
                            assert(entry_of(self@.letters, other@.letters[j as int].main).presses
                                + other@.letters[j as int].presses > u64::MAX);
                            assert(!letters_merge_fits(self@.letters, other@.letters));
                        }
                        return false;
                    }
                },
                None => {},
            }
            j = j + 1;
        }
        true
    }
}

} // verus!

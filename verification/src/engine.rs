//! The typing-session engine.
//!
//! A session presents a fixed, non-empty text sample; keystrokes arrive one
//! character at a time and are matched against the character under the
//! cursor.  A correct keystroke advances the cursor, an incorrect one
//! leaves it in place, and the keystroke that confirms the last character
//! finishes the session and produces its result.  Every keystroke is
//! recorded under the letter that was expected when it was typed.
//!
//! Time is injected by the caller: each keystroke carries a millisecond
//! timestamp, so session duration, and with it typing speed, is computed
//! from plain values.

use vstd::prelude::*;

use crate::letter_stats::add_count;
use crate::letter_stats::count_of;
use crate::letter_stats::dist_sum;
use crate::letter_stats::find_idx;
use crate::letter_stats::keys_unique;
use crate::letter_stats::lemma_add_count;
use crate::letter_stats::lemma_count_le_sum;
use crate::letter_stats::lemma_find_idx;
use crate::letter_stats::lemma_find_idx_at;
use crate::letter_stats::lemma_perc_tenths_bounds;
use crate::letter_stats::perc_tenths;
use crate::letter_stats::round_div;
use crate::letter_stats::LetterInfo;
use crate::letter_stats::LetterInfoV;
use crate::results::letters_view;
use crate::results::JSONLetterInfo;
use crate::results::JSONLetterInfoV;
use crate::results::JSONResults;
use crate::results::JSONResultsV;

verus! {

/// The longest sample the engine accepts; keeps all derived quantities,
/// speed in particular, within a machine word.
pub const MAX_SAMPLE_LEN: usize = 1000000000;

/// Outcome of one keystroke.
#[derive(Clone, Copy, PartialEq, Eq, Structural, Debug)]
pub enum Outcome {
    /// Correct, and a next character is waiting.
    Advanced,
    /// Incorrect; the cursor stays where it was.
    Mismatched,
    /// Correct, and it was the last character: the session is over.
    Finished,
}

/// What the last keystroke of the session was; drives render coloring.
#[derive(Clone, Copy, PartialEq, Eq, Structural, Debug)]
pub enum LastOutcome {
    /// No keystroke has been made yet this session.
    Untyped,
    Correct,
    Incorrect,
}

/// Lifecycle of the engine.
#[derive(Clone, Copy, PartialEq, Eq, Structural, Debug)]
pub enum EngineState {
    /// No sample has been loaded yet.
    Idle,
    InProgress,
    Completed,
}

// ---------------------------------------------------------------------------
// Word counting.
// ---------------------------------------------------------------------------
/// The whitespace that separates words of a sample.
pub open spec fn is_space(c: char) -> bool {
    c == ' ' || c == '\t' || c == '\n' || c == '\r'
}

/// Number of words in what is left of the sample; `in_word` says whether a
/// word was already open just before it.
pub open spec fn word_count_from(s: Seq<char>, in_word: bool) -> int
    decreases s.len(),
{
    if s.len() == 0 {
        0
    } else if is_space(s[0]) {
        word_count_from(s.drop_first(), false)
    } else if in_word {
        word_count_from(s.drop_first(), true)
    } else {
        1 + word_count_from(s.drop_first(), true)
    }
}

/// Number of whitespace-delimited words in the sample.
pub open spec fn word_count(s: Seq<char>) -> int {
    word_count_from(s, false)
}

/// There are never more words than characters.
pub proof fn lemma_word_count_le(s: Seq<char>, in_word: bool)
    ensures
        0 <= word_count_from(s, in_word) <= s.len(),
    decreases s.len(),
{
    if s.len() > 0 {
        lemma_word_count_le(s.drop_first(), false);
        lemma_word_count_le(s.drop_first(), true);
    }
}

fn is_space_char(c: char) -> (r: bool)
    ensures
        r == is_space(c),
{
    c == ' ' || c == '\t' || c == '\n' || c == '\r'
}

/// Count the whitespace-delimited words of the sample.
pub fn count_words(sample: &Vec<char>) -> (r: usize)
    ensures
        r == word_count(sample@),
        r <= sample.len(),
{
    let n = sample.len();
    let mut count: usize = 0;
    let mut in_word: bool = false;
    let mut i: usize = 0;
    proof {
        lemma_word_count_le(sample@, false);
        assert(sample@.skip(0) =~= sample@);
    }
    while i < n
        invariant
            i <= n,
            n == sample.len(),
            count <= i,
            count + word_count_from(sample@.skip(i as int), in_word) == word_count(sample@),
            word_count(sample@) <= n,
        decreases n - i,
    {
        let ghost pre = sample@.skip(i as int);
        proof {
            assert(pre[0] == sample@[i as int]);
            assert(pre.drop_first() =~= sample@.skip(i as int + 1));
            lemma_word_count_le(pre.drop_first(), false);
            lemma_word_count_le(pre.drop_first(), true);
        }
        let c = sample[i];
        if is_space_char(c) {
            in_word = false;
        } else {
            if !in_word {
                count = count + 1;
            }
            in_word = true;
        }
        i = i + 1;
    }
    proof {
        assert(sample@.skip(n as int) =~= Seq::<char>::empty());
    }
    count
}

// ---------------------------------------------------------------------------
// Speed and accuracy.
// ---------------------------------------------------------------------------
/// Milliseconds between the first keystroke and now; a clock that moved
/// backwards counts as no time at all.
pub open spec fn elapsed_ms(start: u64, now: u64) -> int {
    if now >= start {
        now - start
    } else {
        0
    }
}

/// Words per minute in thousandths: the words of the sample, scaled to a
/// minute, rounded to a tenth of a word per minute.  Zero elapsed time
/// yields zero rather than a division by zero.
pub open spec fn wpm_milli_of(words: int, elapsed: int) -> int {
    if elapsed <= 0 {
        0
    } else {
        100 * round_div(words * 600000, elapsed)
    }
}

/// Speed stays within a machine word for any sample the engine accepts.
pub proof fn lemma_wpm_milli_bounds(words: int, elapsed: int)
    requires
        0 <= words <= MAX_SAMPLE_LEN,
    ensures
        0 <= wpm_milli_of(words, elapsed) <= u64::MAX,
{
    if elapsed > 0 {
        let a = words * 600000;
        assert(0 <= words * 600000 <= 600000000000000) by (nonlinear_arith)
            requires
                0 <= words <= 1000000000,
        ;
        vstd::arithmetic::div_mod::lemma_div_pos_is_pos(2 * a + elapsed, 2 * elapsed);
        assert((2 * (words * 600000) + elapsed) <= (2 * elapsed) * (words * 600000 + 1))
            by (nonlinear_arith)
            requires
                0 <= words,
                1 <= elapsed,
        ;
        vstd::arithmetic::div_mod::lemma_div_is_ordered(
            2 * a + elapsed,
            (2 * elapsed) * (a + 1),
            2 * elapsed,
        );
        vstd::arithmetic::div_mod::lemma_div_multiples_vanish(a + 1, 2 * elapsed);
    }
}

// ---------------------------------------------------------------------------
// The per-session statistics table.
// ---------------------------------------------------------------------------
/// All per-letter records of the running session are well formed.
pub open spec fn stats_wf(stats: Seq<(char, LetterInfoV)>) -> bool {
    keys_unique(stats) && forall|k: int| 0 <= k < stats.len() ==> (#[trigger] stats[k]).1.wf()
}

/// Total number of keystrokes recorded over all expected letters.
pub open spec fn stats_total(stats: Seq<(char, LetterInfoV)>) -> int
    decreases stats.len(),
{
    if stats.len() == 0 {
        0
    } else {
        stats[0].1.presses + stats_total(stats.drop_first())
    }
}

/// No single letter holds more keystrokes than the whole session.
pub proof fn lemma_entry_presses_le_total(stats: Seq<(char, LetterInfoV)>, k: int)
    requires
        0 <= k < stats.len(),
    ensures
        stats[k].1.presses <= stats_total(stats),
        stats_total(stats) >= 0,
    decreases stats.len(),
{
    lemma_stats_total_nonneg(stats.drop_first());
    if k > 0 {
        lemma_entry_presses_le_total(stats.drop_first(), k - 1);
    }
}

pub proof fn lemma_stats_total_nonneg(stats: Seq<(char, LetterInfoV)>)
    ensures
        stats_total(stats) >= 0,
    decreases stats.len(),
{
    if stats.len() > 0 {
        lemma_stats_total_nonneg(stats.drop_first());
    }
}

/// Appending a record adds its presses to the total.
pub proof fn lemma_stats_total_push(stats: Seq<(char, LetterInfoV)>, p: (char, LetterInfoV))
    ensures
        stats_total(stats.push(p)) == stats_total(stats) + p.1.presses,
    decreases stats.len(),
{
    if stats.len() == 0 {
        assert(stats.push(p).drop_first() =~= Seq::<(char, LetterInfoV)>::empty());
        assert(stats_total(Seq::<(char, LetterInfoV)>::empty()) == 0);
    } else {
        assert(stats.push(p).drop_first() =~= stats.drop_first().push(p));
        lemma_stats_total_push(stats.drop_first(), p);
    }
}

/// Replacing a record changes the total by the difference in presses.
pub proof fn lemma_stats_total_update(
    stats: Seq<(char, LetterInfoV)>,
    i: int,
    p: (char, LetterInfoV),
)
    requires
        0 <= i < stats.len(),
    ensures
        stats_total(stats.update(i, p)) == stats_total(stats) - stats[i].1.presses + p.1.presses,
    decreases stats.len(),
{
    if i == 0 {
        assert(stats.update(0, p).drop_first() =~= stats.drop_first());
    } else {
        assert(stats.update(i, p).drop_first() =~= stats.drop_first().update(i - 1, p));
        lemma_stats_total_update(stats.drop_first(), i - 1, p);
    }
}

/// Record one keystroke, `pressed`, under the letter that was expected.
pub open spec fn record_press(
    stats: Seq<(char, LetterInfoV)>,
    expected: char,
    pressed: char,
) -> Seq<(char, LetterInfoV)> {
    let i = find_idx(stats, expected);
    if i == -1 {
        stats.push((expected, LetterInfoV { presses: 1u64, dist: seq![(pressed, 1u64)] }))
    } else {
        stats.update(
            i,
            (
                expected,
                LetterInfoV {
                    presses: (stats[i].1.presses + 1) as u64,
                    dist: add_count(stats[i].1.dist, pressed, 1),
                },
            ),
        )
    }
}

/// What `record_press` does: the expected letter's record gains this
/// keystroke, all other records are untouched.
pub proof fn lemma_record_press(stats: Seq<(char, LetterInfoV)>, expected: char, pressed: char)
    requires
        stats_wf(stats),
        stats_total(stats) < u64::MAX,
    ensures
        stats_wf(record_press(stats, expected, pressed)),
        stats_total(record_press(stats, expected, pressed)) == stats_total(stats) + 1,
        find_idx(record_press(stats, expected, pressed), expected) != -1,
        find_idx(record_press(stats, expected, pressed), expected) == (if find_idx(
            stats,
            expected,
        ) == -1 {
            stats.len() as int
        } else {
            find_idx(stats, expected)
        }),
        forall|x: char| x != expected ==> (#[trigger] find_idx(
            record_press(stats, expected, pressed),
            x,
        ) == -1 <==> find_idx(stats, x) == -1),
        forall|x: char| x != expected && find_idx(stats, x) != -1 ==> #[trigger] record_press(
            stats,
            expected,
            pressed,
        )[find_idx(stats, x)] == stats[find_idx(stats, x)],
        forall|x: char| x != expected ==> #[trigger] find_idx(
            record_press(stats, expected, pressed),
            x,
        ) == find_idx(stats, x),
        ({
            let r = record_press(stats, expected, pressed);
            let e = r[find_idx(r, expected)].1;
            &&& r[find_idx(r, expected)].0 == expected
            &&& count_of(e.dist, pressed) == (if find_idx(stats, expected) == -1 {
                1int
            } else {
                count_of(stats[find_idx(stats, expected)].1.dist, pressed) + 1
            })
            &&& (forall|y: char| y != pressed ==> #[trigger] count_of(e.dist, y) == (if find_idx(
                stats,
                expected,
            ) == -1 {
                0int
            } else {
                count_of(stats[find_idx(stats, expected)].1.dist, y)
            }))
            &&& e.presses == (if find_idx(stats, expected) == -1 {
                1int
            } else {
                stats[find_idx(stats, expected)].1.presses + 1
            })
        }),
{
    let i = find_idx(stats, expected);
    lemma_find_idx(stats, expected);
    let r = record_press(stats, expected, pressed);
    if i == -1 {
        let fresh = LetterInfoV { presses: 1u64, dist: seq![(pressed, 1u64)] };
        assert(fresh.wf()) by {
            assert(fresh.dist.drop_first() =~= Seq::<(char, u64)>::empty());
            assert(dist_sum(Seq::<(char, u64)>::empty()) == 0);
        }
        lemma_stats_total_push(stats, (expected, fresh));
        assert forall|x: char| true implies #[trigger] find_idx(r, x) == (if find_idx(stats, x)
            == -1 {
            if x == expected {
                stats.len() as int
            } else {
                -1int
            }
        } else {
            find_idx(stats, x)
        }) by {
            lemma_find_idx(stats, x);
            if find_idx(stats, x) == -1 {
                if x == expected {
                    lemma_find_idx_at(r, x, stats.len() as int);
                } else {
                    lemma_find_idx(r, x);
                    if find_idx(r, x) != -1 {
                        assert(r[find_idx(r, x)].0 == x);
                        assert(false);
                    }
                }
            } else {
                lemma_find_idx_at(r, x, find_idx(stats, x));
            }
        }
        assert(stats_wf(r)) by {
            assert forall|p: int, q: int| 0 <= p < q < r.len() implies (#[trigger] r[p]).0 != (
            #[trigger] r[q]).0 by {
                if q == stats.len() as int {
                    if r[p].0 == expected {
                        lemma_find_idx_at(stats, expected, p);
                    }
                }
            }
            assert forall|k: int| 0 <= k < r.len() implies (#[trigger] r[k]).1.wf() by {
                if k < stats.len() as int {
                    assert(r[k] == stats[k]);
                }
            }
        }
        assert forall|x: char|
            x != expected && find_idx(stats, x) != -1 implies #[trigger] r[find_idx(stats, x)]
            == stats[find_idx(stats, x)] by {
            lemma_find_idx(stats, x);
        }
        assert(count_of(fresh.dist, pressed) == 1) by {
            lemma_find_idx_at(fresh.dist, pressed, 0);
        }
        assert forall|y: char| y != pressed implies #[trigger] count_of(fresh.dist, y) == 0 by {
            lemma_find_idx(fresh.dist, y);
            if find_idx(fresh.dist, y) != -1 {
                assert(fresh.dist[find_idx(fresh.dist, y)].0 == y);
                assert(false);
            }
        }
    } else {
        let m = stats[i].1;
        assert(m.wf());
        assert(count_of(m.dist, pressed) + 1 <= u64::MAX) by {
            lemma_find_idx(m.dist, pressed);
            if find_idx(m.dist, pressed) != -1 {
                lemma_count_le_sum(m.dist, find_idx(m.dist, pressed));
            }
            lemma_entry_presses_le_total(stats, i);
        }
        lemma_add_count(m.dist, pressed, 1);
        let upd = (
            expected,
            LetterInfoV { presses: (m.presses + 1) as u64, dist: add_count(m.dist, pressed, 1) },
        );
        lemma_entry_presses_le_total(stats, i);
        lemma_stats_total_update(stats, i, upd);
        assert forall|x: char| true implies #[trigger] find_idx(r, x) == find_idx(stats, x) by {
            lemma_find_idx(stats, x);
            if find_idx(stats, x) == -1 {
                lemma_find_idx(r, x);
                if find_idx(r, x) != -1 {
                    assert(r[find_idx(r, x)].0 == x);
                    assert(stats[find_idx(r, x)].0 == x || find_idx(r, x) == i);
                    assert(false);
                }
            } else {
                assert(r[find_idx(stats, x)].0 == x);
                lemma_find_idx_at(r, x, find_idx(stats, x));
            }
        }
        assert(stats_wf(r)) by {
            assert(forall|k: int| 0 <= k < r.len() ==> (#[trigger] r[k]).0 == stats[k].0);
            assert forall|k: int| 0 <= k < r.len() implies (#[trigger] r[k]).1.wf() by {
                if k != i {
                    assert(r[k] == stats[k]);
                }
            }
        }
        assert forall|x: char|
            x != expected && find_idx(stats, x) != -1 implies #[trigger] r[find_idx(stats, x)]
            == stats[find_idx(stats, x)] by {
            lemma_find_idx(stats, x);
            assert(find_idx(stats, x) != i);
        }
    }
}

// ---------------------------------------------------------------------------
// The abstract engine.
// ---------------------------------------------------------------------------
/// `c` occurs among the first `upto` characters of `s`.
pub open spec fn appears_in(s: Seq<char>, upto: int, c: char) -> bool {
    exists|i: int| 0 <= i < upto && s[i] == c
}

/// One session record as a result-document record.
pub open spec fn entry_json_v(p: (char, LetterInfoV)) -> JSONLetterInfoV {
    JSONLetterInfoV { main: p.0, presses: p.1.presses, dist: p.1.dist }
}

/// The per-letter records of a finished session, in the order the letters
/// were first pressed.
pub open spec fn session_letters(stats: Seq<(char, LetterInfoV)>) -> Seq<JSONLetterInfoV>
    decreases stats.len(),
{
    if stats.len() == 0 {
        Seq::empty()
    } else {
        seq![entry_json_v(stats[0])] + session_letters(stats.drop_first())
    }
}

/// The records of a finished session, record by record.
pub proof fn lemma_session_letters(stats: Seq<(char, LetterInfoV)>)
    ensures
        session_letters(stats).len() == stats.len(),
        forall|k: int|
            0 <= k < stats.len() ==> #[trigger] session_letters(stats)[k] == entry_json_v(
                stats[k],
            ),
    decreases stats.len(),
{
    if stats.len() > 0 {
        let t = stats.drop_first();
        lemma_session_letters(t);
        assert forall|k: int|
            0 <= k < stats.len() implies #[trigger] session_letters(stats)[k] == entry_json_v(
            stats[k],
        ) by {
            if k > 0 {
                assert(session_letters(stats)[k] == session_letters(t)[k - 1]);
                assert(t[k - 1] == stats[k]);
            }
        }
    }
}

/// The result document of a finished session.
pub open spec fn finalize_spec(
    sample: Seq<char>,
    stats: Seq<(char, LetterInfoV)>,
    presses: int,
    start: u64,
    now: u64,
) -> JSONResultsV {
    JSONResultsV {
        wpm_milli: wpm_milli_of(word_count(sample), elapsed_ms(start, now)) as u64,
        acc_tenths: perc_tenths(sample.len() as int, presses) as u64,
        letters: session_letters(stats),
    }
}

/// The abstract state of the typing engine.
#[verifier::ext_equal]
pub ghost struct EngineModel {
    pub state: EngineState,
    pub sample: Seq<char>,
    pub guessed: int,
    pub presses: int,
    pub last: LastOutcome,
    pub start_time: Option<u64>,
    pub stats: Seq<(char, LetterInfoV)>,
    pub result: Option<JSONResultsV>,
}

/// The moment of the first keystroke; meaningful once it was recorded.
pub open spec fn start_of(m: EngineModel) -> u64 {
    match m.start_time {
        Some(t) => t,
        None => 0,
    }
}

impl EngineModel {
    /// The character the next correct keystroke has to be.
    pub open spec fn expected(self) -> char {
        self.sample[self.guessed]
    }

    /// How the statistics table relates to the sample: records exist
    /// exactly for expected letters seen so far, every letter advanced
    /// past has a record, and that record holds at least one correct
    /// press.
    pub open spec fn stats_covered(self) -> bool {
        let bound = if self.guessed < self.sample.len() {
            self.guessed + 1
        } else {
            self.guessed
        };
        &&& (forall|k: int|
            0 <= k < self.stats.len() ==> appears_in(
                self.sample,
                bound,
                (#[trigger] self.stats[k]).0,
            ))
        &&& (forall|i: int|
            0 <= i < self.guessed ==> find_idx(self.stats, #[trigger] self.sample[i]) != -1)
        &&& (forall|k: int|
            0 <= k < self.stats.len() && appears_in(
                self.sample,
                self.guessed,
                (#[trigger] self.stats[k]).0,
            ) ==> count_of(self.stats[k].1.dist, self.stats[k].0) >= 1)
    }

    /// The engine's invariant.
    pub open spec fn inv(self) -> bool {
        &&& (self.result matches Some(r) ==> r.wf())
        &&& if self.state == EngineState::Idle {
            &&& self.sample.len() == 0
            &&& self.guessed == 0
            &&& self.presses == 0
            &&& self.last == LastOutcome::Untyped
            &&& self.start_time is None
            &&& self.stats.len() == 0
            &&& self.result is None
        } else {
            &&& 1 <= self.sample.len() <= MAX_SAMPLE_LEN
            &&& (self.state == EngineState::InProgress ==> 0 <= self.guessed < self.sample.len())
            &&& (self.state == EngineState::Completed ==> self.guessed == self.sample.len()
                && self.result is Some && self.last == LastOutcome::Correct)
            &&& stats_wf(self.stats)
            &&& stats_total(self.stats) == self.presses
            &&& self.guessed <= self.presses
            &&& (self.start_time is None <==> self.presses == 0)
            &&& self.stats_covered()
        }
    }
}

/// A freshly (re)started session on `sample`, keeping `result` around.
pub open spec fn fresh_model(sample: Seq<char>, result: Option<JSONResultsV>) -> EngineModel {
    EngineModel {
        state: EngineState::InProgress,
        sample: sample,
        guessed: 0,
        presses: 0,
        last: LastOutcome::Untyped,
        start_time: None,
        stats: Seq::empty(),
        result: result,
    }
}

/// One keystroke, as a function from engine state to engine state and
/// outcome.
pub open spec fn guess_spec(m: EngineModel, pressed: char, now: u64) -> (EngineModel, Outcome) {
    let st = if m.start_time is None {
        Some(now)
    } else {
        m.start_time
    };
    let stats1 = record_press(m.stats, m.expected(), pressed);
    if pressed == m.expected() {
        if m.guessed + 1 < m.sample.len() {
            (
                EngineModel {
                    state: EngineState::InProgress,
                    sample: m.sample,
                    guessed: m.guessed + 1,
                    presses: m.presses + 1,
                    last: LastOutcome::Correct,
                    start_time: st,
                    stats: stats1,
                    result: m.result,
                },
                Outcome::Advanced,
            )
        } else {
            let start = match st {
                Some(t) => t,
                None => now,
            };
            (
                EngineModel {
                    state: EngineState::Completed,
                    sample: m.sample,
                    guessed: m.guessed + 1,
                    presses: m.presses + 1,
                    last: LastOutcome::Correct,
                    start_time: st,
                    stats: stats1,
                    result: Some(finalize_spec(m.sample, stats1, m.presses + 1, start, now)),
                },
                Outcome::Finished,
            )
        }
    } else {
        (
            EngineModel {
                state: m.state,
                sample: m.sample,
                guessed: m.guessed,
                presses: m.presses + 1,
                last: LastOutcome::Incorrect,
                start_time: st,
                stats: stats1,
                result: m.result,
            },
            Outcome::Mismatched,
        )
    }
}

/// The result document of a finished session is well formed.
pub proof fn lemma_finalize_wf(
    sample: Seq<char>,
    stats: Seq<(char, LetterInfoV)>,
    presses: int,
    start: u64,
    now: u64,
)
    requires
        stats_wf(stats),
        1 <= sample.len() <= MAX_SAMPLE_LEN,
        sample.len() <= presses,
        forall|k: int|
            0 <= k < stats.len() ==> count_of((#[trigger] stats[k]).1.dist, stats[k].0) >= 1,
    ensures
        finalize_spec(sample, stats, presses, start, now).wf(),
        finalize_spec(sample, stats, presses, start, now).acc_tenths == perc_tenths(
            sample.len() as int,
            presses,
        ),
        finalize_spec(sample, stats, presses, start, now).wpm_milli == wpm_milli_of(
            word_count(sample),
            elapsed_ms(start, now),
        ),
{
    lemma_perc_tenths_bounds(sample.len() as int, presses);
    lemma_word_count_le(sample, false);
    lemma_wpm_milli_bounds(word_count(sample), elapsed_ms(start, now));
    let ls = session_letters(stats);
    lemma_session_letters(stats);
    assert(ls.len() == stats.len());
    assert forall|p: int, q: int| 0 <= p < q < ls.len() implies (#[trigger] ls[p]).main != (
    #[trigger] ls[q]).main by {
        assert(ls[p] == entry_json_v(stats[p]) && ls[q] == entry_json_v(stats[q]));
    }
    assert forall|k: int| 0 <= k < ls.len() implies (#[trigger] ls[k]).complete() by {
        assert(ls[k] == entry_json_v(stats[k]));
        assert(stats[k].1.wf());
        assert(count_of(stats[k].1.dist, stats[k].0) >= 1);
    }
}

/// One keystroke preserves the invariant, and the outcome is what the
/// cursor position dictates.
pub proof fn lemma_guess_spec(m: EngineModel, pressed: char, now: u64)
    requires
        m.inv(),
        m.state == EngineState::InProgress,
        m.presses < u64::MAX,
    ensures
        ({
            let (m2, o) = guess_spec(m, pressed, now);
            &&& m2.inv()
            &&& m2.sample == m.sample
            &&& m2.presses == m.presses + 1
            &&& m2.result is Some ==> m2.result->0.wf()
            &&& (o == Outcome::Mismatched <==> pressed != m.expected())
            &&& (o == Outcome::Mismatched ==> m2.guessed == m.guessed && m2.state
                == EngineState::InProgress && m2.result == m.result)
            &&& (o == Outcome::Advanced <==> pressed == m.expected() && m.guessed + 1
                < m.sample.len())
            &&& (o == Outcome::Advanced ==> m2.guessed == m.guessed + 1 && m2.state
                == EngineState::InProgress && m2.result == m.result)
            &&& (o == Outcome::Finished <==> pressed == m.expected() && m.guessed
                == m.sample.len() - 1)
            &&& (o == Outcome::Finished ==> m2.state == EngineState::Completed && m2.guessed
                == m.sample.len() && m2.result == Some(
                finalize_spec(
                    m.sample,
                    m2.stats,
                    m.presses + 1,
                    (if m.start_time is None {
                        now
                    } else {
                        start_of(m)
                    }),
                    now,
                ),
            ))
        }),
{
    let (m2, o) = guess_spec(m, pressed, now);
    let expected = m.expected();
    lemma_record_press(m.stats, expected, pressed);
    let stats1 = record_press(m.stats, expected, pressed);
    let oldi = find_idx(m.stats, expected);
    lemma_find_idx(m.stats, expected);
    // Keys of the new table come from one more character of the sample.
    let bound2 = if m2.guessed < m.sample.len() {
        m2.guessed + 1
    } else {
        m2.guessed
    };
    assert forall|k: int| 0 <= k < stats1.len() implies appears_in(
        m.sample,
        bound2,
        (#[trigger] stats1[k]).0,
    ) by {
        if k < m.stats.len() {
            assert(stats1[k].0 == m.stats[k].0);
            assert(appears_in(m.sample, m.guessed + 1, m.stats[k].0));
        } else {
            assert(stats1[k].0 == expected);
            assert(m.sample[m.guessed] == expected);
            assert(appears_in(m.sample, m.guessed + 1, expected));
        }
    }
    // Every advanced-past letter still has a record.
    assert forall|i: int| 0 <= i < m2.guessed implies find_idx(
        m2.stats,
        #[trigger] m.sample[i],
    ) != -1 by {
        let c = m.sample[i];
        if c == expected {
            assert(find_idx(stats1, expected) != -1);
        } else {
            assert(i < m.guessed);
            assert(find_idx(m.stats, c) != -1);
            assert(find_idx(stats1, c) == find_idx(m.stats, c));
        }
    }
    // Every advanced-past letter's record holds a correct press.
    assert forall|k: int|
        0 <= k < stats1.len() && appears_in(
            m.sample,
            m2.guessed,
            (#[trigger] stats1[k]).0,
        ) implies count_of(stats1[k].1.dist, stats1[k].0) >= 1 by {
        let c = stats1[k].0;
        if k < m.stats.len() {
            assert(c == m.stats[k].0);
            if k == oldi {
                // The expected letter's own record.
                assert(find_idx(stats1, expected) == oldi);
                if pressed == expected {
                    assert(count_of(stats1[k].1.dist, pressed) >= 1);
                } else {
                    // Cursor unchanged; the record already held a correct
                    // press if its letter was advanced past.
                    if appears_in(m.sample, m.guessed, c) {
                        assert(count_of(m.stats[k].1.dist, c) >= 1);
                        assert(count_of(stats1[k].1.dist, c) >= count_of(m.stats[k].1.dist, c));
                    } else {
                        // Only the current expected letter remains; the
                        // prefix did not grow on a mismatch.
                        assert(m2.guessed == m.guessed);
                        assert(false);
                    }
                }
            } else {
                assert(stats1[k] == m.stats[k]);
                if appears_in(m.sample, m.guessed, c) {
                } else {
                    // c occurs first at the cursor itself; but then its
                    // record would be the expected letter's record.
                    let w = choose|i: int| 0 <= i < m2.guessed && m.sample[i] == c;
                    assert(w == m.guessed);
                    assert(c == expected);
                    assert(find_idx(m.stats, c) == oldi);
                    lemma_find_idx_at(m.stats, c, k);
                    assert(false);
                }
            }
        } else {
            // The freshly pushed record is the expected letter's.
            assert(c == expected);
            if pressed == expected {
                assert(count_of(stats1[k].1.dist, pressed) >= 1);
            } else {
                // A mismatch cannot create the record of a letter that was
                // already advanced past: that record would already exist.
                let w = choose|i: int| 0 <= i < m2.guessed && m.sample[i] == c;
                assert(w < m.guessed);
                assert(find_idx(m.stats, c) != -1);
                assert(false);
            }
        }
    }
    if pressed == expected && m.guessed + 1 == m.sample.len() {
        lemma_finalize_wf(
            m.sample,
            stats1,
            m.presses + 1,
            (if m.start_time is None {
                now
            } else {
                start_of(m)
            }),
            now,
        );
    }
}


/// In every reachable engine state, each letter's recorded counts add up
/// to that letter's press total, and the accuracy derived from them is a
/// percentage between 0 and 100.
pub proof fn lemma_letter_stats_consistent(m: EngineModel, k: int)
    requires
        m.inv(),
        m.state != EngineState::Idle,
        0 <= k < m.stats.len(),
    ensures
        dist_sum(m.stats[k].1.dist) == m.stats[k].1.presses,
        0 <= perc_tenths(count_of(m.stats[k].1.dist, m.stats[k].0), m.stats[k].1.presses as int)
            <= 1000,
{
    let e = m.stats[k].1;
    lemma_find_idx(e.dist, m.stats[k].0);
    if find_idx(e.dist, m.stats[k].0) != -1 {
        lemma_count_le_sum(e.dist, find_idx(e.dist, m.stats[k].0));
    }
    lemma_perc_tenths_bounds(count_of(e.dist, m.stats[k].0), e.presses as int);
}

// ---------------------------------------------------------------------------
// Whole runs of the engine.
// ---------------------------------------------------------------------------
/// The engine fed a whole keystroke sequence, one character after the
/// other, all carrying time `now`.
pub open spec fn run_guesses(m: EngineModel, inputs: Seq<char>, now: u64) -> (
    EngineModel,
    Seq<Outcome>,
)
    decreases inputs.len(),
{
    if inputs.len() == 0 {
        (m, Seq::empty())
    } else {
        let stepped = guess_spec(m, inputs[0], now);
        let rest = run_guesses(stepped.0, inputs.drop_first(), now);
        (rest.0, seq![stepped.1] + rest.1)
    }
}

/// Typing exactly what is still missing, with no mistake, advances once
/// per letter except the last, finishes on the last, and — when nothing
/// was mistyped before either — scores a perfect accuracy.
pub proof fn lemma_run_correct_suffix(m: EngineModel, now: u64)
    requires
        m.inv(),
        m.state == EngineState::InProgress,
        m.presses + (m.sample.len() - m.guessed) <= u64::MAX,
    ensures
        ({
            let stepped = run_guesses(m, m.sample.skip(m.guessed), now);
            let mf = stepped.0;
            let os = stepped.1;
            &&& os.len() == m.sample.len() - m.guessed
            &&& (forall|i: int| 0 <= i < os.len() - 1 ==> os[i] == Outcome::Advanced)
            &&& os[os.len() - 1] == Outcome::Finished
            &&& mf.state == EngineState::Completed
            &&& mf.presses == m.presses + (m.sample.len() - m.guessed)
            &&& mf.result is Some
            &&& (m.presses == m.guessed ==> mf.result->0.acc_tenths == 1000)
        }),
    decreases m.sample.len() - m.guessed,
{
    let rest = m.sample.skip(m.guessed);
    assert(rest[0] == m.sample[m.guessed]);
    lemma_guess_spec(m, rest[0], now);
    let stepped = guess_spec(m, rest[0], now);
    let m1 = stepped.0;
    if m.guessed + 1 == m.sample.len() {
        assert(rest.drop_first() =~= Seq::<char>::empty());
        assert(run_guesses(m1, rest.drop_first(), now) == (m1, Seq::<Outcome>::empty()));
        let os = run_guesses(m, rest, now).1;
        assert(os =~= seq![Outcome::Finished]);
        if m.presses == m.guessed {
            crate::letter_stats::lemma_perc_tenths_full(m.sample.len() as int);
            assert(m1.result->0.acc_tenths == perc_tenths(
                m.sample.len() as int,
                m.presses + 1,
            ) as u64);
        }
    } else {
        assert(m1.sample.skip(m1.guessed) =~= rest.drop_first());
        lemma_run_correct_suffix(m1, now);
        let inner = run_guesses(m1, rest.drop_first(), now);
        let os = seq![stepped.1] + inner.1;
        assert(run_guesses(m, rest, now).1 == os);
        assert(os[os.len() - 1] == inner.1[inner.1.len() - 1]);
        assert forall|i: int| 0 <= i < os.len() - 1 implies os[i] == Outcome::Advanced by {
            if i > 0 {
                assert(os[i] == inner.1[i - 1]);
            }
        }
    }
}

/// A whole session typed through without a single mistake: `Advanced` for
/// every letter but the last, then `Finished`, with a total accuracy of
/// one hundred percent.
pub proof fn lemma_all_correct_session(sample: Seq<char>, now: u64)
    requires
        1 <= sample.len() <= MAX_SAMPLE_LEN,
    ensures
        ({
            let stepped = run_guesses(fresh_model(sample, None), sample, now);
            let mf = stepped.0;
            let os = stepped.1;
            &&& os.len() == sample.len()
            &&& (forall|i: int| 0 <= i < sample.len() - 1 ==> os[i] == Outcome::Advanced)
            &&& os[sample.len() - 1] == Outcome::Finished
            &&& mf.state == EngineState::Completed
            &&& mf.result is Some
            &&& mf.result->0.acc_tenths == 1000
        }),
{
    let m0 = fresh_model(sample, None);
    assert(m0.inv()) by {
        assert(stats_total(Seq::<(char, LetterInfoV)>::empty()) == 0);
    }
    assert(m0.sample.skip(0) =~= sample);
    lemma_run_correct_suffix(m0, now);
}

// ---------------------------------------------------------------------------
// The executable engine.
// ---------------------------------------------------------------------------
/// The abstract value of the statistics vector.
pub open spec fn stats_view(s: Seq<(char, LetterInfo)>) -> Seq<(char, LetterInfoV)>
    decreases s.len(),
{
    if s.len() == 0 {
        Seq::empty()
    } else {
        seq![(s[0].0, s[0].1@)] + stats_view(s.drop_first())
    }
}

/// The statistics vector, record by record.
pub proof fn lemma_stats_view(s: Seq<(char, LetterInfo)>)
    ensures
        stats_view(s).len() == s.len(),
        forall|k: int| 0 <= k < s.len() ==> #[trigger] stats_view(s)[k] == (s[k].0, s[k].1@),
    decreases s.len(),
{
    if s.len() > 0 {
        let t = s.drop_first();
        lemma_stats_view(t);
        assert forall|k: int| 0 <= k < s.len() implies #[trigger] stats_view(s)[k] == (
            s[k].0,
            s[k].1@,
        ) by {
            if k > 0 {
                assert(stats_view(s)[k] == stats_view(t)[k - 1]);
                assert(t[k - 1] == s[k]);
            }
        }
    }
}

/// Find the position of the record for expected letter `c`.
fn find_stat(v: &Vec<(char, LetterInfo)>, c: char) -> (r: Option<usize>)
    ensures
        match r {
            Some(i) => i < v.len() && find_idx(stats_view(v@), c) == i as int && v@[i as int].0
                == c,
            None => find_idx(stats_view(v@), c) == -1,
        },
{
    proof {
        lemma_stats_view(v@);
    }
    let n = v.len();
    let mut i: usize = 0;
    while i < n
        invariant
            i <= n,
            n == v.len(),
            forall|k: int| 0 <= k < i ==> (#[trigger] v@[k]).0 != c,
        decreases n - i,
    {
        if v[i].0 == c {
            proof {
                lemma_stats_view(v@);
                assert forall|k: int| 0 <= k < i as int implies (#[trigger] stats_view(v@)[k]).0
                    != c by {
                    assert(stats_view(v@)[k] == (v@[k].0, v@[k].1@));
                }
                lemma_find_idx_at(stats_view(v@), c, i as int);
            }
            return Some(i);
        }
        i = i + 1;
    }
    proof {
        lemma_stats_view(v@);
        lemma_find_idx(stats_view(v@), c);
        if find_idx(stats_view(v@), c) != -1 {
            let f = find_idx(stats_view(v@), c);
            assert(stats_view(v@)[f] == (v@[f].0, v@[f].1@));
            assert(false);
        }
    }
    None
}

/// The engine: the sample of the running session, the cursor, the running
/// statistics, and the result of the last finished session.
pub struct TypingMode {
    state: EngineState,
    current_text: Vec<char>,
    guessed_letters: usize,
    presses: u64,
    last_guessed: LastOutcome,
    start_time: Option<u64>,
    results: Vec<(char, LetterInfo)>,
    result_data: Option<JSONResults>,
}

impl View for TypingMode {
    type V = EngineModel;

    closed spec fn view(&self) -> EngineModel {
        EngineModel {
            state: self.state,
            sample: self.current_text@,
            guessed: self.guessed_letters as int,
            presses: self.presses as int,
            last: self.last_guessed,
            start_time: self.start_time,
            stats: stats_view(self.results@),
            result: match self.result_data {
                Some(r) => Some(r@),
                None => None,
            },
        }
    }
}

/// The engine before any sample was loaded.
pub open spec fn idle_model() -> EngineModel {
    EngineModel {
        state: EngineState::Idle,
        sample: Seq::empty(),
        guessed: 0,
        presses: 0,
        last: LastOutcome::Untyped,
        start_time: None,
        stats: Seq::empty(),
        result: None,
    }
}

impl TypingMode {
    /// The engine's invariant.
    pub open spec fn inv(&self) -> bool {
        self@.inv()
    }

    /// A fresh engine with no sample loaded.
    pub fn new() -> (r: TypingMode)
        ensures
            r.inv(),
            r@ == idle_model(),
    {
        let r = TypingMode {
            state: EngineState::Idle,
            current_text: Vec::new(),
            guessed_letters: 0,
            presses: 0,
            last_guessed: LastOutcome::Untyped,
            start_time: None,
            results: Vec::new(),
            result_data: None,
        };
        proof {
            assert(r@ =~= idle_model());
        }
        r
    }

    /// Start a session on a new sample; the previous result is dropped.
    pub fn init(&mut self, text: Vec<char>)
        requires
            1 <= text@.len() <= MAX_SAMPLE_LEN,
        ensures
            final(self).inv(),
            final(self)@ == fresh_model(text@, None),
    {
        self.current_text = text;
        self.result_data = None;
        self.reload_typing();
    }

    /// Restart the session on the sample already loaded; the last finished
    /// result stays available.
    pub fn reload_typing(&mut self)
        requires
            1 <= old(self)@.sample.len() <= MAX_SAMPLE_LEN,
            old(self)@.result matches Some(r) ==> r.wf(),
        ensures
            final(self).inv(),
            final(self)@ == fresh_model(old(self)@.sample, old(self)@.result),
    {
        self.state = EngineState::InProgress;
        self.presses = 0;
        self.guessed_letters = 0;
        self.last_guessed = LastOutcome::Untyped;
        self.start_time = None;
        self.results = Vec::new();
        proof {
            assert(stats_total(Seq::<(char, LetterInfoV)>::empty()) == 0);
            assert(self@ =~= fresh_model(old(self)@.sample, old(self)@.result));
        }
    }

    /// Feed one keystroke to the engine, at millisecond time `now_ms`.
    pub fn guess(&mut self, pressed_key: char, now_ms: u64) -> (r: Outcome)
        requires
            old(self).inv(),
            old(self)@.state == EngineState::InProgress,
            old(self)@.presses < u64::MAX,
        ensures
            final(self).inv(),
            final(self)@ == guess_spec(old(self)@, pressed_key, now_ms).0,
            r == guess_spec(old(self)@, pressed_key, now_ms).1,
            final(self)@.presses == old(self)@.presses + 1,
            final(self)@.sample == old(self)@.sample,
            (r == Outcome::Mismatched <==> pressed_key != old(self)@.expected()),
            (r == Outcome::Mismatched ==> final(self)@.guessed == old(self)@.guessed
                && final(self)@.state == EngineState::InProgress),
            (r == Outcome::Advanced <==> pressed_key == old(self)@.expected() && old(self)@.guessed
                + 1 < old(self)@.sample.len()),
            (r == Outcome::Advanced ==> final(self)@.guessed == old(self)@.guessed + 1
                && final(self)@.state == EngineState::InProgress),
            (r == Outcome::Finished <==> pressed_key == old(self)@.expected() && old(self)@.guessed
                == old(self)@.sample.len() - 1),
            (r == Outcome::Finished ==> final(self)@.state == EngineState::Completed
                && final(self)@.result is Some),
    {
        proof {
            lemma_guess_spec(old(self)@, pressed_key, now_ms);
        }
        let ghost m2 = guess_spec(old(self)@, pressed_key, now_ms).0;
        if self.start_time.is_none() {
            self.start_time = Some(now_ms);
        }
        self.presses = self.presses + 1;
        let expected = self.current_text[self.guessed_letters];
        let ghost pre_stats = stats_view(old(self).results@);
        proof {
            lemma_stats_view(old(self).results@);
            lemma_record_press(pre_stats, expected, pressed_key);
        }
        match find_stat(&self.results, expected) {
            Some(i) => {
                let ghost pre_vec = self.results@;
                let mut entry = self.results.remove(i);
                proof {
                    lemma_find_idx(pre_stats, expected);
                    lemma_entry_presses_le_total(pre_stats, i as int);
                    assert(pre_stats[i as int] == (entry.0, entry.1@));
                }
                entry.1.insert_press(pressed_key);
                self.results.insert(i, entry);
                proof {
                    assert(self.results@ == pre_vec.remove(i as int).insert(i as int, entry));
                    lemma_stats_view(self.results@);
                    assert forall|k: int| 0 <= k < pre_vec.len() implies #[trigger] self.results@[k]
                        == (if k == i as int {
                        entry
                    } else {
                        pre_vec[k]
                    }) by {}
                    assert(stats_view(self.results@) =~= record_press(
                        pre_stats,
                        expected,
                        pressed_key,
                    ));
                }
            },
            None => {
                self.results.push((expected, LetterInfo::new(pressed_key)));
                proof {
                    lemma_stats_view(self.results@);
                    assert(stats_view(self.results@) =~= record_press(
                        pre_stats,
                        expected,
                        pressed_key,
                    ));
                }
            },
        }
        if pressed_key == expected {
            if self.guessed_letters + 1 < self.current_text.len() {
                self.guessed_letters = self.guessed_letters + 1;
                self.last_guessed = LastOutcome::Correct;
                proof {
                    assert(self@ =~= m2);
                }
                Outcome::Advanced
            } else {
                self.guessed_letters = self.guessed_letters + 1;
                self.state = EngineState::Completed;
                self.last_guessed = LastOutcome::Correct;
                proof {
                    // The invariant of the new model supplies what the
                    // finalization needs: every record holds a correct
                    // press once the whole sample is confirmed.
                    assert(m2.stats == stats_view(self.results@));
                    assert(m2.inv());
                    assert forall|k: int| 0 <= k < self@.stats.len() implies count_of(
                        (#[trigger] self@.stats[k]).1.dist,
                        self@.stats[k].0,
                    ) >= 1 by {
                        assert(m2.stats[k] == self@.stats[k]);
                        assert(appears_in(m2.sample, m2.guessed, m2.stats[k].0));
                    }
                }
                self.result_calculation(now_ms);
                proof {
                    assert(self@ =~= m2);
                }
                Outcome::Finished
            }
        } else {
            self.last_guessed = LastOutcome::Incorrect;
            proof {
                assert(self@ =~= m2);
            }
            Outcome::Mismatched
        }
    }

    /// Compute the finished session's result document and keep it for
    /// display and persistence.
    fn result_calculation(&mut self, now_ms: u64)
        requires
            old(self)@.start_time is Some,
            stats_wf(old(self)@.stats),
            1 <= old(self)@.sample.len() <= MAX_SAMPLE_LEN,
            old(self)@.sample.len() <= old(self)@.presses <= u64::MAX,
            forall|k: int|
                0 <= k < old(self)@.stats.len() ==> count_of(
                    (#[trigger] old(self)@.stats[k]).1.dist,
                    old(self)@.stats[k].0,
                ) >= 1,
        ensures
            final(self)@ == (EngineModel {
                result: Some(
                    finalize_spec(
                        old(self)@.sample,
                        old(self)@.stats,
                        old(self)@.presses,
                        start_of(old(self)@),
                        now_ms,
                    ),
                ),
                ..old(self)@
            }),
    {
        let st: u64 = match self.start_time {
            Some(t) => t,
            None => unreached(),
        };
        let elapsed: u64 = if now_ms >= st {
            now_ms - st
        } else {
            0
        };
        let words = count_words(&self.current_text);
        proof {
            lemma_wpm_milli_bounds(words as int, elapsed as int);
        }
        let wpm_milli: u64 = if elapsed == 0 {
            0
        } else {
            let num: u128 = (words as u128) * 600000;
            let q: u128 = (2 * num + (elapsed as u128)) / (2 * (elapsed as u128));
            (q * 100) as u64
        };
        proof {
            lemma_perc_tenths_bounds(self.current_text@.len() as int, self@.presses);
        }
        let len_u64: u64 = self.current_text.len() as u64;
        let acc: u64 = (((2 * ((len_u64 as u128) * 1000)) + (self.presses as u128)) / (2 * (
        self.presses as u128))) as u64;
        let ghost stats = stats_view(self.results@);
        let n = self.results.len();
        let mut letters_info: Vec<JSONLetterInfo> = Vec::new();
        let mut k: usize = 0;
        proof {
            lemma_stats_view(self.results@);
        }
        while k < n
            invariant
                k <= n,
                n == self.results.len(),
                stats == stats_view(self.results@),
                stats.len() == n,
                forall|idx: int| 0 <= idx < n ==> #[trigger] stats[idx] == (
                    self.results@[idx].0,
                    self.results@[idx].1@,
                ),
                letters_info@.len() == k,
                forall|idx: int| 0 <= idx < k ==> (#[trigger] letters_info@[idx])@ == entry_json_v(
                    stats[idx],
                ),
            decreases n - k,
        {
            let main = self.results[k].0;
            let j = self.results[k].1.to_json(main);
            proof {
                assert(j@ == entry_json_v(stats[k as int]));
            }
            letters_info.push(j);
            k = k + 1;
        }
        let res = JSONResults { wpm_milli, total_accuracy_tenths: acc, letters_info };
        proof {
            lemma_session_letters(stats);
            crate::results::lemma_letters_view(res.letters_info@);
            assert(letters_view(res.letters_info@) =~= session_letters(stats));
            assert(res@ =~= finalize_spec(
                old(self)@.sample,
                old(self)@.stats,
                old(self)@.presses,
                start_of(old(self)@),
                now_ms,
            ));
        }
        self.result_data = Some(res);
        proof {
            assert(self@ =~= (EngineModel {
                result: Some(
                    finalize_spec(
                        old(self)@.sample,
                        old(self)@.stats,
                        old(self)@.presses,
                        start_of(old(self)@),
                        now_ms,
                    ),
                ),
                ..old(self)@
            }));
        }
    }

    /// The result of the last finished session.
    pub fn get_last_results(&self) -> (r: &JSONResults)
        requires
            self@.result is Some,
        ensures
            self@.result == Some(r@),
    {
        match &self.result_data {
            Some(r) => r,
            None => unreached(),
        }
    }

    /// How many letters of the sample are confirmed.
    pub fn guessed_count(&self) -> (r: usize)
        ensures
            r == self@.guessed,
    {
        self.guessed_letters
    }

    /// Every keystroke of the running session, mismatches included.
    pub fn total_presses(&self) -> (r: u64)
        ensures
            r == self@.presses,
    {
        self.presses
    }

    /// Where the engine is in its lifecycle.
    pub fn current_state(&self) -> (r: EngineState)
        ensures
            r == self@.state,
    {
        self.state
    }

    /// The character the next correct keystroke has to be.
    pub fn expected_letter(&self) -> (r: char)
        requires
            self.inv(),
            self@.state == EngineState::InProgress,
        ensures
            r == self@.expected(),
    {
        self.current_text[self.guessed_letters]
    }
}

/// Copy `v[from..to]`.
fn copy_range(v: &Vec<char>, from: usize, to: usize) -> (r: Vec<char>)
    requires
        from <= to,
        to <= v.len(),
    ensures
        r@ == v@.subrange(from as int, to as int),
{
    let mut out: Vec<char> = Vec::new();
    let mut i = from;
    proof {
        assert(v@.subrange(from as int, from as int) =~= Seq::<char>::empty());
    }
    while i < to
        invariant
            from <= i <= to,
            to <= v.len(),
            out@ == v@.subrange(from as int, i as int),
        decreases to - i,
    {
        out.push(v[i]);
        proof {
            assert(out@ =~= v@.subrange(from as int, i as int + 1));
        }
        i = i + 1;
    }
    out
}

impl TypingMode {
    /// The sample in three logically colored parts: confirmed letters, the
    /// one letter under the cursor when the last keystroke missed it (an
    /// empty segment otherwise), and the pending rest.  Read-only.
    pub fn get_text_to_render(&self) -> (r: (Vec<char>, Vec<char>, Vec<char>))
        requires
            self.inv(),
            self@.state != EngineState::Idle,
        ensures
            r.0@ == self@.sample.take(self@.guessed),
            r.1@ == (if self@.last == LastOutcome::Incorrect {
                self@.sample.subrange(self@.guessed, self@.guessed + 1)
            } else {
                Seq::<char>::empty()
            }),
            r.2@ == self@.sample.skip(
                self@.guessed + (if self@.last == LastOutcome::Incorrect {
                    1int
                } else {
                    0
                }),
            ),
            r.0@ + r.1@ + r.2@ == self@.sample,
    {
        let g = self.guessed_letters;
        let err: usize = match self.last_guessed {
            LastOutcome::Incorrect => 1,
            _ => 0,
        };
        let done = copy_range(&self.current_text, 0, g);
        let wrong = copy_range(&self.current_text, g, g + err);
        let rest = copy_range(&self.current_text, g + err, self.current_text.len());
        proof {
            assert(done@ + wrong@ + rest@ =~= self@.sample);
            if self@.last != LastOutcome::Incorrect {
                assert(wrong@ =~= Seq::<char>::empty());
            }
        }
        (done, wrong, rest)
    }
}

} // verus!

use blind_typing::engine::TypingMode;
use blind_typing::letter_stats::Accuracy;
use blind_typing::misc::get_color_by_accuracy;
use blind_typing::misc::get_default_sentences;
use blind_typing::misc::HeatColor;
use blind_typing::results::JSONResults;
use blind_typing::results::ResultsError;

fn finished(text: &str, keys: &[char]) -> JSONResults {
    let mut engine = TypingMode::new();
    engine.init(text.chars().collect());
    let mut now: u64 = 0;
    for &ch in keys {
        engine.guess(ch, now);
        now += 100;
    }
    let mut copy = JSONResults::new();
    copy.update(engine.get_last_results());
    copy
}

#[test]
fn merge_into_empty_adopts_the_new_result() {
    let fresh = finished("ab", &['a', 'b']);
    let mut store = JSONResults::new();
    assert_eq!(store.wpm_milli, 0);
    assert_eq!(store.total_accuracy_tenths, 0);
    store.update(&fresh);
    assert_eq!(store.wpm_milli, fresh.wpm_milli);
    assert_eq!(store.total_accuracy_tenths, fresh.total_accuracy_tenths);
    assert_eq!(store.letters_info.len(), fresh.letters_info.len());
}

#[test]
fn scalar_merge_averages_set_values() {
    let mut store = JSONResults {
        wpm_milli: 60000,
        total_accuracy_tenths: 1000,
        letters_info: Vec::new(),
    };
    let new = JSONResults {
        wpm_milli: 30000,
        total_accuracy_tenths: 667,
        letters_info: Vec::new(),
    };
    store.update(&new);
    // Speed keeps full precision; accuracy is re-rounded to one decimal.
    assert_eq!(store.wpm_milli, 45000);
    assert_eq!(store.total_accuracy_tenths, 834);
}

#[test]
fn merging_identical_letters_doubles_totals_and_keeps_percentages() {
    let one = finished("ab", &['a', 'x', 'b']);
    let mut store = JSONResults::new();
    store.update(&one);
    let b_before = store
        .letters_info
        .iter()
        .find(|li| li.main_letter == 'b')
        .unwrap();
    let presses_before = b_before.total_presses();
    let perc_before = b_before.get_perc('b');
    store.update(&one);
    let b_after = store
        .letters_info
        .iter()
        .find(|li| li.main_letter == 'b')
        .unwrap();
    assert_eq!(b_after.total_presses(), 2 * presses_before);
    assert_eq!(b_after.get_perc('b'), perc_before);
}

#[test]
fn total_results_are_sorted_by_accuracy_then_letter() {
    // 'a' typed cleanly, 'b' needed a retry, 'c' cleanly: 'c' ties with
    // 'a' and comes after it.
    let res = finished("abc", &['a', 'x', 'b', 'c']);
    let table = res.get_total_results();
    let letters: Vec<char> = table.iter().map(|p| p.0).collect();
    assert_eq!(letters, vec!['a', 'c', 'b']);
    assert_eq!(table[0].1, 1000);
    assert_eq!(table[1].1, 1000);
    assert_eq!(table[2].1, 500);
}

#[test]
fn lookup_of_unknown_letter_is_reported() {
    let res = finished("ab", &['a', 'b']);
    match res.get_result_by_letter('z') {
        Err(e) => {
            assert_eq!(e, ResultsError::LetterNotFound);
            assert_eq!(e.message(), "We have no info about this letter :(");
        }
        Ok(_) => panic!("a letter without statistics must be reported"),
    }
    let per_letter = res.get_result_by_letter('a').unwrap();
    assert_eq!(per_letter, vec![('a', 1000)]);
}

#[test]
fn accuracy_percent_in_tenths() {
    assert_eq!(Accuracy::new(2, 3).get_percent(), 667);
    assert_eq!(Accuracy::new(0, 0).get_percent(), 0);
    assert_eq!(Accuracy::new(1, 2).get_percent(), 500);
    assert_eq!(Accuracy::new(5, 5).get_percent(), 1000);
}

#[test]
fn color_bands() {
    assert_eq!(get_color_by_accuracy(1010), HeatColor::Yellow);
    assert_eq!(get_color_by_accuracy(0), HeatColor::Reset);
    assert_eq!(get_color_by_accuracy(1000), HeatColor::Green);
    assert_eq!(get_color_by_accuracy(800), HeatColor::Green);
    assert_eq!(get_color_by_accuracy(799), HeatColor::Blue);
    assert_eq!(get_color_by_accuracy(500), HeatColor::Blue);
    assert_eq!(get_color_by_accuracy(499), HeatColor::Red);
    assert_eq!(get_color_by_accuracy(1), HeatColor::Red);
}

#[test]
fn default_sentences_are_ten_lines() {
    let text = get_default_sentences();
    assert_eq!(text.lines().count(), 10);
    assert!(text.starts_with("The quick brown fox"));
}

#[test]
fn can_merge_guards_against_overflow() {
    let one = finished("a", &['a']);
    let store = JSONResults::new();
    assert!(store.can_merge(&one));
    let huge = JSONResults {
        wpm_milli: u64::MAX,
        total_accuracy_tenths: 1000,
        letters_info: Vec::new(),
    };
    let other = JSONResults {
        wpm_milli: 1,
        total_accuracy_tenths: 1000,
        letters_info: Vec::new(),
    };
    assert!(!huge.can_merge(&other));
}

use blind_typing::letter_stats::LetterInfo;
use blind_typing::results::JSONResults;

#[test]
fn letter_record_accumulates_presses() {
    let mut info = LetterInfo::new('a');
    info.insert_press('b');
    info.insert_press('a');
    assert_eq!(info.total_presses(), 3);
    let record = info.to_json('a');
    assert_eq!(record.main_letter, 'a');
    assert_eq!(record.presses_of_key, 3);
    assert_eq!(record.letter_accuracies, vec![('a', 2), ('b', 1)]);
    assert_eq!(record.get_perc('a'), 667);
    assert_eq!(record.get_perc('b'), 333);
}

#[test]
fn counts_add_up_to_the_press_total() {
    let mut info = LetterInfo::new('x');
    for ch in ['y', 'x', 'z', 'x'] {
        info.insert_press(ch);
    }
    let record = info.to_json('x');
    let sum: u64 = record.letter_accuracies.iter().map(|p| p.1).sum();
    assert_eq!(sum, record.presses_of_key);
}

#[test]
fn record_merge_sums_raw_counts() {
    let a = LetterInfo::new('a').to_json('a');
    let mut merged = LetterInfo::new('a').to_json('a');
    merged.update(&a);
    assert_eq!(merged.presses_of_key, 2);
    assert_eq!(merged.letter_accuracies, vec![('a', 2)]);
    let copy = merged.get_copy();
    assert_eq!(copy.main_letter, merged.main_letter);
    assert_eq!(copy.letter_accuracies, merged.letter_accuracies);
    assert_eq!(copy.presses_of_key, merged.presses_of_key);
}

#[test]
fn adopt_on_unset_with_exact_values() {
    // An empty store merged with a 60 wpm, 100% result adopts it as is.
    let mut store = JSONResults::new();
    let fresh = JSONResults {
        wpm_milli: 60000,
        total_accuracy_tenths: 1000,
        letters_info: Vec::new(),
    };
    store.update(&fresh);
    assert_eq!(store.wpm_milli, 60000);
    assert_eq!(store.total_accuracy_tenths, 1000);
    assert_eq!(store.letters_info.len(), 0);
}

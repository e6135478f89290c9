use blind_typing::codec::decode_results;
use blind_typing::codec::encode_results;
use blind_typing::codec::push_num;
use blind_typing::codec::results_from_bytes;
use blind_typing::engine::TypingMode;
use blind_typing::results::JSONResults;

fn finished(text: &str, keys: &[char]) -> JSONResults {
    let mut engine = TypingMode::new();
    engine.init(text.chars().collect());
    let mut now: u64 = 0;
    for &ch in keys {
        engine.guess(ch, now);
        now += 100;
    }
    let mut copy = JSONResults::new();
    copy.update(engine.get_last_results());
    copy
}

fn assert_same(a: &JSONResults, b: &JSONResults) {
    assert_eq!(a.wpm_milli, b.wpm_milli);
    assert_eq!(a.total_accuracy_tenths, b.total_accuracy_tenths);
    assert_eq!(a.letters_info.len(), b.letters_info.len());
    for (x, y) in a.letters_info.iter().zip(b.letters_info.iter()) {
        assert_eq!(x.main_letter, y.main_letter);
        assert_eq!(x.presses_of_key, y.presses_of_key);
        assert_eq!(x.letter_accuracies, y.letter_accuracies);
    }
}

#[test]
fn round_trip_reproduces_the_aggregate() {
    let res = finished("ab ba", &['a', 'x', 'b', ' ', 'b', 'a']);
    let bytes = encode_results(&res);
    let back = decode_results(&bytes).unwrap();
    assert_same(&res, &back);
}

#[test]
fn round_trip_of_the_empty_aggregate() {
    let empty = JSONResults::new();
    let bytes = encode_results(&empty);
    assert_eq!(bytes.len(), 60);
    let back = decode_results(&bytes).unwrap();
    assert_same(&empty, &back);
}

#[test]
fn empty_buffer_decodes_to_nothing() {
    assert!(decode_results(&Vec::new()).is_none());
    let fallback = results_from_bytes(&Vec::new());
    assert_eq!(fallback.wpm_milli, 0);
    assert_eq!(fallback.total_accuracy_tenths, 0);
    assert_eq!(fallback.letters_info.len(), 0);
}

#[test]
fn corrupt_bytes_decode_to_nothing() {
    let res = finished("ab", &['a', 'b']);
    let mut bytes = encode_results(&res);
    bytes[5] = b'x';
    assert!(decode_results(&bytes).is_none());
    let fallback = results_from_bytes(&bytes);
    assert_eq!(fallback.letters_info.len(), 0);
}

#[test]
fn truncated_bytes_decode_to_nothing() {
    let res = finished("ab", &['a', 'b']);
    let mut bytes = encode_results(&res);
    bytes.pop();
    assert!(decode_results(&bytes).is_none());
}

#[test]
fn surrogate_code_points_are_rejected() {
    // A hand-made document whose letter claims the surrogate 0xD800.
    let mut bytes = Vec::new();
    push_num(&mut bytes, 0); // speed
    push_num(&mut bytes, 0); // accuracy
    push_num(&mut bytes, 1); // one record
    push_num(&mut bytes, 0xD800); // the record's letter
    push_num(&mut bytes, 1); // presses
    push_num(&mut bytes, 1); // one entry
    push_num(&mut bytes, 97); // 'a'
    push_num(&mut bytes, 1);
    assert!(decode_results(&bytes).is_none());
}

#[test]
fn inconsistent_documents_are_rejected() {
    // Counts that do not add up to the press total.
    let mut bytes = Vec::new();
    push_num(&mut bytes, 0);
    push_num(&mut bytes, 0);
    push_num(&mut bytes, 1);
    push_num(&mut bytes, 97); // 'a'
    push_num(&mut bytes, 2); // claims two presses
    push_num(&mut bytes, 1);
    push_num(&mut bytes, 97);
    push_num(&mut bytes, 1); // but only one is recorded
    assert!(decode_results(&bytes).is_none());
}

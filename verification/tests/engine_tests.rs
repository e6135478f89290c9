use blind_typing::engine::EngineState;
use blind_typing::engine::Outcome;
use blind_typing::engine::TypingMode;
use blind_typing::engine::count_words;

fn sample(text: &str) -> Vec<char> {
    text.chars().collect()
}

#[test]
fn all_correct_run_advances_then_finishes() {
    let mut engine = TypingMode::new();
    engine.init(sample("hello"));
    let mut outcomes = Vec::new();
    let mut now: u64 = 1000;
    for ch in "hello".chars() {
        outcomes.push(engine.guess(ch, now));
        now += 15000;
    }
    assert_eq!(
        outcomes,
        vec![
            Outcome::Advanced,
            Outcome::Advanced,
            Outcome::Advanced,
            Outcome::Advanced,
            Outcome::Finished,
        ]
    );
    assert_eq!(engine.current_state(), EngineState::Completed);
    let res = engine.get_last_results();
    assert_eq!(res.total_accuracy_tenths, 1000);
}

#[test]
fn mismatch_keeps_cursor() {
    let mut engine = TypingMode::new();
    engine.init(sample("ab"));
    assert_eq!(engine.guessed_count(), 0);
    assert_eq!(engine.guess('x', 5), Outcome::Mismatched);
    assert_eq!(engine.guessed_count(), 0);
    assert_eq!(engine.guess('a', 6), Outcome::Advanced);
    assert_eq!(engine.guessed_count(), 1);
}

#[test]
fn single_character_sample_finishes_immediately() {
    let mut engine = TypingMode::new();
    engine.init(sample("a"));
    assert_eq!(engine.guess('a', 77), Outcome::Finished);
    assert_eq!(engine.current_state(), EngineState::Completed);
    assert_eq!(engine.get_last_results().total_accuracy_tenths, 1000);
}

#[test]
fn scenario_ab_with_one_mistake() {
    let mut engine = TypingMode::new();
    engine.init(sample("ab"));
    let o1 = engine.guess('a', 0);
    let o2 = engine.guess('x', 10);
    let o3 = engine.guess('b', 20);
    assert_eq!(
        vec![o1, o2, o3],
        vec![Outcome::Advanced, Outcome::Mismatched, Outcome::Finished]
    );
    let res = engine.get_last_results();
    // 2 confirmed letters out of 3 keystrokes: 66.7%.
    assert_eq!(res.total_accuracy_tenths, 667);
    let a = res
        .letters_info
        .iter()
        .find(|li| li.main_letter == 'a')
        .unwrap();
    assert_eq!(a.total_presses(), 1);
    assert_eq!(a.get_perc('a'), 1000);
    let b = res
        .letters_info
        .iter()
        .find(|li| li.main_letter == 'b')
        .unwrap();
    assert_eq!(b.total_presses(), 2);
    assert_eq!(b.get_perc('b'), 500);
    assert_eq!(b.get_perc('x'), 500);
}

#[test]
fn speed_is_words_scaled_to_a_minute() {
    let mut engine = TypingMode::new();
    engine.init(sample("hi"));
    engine.guess('h', 1000);
    engine.guess('i', 61000);
    // One word in 60 000 ms: 1.0 words per minute, stored in thousandths.
    assert_eq!(engine.get_last_results().wpm_milli, 1000);
}

#[test]
fn zero_elapsed_time_yields_zero_speed() {
    let mut engine = TypingMode::new();
    engine.init(sample("a"));
    engine.guess('a', 42);
    assert_eq!(engine.get_last_results().wpm_milli, 0);
}

#[test]
fn render_segments_follow_the_cursor() {
    let mut engine = TypingMode::new();
    engine.init(sample("ab"));
    let (done, wrong, rest) = engine.get_text_to_render();
    assert_eq!(done, Vec::<char>::new());
    assert_eq!(wrong, Vec::<char>::new());
    assert_eq!(rest, vec!['a', 'b']);
    engine.guess('x', 1);
    let (done, wrong, rest) = engine.get_text_to_render();
    assert_eq!(done, Vec::<char>::new());
    assert_eq!(wrong, vec!['a']);
    assert_eq!(rest, vec!['b']);
    engine.guess('a', 2);
    let (done, wrong, rest) = engine.get_text_to_render();
    assert_eq!(done, vec!['a']);
    assert_eq!(wrong, Vec::<char>::new());
    assert_eq!(rest, vec!['b']);
}

#[test]
fn reload_restarts_on_the_same_sample() {
    let mut engine = TypingMode::new();
    engine.init(sample("ab"));
    engine.guess('a', 1);
    engine.guess('b', 2);
    assert_eq!(engine.current_state(), EngineState::Completed);
    engine.reload_typing();
    assert_eq!(engine.current_state(), EngineState::InProgress);
    assert_eq!(engine.guessed_count(), 0);
    assert_eq!(engine.total_presses(), 0);
    // The finished result stays available until the next init.
    assert_eq!(engine.get_last_results().total_accuracy_tenths, 1000);
    assert_eq!(engine.expected_letter(), 'a');
}

#[test]
fn word_counting() {
    assert_eq!(count_words(&sample("hello world foo")), 3);
    assert_eq!(count_words(&sample("  a  b ")), 2);
    assert_eq!(count_words(&sample("   ")), 0);
    assert_eq!(count_words(&sample("one")), 1);
}

use blind_typing::engine::Outcome;
use blind_typing::screens::screen_after_outcome;
use blind_typing::screens::screen_transition;
use blind_typing::screens::AppEvents;
use blind_typing::screens::KeyPress;
use blind_typing::screens::ScreenAction;
use blind_typing::screens::Screens;

#[test]
fn titles_and_hints() {
    assert_eq!(Screens::Main.as_title(), "Blind Typing");
    assert_eq!(Screens::Typing.as_title(), "Typing");
    assert_eq!(Screens::Exiting.get_keys_hints(), "y - yes, n - no");
    assert_eq!(
        Screens::Typing.get_keys_hints(),
        "Esc - main screen, Tab - empty the typing"
    );
}

#[test]
fn navigation_table() {
    assert_eq!(
        screen_transition(Screens::Main, Screens::Main, KeyPress::Letter('s')),
        (Screens::Typing, ScreenAction::StartTyping)
    );
    assert_eq!(
        screen_transition(Screens::Main, Screens::Main, KeyPress::Letter('R')),
        (Screens::Main, ScreenAction::DeleteResults)
    );
    assert_eq!(
        screen_transition(Screens::Typing, Screens::Main, KeyPress::Esc),
        (Screens::Main, ScreenAction::NoAction)
    );
    assert_eq!(
        screen_transition(Screens::Typing, Screens::Main, KeyPress::Letter('q')),
        (Screens::Typing, ScreenAction::Guess('q'))
    );
    assert_eq!(
        screen_transition(Screens::Exiting, Screens::Main, KeyPress::Letter('y')),
        (Screens::Exiting, ScreenAction::ExitApp)
    );
    assert_eq!(
        screen_transition(Screens::Alert, Screens::GlobalResultMain, KeyPress::Letter('k')),
        (Screens::GlobalResultMain, ScreenAction::NoAction)
    );
}

#[test]
fn screen_history() {
    let mut events = AppEvents::new();
    assert_eq!(events.current_screen, Screens::Main);
    events.change_screen_to(Screens::Typing);
    assert_eq!(events.current_screen, Screens::Typing);
    assert_eq!(events.previous_screen, Screens::Main);
    // Staying on the same screen leaves the history untouched.
    events.change_screen_to(Screens::Typing);
    assert_eq!(events.previous_screen, Screens::Main);
}

#[test]
fn finished_session_moves_to_the_result_screen() {
    assert_eq!(
        screen_after_outcome(Outcome::Finished),
        Some(Screens::TypingResult)
    );
    assert_eq!(screen_after_outcome(Outcome::Advanced), None);
    assert_eq!(screen_after_outcome(Outcome::Mismatched), None);
}

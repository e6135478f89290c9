//! Screen navigation: the finite set of screens the application can show,
//! the titles and key hints that belong to each, and the transition
//! function that maps a screen and a key press to the next screen and the
//! action the surrounding event loop has to perform.

use vstd::prelude::*;

verus! {

/// The screens the application can show.
#[derive(Clone, Copy, PartialEq, Eq, Structural, Debug)]
pub enum Screens {
    Typing,
    TypingResult,
    GlobalResultMain,
    LetterResult,
    Exiting,
    Main,
    Alert,
}

/// The title shown at the top of each screen.
pub open spec fn title_of(s: Screens) -> Seq<char> {
    match s {
        Screens::Typing => "Typing"@,
        Screens::TypingResult => "Typing Results"@,
        Screens::GlobalResultMain => "Global Typing Results"@,
        Screens::LetterResult => "Global Letter Result"@,
        Screens::Exiting => "Exit"@,
        Screens::Main => "Blind Typing"@,
        Screens::Alert => "Error"@,
    }
}

/// The key hints shown at the bottom of each screen.
pub open spec fn hints_of(s: Screens) -> Seq<char> {
    match s {
        Screens::Main => (
            "q - exit app, s - start, r - global results, R - delete existing result data, t - get new texts"@
        ),
        Screens::Typing => "Esc - main screen, Tab - empty the typing"@,
        Screens::TypingResult => "q - main screen, c - continue typing"@,
        Screens::GlobalResultMain => (
            "letter - letter result, Esc - main screen, Tab - switch to big letters"@
        ),
        Screens::LetterResult => (
            "letter - another letter, Esc - global results, Tab - switch to big letters"@
        ),
        Screens::Exiting => "y - yes, n - no"@,
        Screens::Alert => "any letter - close this window"@,
    }
}

impl Screens {
    pub fn as_title(&self) -> (r: &'static str)
        ensures
            r@ == title_of(*self),
    {
        match self {
            Screens::Typing => "Typing",
            Screens::TypingResult => "Typing Results",
            Screens::GlobalResultMain => "Global Typing Results",
            Screens::LetterResult => "Global Letter Result",
            Screens::Exiting => "Exit",
            Screens::Main => "Blind Typing",
            Screens::Alert => "Error",
        }
    }

    pub fn get_keys_hints(&self) -> (r: &'static str)
        ensures
            r@ == hints_of(*self),
    {
        match self {
            Screens::Main => {
                "q - exit app, s - start, r - global results, R - delete existing result data, t - get new texts"
            },
            Screens::Typing => "Esc - main screen, Tab - empty the typing",
            Screens::TypingResult => "q - main screen, c - continue typing",
            Screens::GlobalResultMain => {
                "letter - letter result, Esc - main screen, Tab - switch to big letters"
            },
            Screens::LetterResult => {
                "letter - another letter, Esc - global results, Tab - switch to big letters"
            },
            Screens::Exiting => "y - yes, n - no",
            Screens::Alert => "any letter - close this window",
        }
    }
}

/// A key press, reduced to what the navigation logic cares about.
#[derive(Clone, Copy, PartialEq, Eq, Structural, Debug)]
pub enum KeyPress {
    Letter(char),
    Esc,
    Tab,
    Other,
}

/// What the event loop has to do after a key press, besides showing the
/// screen that the transition function chose.
#[derive(Clone, Copy, PartialEq, Eq, Structural, Debug)]
pub enum ScreenAction {
    NoAction,
    /// Pick a sample and initialise the typing engine.
    StartTyping,
    /// Restart the session on the sample that is already loaded.
    ReloadTyping,
    /// Feed the keystroke to the typing engine.
    Guess(char),
    /// Truncate the stored aggregate.
    DeleteResults,
    /// Replace the sample file with freshly fetched texts.
    FetchTexts,
    /// Leave the application.
    ExitApp,
}

/// The navigation table: for a current screen, the screen the alert would
/// return to, and a key press, the screen to show next and the action to
/// perform.
pub open spec fn transition_spec(current: Screens, previous: Screens, key: KeyPress) -> (
    Screens,
    ScreenAction,
) {
    match current {
        Screens::Main => match key {
            KeyPress::Letter('q') => (Screens::Exiting, ScreenAction::NoAction),
            KeyPress::Letter('r') => (Screens::GlobalResultMain, ScreenAction::NoAction),
            KeyPress::Letter('s') => (Screens::Typing, ScreenAction::StartTyping),
            KeyPress::Letter('R') => (Screens::Main, ScreenAction::DeleteResults),
            KeyPress::Letter('t') => (Screens::Main, ScreenAction::FetchTexts),
            _ => (Screens::Main, ScreenAction::NoAction),
        },
        Screens::Typing => match key {
            KeyPress::Esc => (Screens::Main, ScreenAction::NoAction),
            KeyPress::Tab => (Screens::Typing, ScreenAction::ReloadTyping),
            KeyPress::Letter(ch) => (Screens::Typing, ScreenAction::Guess(ch)),
            _ => (Screens::Typing, ScreenAction::NoAction),
        },
        Screens::TypingResult => match key {
            KeyPress::Letter('q') => (Screens::Main, ScreenAction::NoAction),
            KeyPress::Letter('c') => (Screens::Typing, ScreenAction::StartTyping),
            _ => (Screens::TypingResult, ScreenAction::NoAction),
        },
        Screens::Exiting => match key {
            KeyPress::Letter('y') => (Screens::Exiting, ScreenAction::ExitApp),
            KeyPress::Letter('n') => (Screens::Main, ScreenAction::NoAction),
            _ => (Screens::Exiting, ScreenAction::NoAction),
        },
        Screens::GlobalResultMain => match key {
            KeyPress::Esc => (Screens::Main, ScreenAction::NoAction),
            KeyPress::Letter(_) => (Screens::LetterResult, ScreenAction::NoAction),
            _ => (Screens::GlobalResultMain, ScreenAction::NoAction),
        },
        Screens::LetterResult => match key {
            KeyPress::Esc => (Screens::GlobalResultMain, ScreenAction::NoAction),
            KeyPress::Letter(_) => (Screens::LetterResult, ScreenAction::NoAction),
            _ => (Screens::LetterResult, ScreenAction::NoAction),
        },
        Screens::Alert => match key {
            KeyPress::Letter(_) => (previous, ScreenAction::NoAction),
            _ => (Screens::Alert, ScreenAction::NoAction),
        },
    }
}

/// One step of the navigation state machine.
pub fn screen_transition(current: Screens, previous: Screens, key: KeyPress) -> (r: (
    Screens,
    ScreenAction,
))
    ensures
        r == transition_spec(current, previous, key),
{
    match current {
        Screens::Main => match key {
            KeyPress::Letter('q') => (Screens::Exiting, ScreenAction::NoAction),
            KeyPress::Letter('r') => (Screens::GlobalResultMain, ScreenAction::NoAction),
            KeyPress::Letter('s') => (Screens::Typing, ScreenAction::StartTyping),
            KeyPress::Letter('R') => (Screens::Main, ScreenAction::DeleteResults),
            KeyPress::Letter('t') => (Screens::Main, ScreenAction::FetchTexts),
            _ => (Screens::Main, ScreenAction::NoAction),
        },
        Screens::Typing => match key {
            KeyPress::Esc => (Screens::Main, ScreenAction::NoAction),
            KeyPress::Tab => (Screens::Typing, ScreenAction::ReloadTyping),
            KeyPress::Letter(ch) => (Screens::Typing, ScreenAction::Guess(ch)),
            _ => (Screens::Typing, ScreenAction::NoAction),
        },
        Screens::TypingResult => match key {
            KeyPress::Letter('q') => (Screens::Main, ScreenAction::NoAction),
            KeyPress::Letter('c') => (Screens::Typing, ScreenAction::StartTyping),
            _ => (Screens::TypingResult, ScreenAction::NoAction),
        },
        Screens::Exiting => match key {
            KeyPress::Letter('y') => (Screens::Exiting, ScreenAction::ExitApp),
            KeyPress::Letter('n') => (Screens::Main, ScreenAction::NoAction),
            _ => (Screens::Exiting, ScreenAction::NoAction),
        },
        Screens::GlobalResultMain => match key {
            KeyPress::Esc => (Screens::Main, ScreenAction::NoAction),
            KeyPress::Letter(_) => (Screens::LetterResult, ScreenAction::NoAction),
            _ => (Screens::GlobalResultMain, ScreenAction::NoAction),
        },
        Screens::LetterResult => match key {
            KeyPress::Esc => (Screens::GlobalResultMain, ScreenAction::NoAction),
            KeyPress::Letter(_) => (Screens::LetterResult, ScreenAction::NoAction),
            _ => (Screens::LetterResult, ScreenAction::NoAction),
        },
        Screens::Alert => match key {
            KeyPress::Letter(_) => (previous, ScreenAction::NoAction),
            _ => (Screens::Alert, ScreenAction::NoAction),
        },
    }
}

/// The screen to show after a keystroke was fed to the typing engine: a
/// finished session moves to the result screen, anything else stays put.
pub fn screen_after_outcome(outcome: crate::engine::Outcome) -> (r: Option<Screens>)
    ensures
        outcome == crate::engine::Outcome::Finished <==> r == Some(Screens::TypingResult),
        outcome != crate::engine::Outcome::Finished <==> r is None,
{
    match outcome {
        crate::engine::Outcome::Finished => Some(Screens::TypingResult),
        _ => None,
    }
}

/// The per-key state the event loop carries between redraws: the screen
/// being shown, the screen an alert will return to, the letter that was
/// pressed last, the shift state of the on-screen keyboard, and the text of
/// the alert window.
pub struct AppEvents {
    pub current_screen: Screens,
    pub previous_screen: Screens,
    pub pressed_letter: char,
    pub is_uppercase: bool,
    pub alert_text: String,
}

impl AppEvents {
    pub fn new() -> (r: AppEvents)
        ensures
            r.current_screen == Screens::Main,
            r.previous_screen == Screens::Main,
            r.pressed_letter == ' ',
            !r.is_uppercase,
            r.alert_text@.len() == 0,
    {
        AppEvents {
            current_screen: Screens::Main,
            previous_screen: Screens::Main,
            pressed_letter: ' ',
            is_uppercase: false,
            alert_text: String::new(),
        }
    }

    /// Move to `new_screen`, remembering where we came from; staying on the
    /// same screen leaves the history untouched.
    pub fn change_screen_to(&mut self, new_screen: Screens)
        ensures
            new_screen != old(self).current_screen ==> final(self).current_screen == new_screen
                && final(self).previous_screen == old(self).current_screen,
            new_screen == old(self).current_screen ==> final(self).current_screen == old(
                self,
            ).current_screen && final(self).previous_screen == old(self).previous_screen,
            final(self).pressed_letter == old(self).pressed_letter,
            final(self).is_uppercase == old(self).is_uppercase,
            final(self).alert_text == old(self).alert_text,
    {
        if new_screen != self.current_screen {
            self.previous_screen = self.current_screen;
            self.current_screen = new_screen;
        }
    }
}

} // verus!

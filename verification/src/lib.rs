//! Core of a terminal blind-typing trainer.
//!
//! The library owns the typing-session engine (a character-matching state
//! machine), the per-letter statistics model, the speed and accuracy
//! computations, and the merge and persistence logic for aggregated results.
//! Terminal rendering, keyboard input and file handling live outside it and
//! talk to the library through plain values.

pub mod codec;
pub mod engine;
pub mod letter_stats;
pub mod misc;
pub mod results;
pub mod screens;

pub use screens::AppEvents;
pub use screens::KeyPress;
pub use screens::ScreenAction;
pub use screens::Screens;

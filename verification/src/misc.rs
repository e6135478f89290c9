//! Small shared helpers: the color classes derived from an accuracy value,
//! and the built-in practice sentences used when no sample file exists.

use vstd::prelude::*;

verus! {

/// The color classes the keyboard and the letter lines are drawn in.
#[derive(Clone, Copy, PartialEq, Eq, Structural, Debug)]
pub enum HeatColor {
    Yellow,
    Reset,
    Green,
    Blue,
    Red,
}

/// Which color an accuracy value (in tenths of a percent) is shown in.
/// `1010` — one tenth above a full score — is the sentinel that marks the
/// key to highlight.
pub open spec fn color_of(accuracy_tenths: u64) -> HeatColor {
    if accuracy_tenths == 1010 {
        HeatColor::Yellow
    } else if accuracy_tenths == 0 {
        HeatColor::Reset
    } else if accuracy_tenths >= 800 {
        HeatColor::Green
    } else if accuracy_tenths >= 500 {
        HeatColor::Blue
    } else {
        HeatColor::Red
    }
}

pub fn get_color_by_accuracy(accuracy_tenths: u64) -> (r: HeatColor)
    ensures
        r == color_of(accuracy_tenths),
{
    if accuracy_tenths == 1010 {
        HeatColor::Yellow
    } else if accuracy_tenths == 0 {
        HeatColor::Reset
    } else if accuracy_tenths >= 800 {
        HeatColor::Green
    } else if accuracy_tenths >= 500 {
        HeatColor::Blue
    } else {
        HeatColor::Red
    }
}

/// The built-in practice sentences, one per line.
pub fn get_default_sentences() -> (r: String)
    ensures
        r@ == (
        "The quick brown fox jumps over the lazy dog.\nA black cat crossed the busy street.\nThe old oak tree stood tall in the forest.\nSally baked a delicious apple pie for dessert.\nThe sun set behind the mountains in a blaze of colors.\nA gentle breeze rustled the leaves in the garden.\nThe waves crashed against the rocky shore.\nThe smell of fresh coffee filled the room.\nThe sound of laughter echoed through the hallway.\nThe stars twinkled in the night sky above."
        )@,
{
    "The quick brown fox jumps over the lazy dog.\nA black cat crossed the busy street.\nThe old oak tree stood tall in the forest.\nSally baked a delicious apple pie for dessert.\nThe sun set behind the mountains in a blaze of colors.\nA gentle breeze rustled the leaves in the garden.\nThe waves crashed against the rocky shore.\nThe smell of fresh coffee filled the room.\nThe sound of laughter echoed through the hallway.\nThe stars twinkled in the night sky above.".to_owned()
}

} // verus!

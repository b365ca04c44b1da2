//! The colours of a text and the channels they are mixed from.

use vstd::prelude::*;

verus! {

/// The seven colours a character of a text payload can be shown in.
///
/// The display has one bit plane per primary channel (red, green, blue);
/// every other colour is a mix of primaries.
#[derive(PartialEq, Eq, Structural, Clone, Copy, Debug)]
pub enum CoolLEDColors {
    White,
    Red,
    Green,
    Blue,
    Yellow,
    Pink,
    Cyan,
}

impl CoolLEDColors {
    /// Whether `self` lights the channel `color`.
    ///
    /// White lights every channel, a primary lights only itself, and the
    /// three mixes light their two primaries: yellow is red and green, pink
    /// is red and blue, cyan is blue and green. No colour but white lights a
    /// channel that is not a primary.
    pub open spec fn contains(&self, color: CoolLEDColors) -> bool {
        match *self {
            CoolLEDColors::White => true,
            CoolLEDColors::Red => color == CoolLEDColors::Red,
            CoolLEDColors::Green => color == CoolLEDColors::Green,
            CoolLEDColors::Blue => color == CoolLEDColors::Blue,
            CoolLEDColors::Yellow => color == CoolLEDColors::Red || color == CoolLEDColors::Green,
            CoolLEDColors::Pink => color == CoolLEDColors::Red || color == CoolLEDColors::Blue,
            CoolLEDColors::Cyan => color == CoolLEDColors::Blue || color == CoolLEDColors::Green,
        }
    }

    /// Tells whether this colour lights the channel `color`.
    #[verifier::when_used_as_spec(contains)]
    pub fn has(&self, color: CoolLEDColors) -> (lit: bool)
        ensures
            lit == self.contains(color),
    {
        match self {
            CoolLEDColors::White => true,
            CoolLEDColors::Red => color == CoolLEDColors::Red,
            CoolLEDColors::Green => color == CoolLEDColors::Green,
            CoolLEDColors::Blue => color == CoolLEDColors::Blue,
            CoolLEDColors::Yellow => color == CoolLEDColors::Red || color == CoolLEDColors::Green,
            CoolLEDColors::Pink => color == CoolLEDColors::Red || color == CoolLEDColors::Blue,
            CoolLEDColors::Cyan => color == CoolLEDColors::Blue || color == CoolLEDColors::Green,
        }
    }
}

} // verus!

//! The bow on the string: whether the string sticks to the hair or slips.

use vstd::prelude::*;

verus! {

/// How the bow holds the string at the contact point.
#[derive(Clone, Copy, Debug, PartialEq, Eq, Structural)]
pub enum ContactState {
    /// Bow not touching the string.
    Off,
    /// String moves with the bow.
    Stick,
    /// String slides under the bow; `positive` means the bow is faster
    /// (`v_b > v_s`).
    Slip { positive: bool },
}

impl Default for ContactState {
    /// Off the string.
    fn default() -> (c: Self)
        ensures
            c == ContactState::Off,
    {
        ContactState::Off
    }
}

impl ContactState {
    /// The string slides under the bow.
    pub fn is_slipping(self) -> (r: bool)
        ensures
            r == (self is Slip),
    {
        match self {
            ContactState::Slip { .. } => true,
            _ => false,
        }
    }
}

} // verus!

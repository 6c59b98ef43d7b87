//! What the audio thread publishes for the editor: notes as signed words
//! (-1 for none), and the count of slip onsets that measures Helmholtz
//! motion.

use vstd::prelude::*;

verus! {

/// A note as the telemetry stores it: the note, or -1 for none.
pub fn note_code(note: Option<u8>) -> (code: i32)
    ensures
        code == (match note {
            Some(n) => n as int,
            None => -1,
        }),
{
    match note {
        Some(n) => n as i32,
        None => -1,
    }
}

/// The note a telemetry word holds, if it is one (0 to 255).
pub fn note_from(code: i32) -> (note: Option<u8>)
    ensures
        note == (if 0 <= code <= 255 {
            Some(code as u8)
        } else {
            None::<u8>
        }),
{
    if 0 <= code && code <= 255 {
        Some(code as u8)
    } else {
        None
    }
}

/// A note published and read back is the same note, and no note is read
/// back as none.
pub proof fn lemma_note_round_trip(note: Option<u8>)
    ensures
        (match note {
            Some(n) => n as int,
            None => -1int,
        }) >= -1,
        ({
            let code = match note {
                Some(n) => n as int,
                None => -1int,
            };
            (if 0 <= code <= 255 {
                Some(code as u8)
            } else {
                None::<u8>
            }) == note
        }),
{
}

/// Counts slip onsets on the bowed string: one per period is Helmholtz
/// motion. The slips per period come from the span between the first and
/// the last onset in a window, which is exact for periodic motion.
#[derive(Clone, Copy, Debug)]
pub struct SlipCounter {
    pub was_slipping: bool,
    /// Samples since the window began.
    pub clock: u32,
    /// Slip onsets in the window.
    pub onsets: u32,
    /// When the first and the last onset came.
    pub first: u32,
    pub last: u32,
}

/// In a window the onsets come in order: the first no later than the last,
/// and both before the clock.
pub open spec fn window_ordered(c: SlipCounter) -> bool {
    c.onsets > 0 ==> c.first <= c.last < c.clock
}

impl SlipCounter {
    /// A window that starts now, the string not slipping.
    pub fn new() -> (c: SlipCounter)
        ensures
            c == (SlipCounter { was_slipping: false, clock: 0, onsets: 0, first: 0, last: 0 }),
    {
        SlipCounter { was_slipping: false, clock: 0, onsets: 0, first: 0, last: 0 }
    }

    /// One sample: `slipping` is whether the string slips under the bow now.
    /// A slip that begins is an onset.
    pub fn tick(&mut self, slipping: bool)
        requires
            old(self).clock < u32::MAX,
            old(self).onsets < u32::MAX,
        ensures
            ({
                let onset = slipping && !old(self).was_slipping;
                &&& final(self).was_slipping == slipping
                &&& final(self).clock == old(self).clock + 1
                &&& final(self).onsets == old(self).onsets + if onset {
                    1int
                } else {
                    0int
                }
                &&& final(self).first == if onset && old(self).onsets == 0 {
                    old(self).clock
                } else {
                    old(self).first
                }
                &&& final(self).last == if onset {
                    old(self).clock
                } else {
                    old(self).last
                }
            }),
            window_ordered(*old(self)) ==> window_ordered(*final(self)),
    {
        if slipping && !self.was_slipping {
            if self.onsets == 0 {
                self.first = self.clock;
            }
            self.last = self.clock;
            self.onsets = self.onsets + 1;
        }
        self.was_slipping = slipping;
        self.clock = self.clock + 1;
    }

    /// Starts a new window, keeping whether the string slips.
    pub fn restart(&mut self)
        ensures
            *final(self) == (SlipCounter {
                was_slipping: old(self).was_slipping,
                clock: 0,
                onsets: 0,
                first: 0,
                last: 0,
            }),
    {
        *self = SlipCounter { was_slipping: self.was_slipping, clock: 0, onsets: 0, first: 0, last: 0 };
    }
}

} // verus!

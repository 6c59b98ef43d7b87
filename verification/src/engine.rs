//! The plugin engine's choices: what a MIDI controller does, and which
//! parameters reach the performer (a parameter only acts when it changes, so
//! a controller moved since keeps its value until then).

use vstd::prelude::*;
use crate::params::{BowLiftParam, FingeringParam, PolyphonyParam};

verus! {

/// The expression pedal plays the dynamics.
pub const CC_DYNAMICS: u8 = 11;
/// The mod wheel plays the vibrato.
pub const CC_VIBRATO: u8 = 1;
pub const CC_ALL_SOUND_OFF: u8 = 120;
pub const CC_ALL_NOTES_OFF: u8 = 123;

/// What a MIDI controller change does.
#[derive(Clone, Copy, Debug, PartialEq, Eq, Structural)]
pub enum Controller {
    Dynamics,
    Vibrato,
    /// Every held note let go (the bow finishes its stroke).
    AllNotesOff,
    /// Silence at once.
    AllSoundOff,
    Ignore,
}

/// The action of controller `cc`.
pub fn controller(cc: u8) -> (c: Controller)
    ensures
        c == (if cc == CC_DYNAMICS {
            Controller::Dynamics
        } else if cc == CC_VIBRATO {
            Controller::Vibrato
        } else if cc == CC_ALL_NOTES_OFF {
            Controller::AllNotesOff
        } else if cc == CC_ALL_SOUND_OFF {
            Controller::AllSoundOff
        } else {
            Controller::Ignore
        }),
{
    if cc == CC_DYNAMICS {
        Controller::Dynamics
    } else if cc == CC_VIBRATO {
        Controller::Vibrato
    } else if cc == CC_ALL_NOTES_OFF {
        Controller::AllNotesOff
    } else if cc == CC_ALL_SOUND_OFF {
        Controller::AllSoundOff
    } else {
        Controller::Ignore
    }
}

/// The modes last passed to the performer, to pass on only changes.
#[derive(Clone, Copy, Debug, PartialEq, Eq, Structural)]
pub struct Applied {
    pub bow_lift: Option<BowLiftParam>,
    pub polyphony: Option<PolyphonyParam>,
    pub fingering: Option<FingeringParam>,
}

impl Applied {
    /// Nothing passed yet: every mode acts once.
    pub fn new() -> (a: Applied)
        ensures
            a.bow_lift is None && a.polyphony is None && a.fingering is None,
    {
        Applied { bow_lift: None, polyphony: None, fingering: None }
    }

    /// Whether the bow lift parameter acts now (it changed since it last
    /// did); it is remembered.
    pub fn bow_lift(&mut self, b: BowLiftParam) -> (acts: bool)
        ensures
            acts == (old(self).bow_lift != Some(b)),
            final(self).bow_lift == Some(b),
            final(self).polyphony == old(self).polyphony,
            final(self).fingering == old(self).fingering,
    {
        let acts = match self.bow_lift {
            Some(a) => a != b,
            None => true,
        };
        self.bow_lift = Some(b);
        acts
    }

    /// Whether the polyphony parameter acts now; it is remembered.
    pub fn polyphony(&mut self, p: PolyphonyParam) -> (acts: bool)
        ensures
            acts == (old(self).polyphony != Some(p)),
            final(self).polyphony == Some(p),
            final(self).bow_lift == old(self).bow_lift,
            final(self).fingering == old(self).fingering,
    {
        let acts = match self.polyphony {
            Some(a) => a != p,
            None => true,
        };
        self.polyphony = Some(p);
        acts
    }

    /// Whether the fingering parameter acts now; it is remembered.
    pub fn fingering(&mut self, f: FingeringParam) -> (acts: bool)
        ensures
            acts == (old(self).fingering != Some(f)),
            final(self).fingering == Some(f),
            final(self).bow_lift == old(self).bow_lift,
            final(self).polyphony == old(self).polyphony,
    {
        let acts = match self.fingering {
            Some(a) => a != f,
            None => true,
        };
        self.fingering = Some(f);
        acts
    }
}

} // verus!

//! The groups of settings in the tuning window.

use vstd::prelude::*;

verus! {

/// A group of the tuning window's settings.
#[derive(Clone, Copy, Debug, PartialEq, Eq, Structural)]
pub enum Group {
    Attack,
    Sustain,
    Release,
    Legato,
    OnString,
    Vibrato,
    Intonation,
    Bow,
    Body,
    Section,
    Strings,
}

impl Group {
    /// The groups in the order the window shows them.
    pub const ALL: [Group; 11] = [
        Group::Attack,
        Group::Sustain,
        Group::Release,
        Group::Legato,
        Group::OnString,
        Group::Vibrato,
        Group::Intonation,
        Group::Bow,
        Group::Body,
        Group::Section,
        Group::Strings,
    ];

    /// The heading the window shows.
    pub open spec fn heading(self) -> Seq<char> {
        match self {
            Group::Attack => "Attack"@,
            Group::Sustain => "Sustain"@,
            Group::Release => "Release and left hand"@,
            Group::Legato => "Legato"@,
            Group::OnString => "Bow on the string"@,
            Group::Vibrato => "Vibrato"@,
            Group::Intonation => "Intonation"@,
            Group::Bow => "Bow"@,
            Group::Body => "Body"@,
            Group::Section => "Section: how the players differ (not player 0)"@,
            Group::Strings => "Strings (refitted on release, about 30 ms)"@,
        }
    }

    pub fn name(self) -> (s: &'static str)
        ensures
            s@ == self.heading(),
    {
        match self {
            Group::Attack => "Attack",
            Group::Sustain => "Sustain",
            Group::Release => "Release and left hand",
            Group::Legato => "Legato",
            Group::OnString => "Bow on the string",
            Group::Vibrato => "Vibrato",
            Group::Intonation => "Intonation",
            Group::Bow => "Bow",
            Group::Body => "Body",
            Group::Section => "Section: how the players differ (not player 0)",
            Group::Strings => "Strings (refitted on release, about 30 ms)",
        }
    }
}

/// Each group of the tuning window has a heading of its own.
pub proof fn lemma_group_headings_differ(a: Group, b: Group)
    requires
        a != b,
    ensures
        a.heading() != b.heading(),
{
    reveal_strlit("Attack");
    reveal_strlit("Sustain");
    reveal_strlit("Release and left hand");
    reveal_strlit("Legato");
    reveal_strlit("Bow on the string");
    reveal_strlit("Vibrato");
    reveal_strlit("Intonation");
    reveal_strlit("Bow");
    reveal_strlit("Body");
    reveal_strlit("Section: how the players differ (not player 0)");
    reveal_strlit("Strings (refitted on release, about 30 ms)");
    let x = a.heading();
    let y = b.heading();
    assert(x.len() != y.len() || x[0] != y[0]);
}

} // verus!

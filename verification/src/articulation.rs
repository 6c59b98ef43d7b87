//! What the performer names its playing, and the few names the status panel
//! shows, newest first.

use vstd::prelude::*;

verus! {

/// An articulation, as the performer names what it plays.
#[derive(Clone, Copy, Debug, PartialEq, Eq, Structural)]
pub enum Articulation {
    SoftAttack,
    Detache,
    AccentedAttack,
    StaccatoAttack,
    Martele,
    Legato,
    Shift,
    Portamento,
    StringCrossing,
    DoubleStop,
    BowLift,
    Spiccato,
    BowStop,
    BowChange,
}

/// How many of the latest articulations the status panel shows.
pub const ARTICULATIONS: usize = 3;

impl Articulation {
    /// Every articulation; the telemetry sends an index into it.
    pub const ALL: [Articulation; 14] = [
        Articulation::SoftAttack,
        Articulation::Detache,
        Articulation::AccentedAttack,
        Articulation::StaccatoAttack,
        Articulation::Martele,
        Articulation::Legato,
        Articulation::Shift,
        Articulation::Portamento,
        Articulation::StringCrossing,
        Articulation::DoubleStop,
        Articulation::BowLift,
        Articulation::Spiccato,
        Articulation::BowStop,
        Articulation::BowChange,
    ];

    /// The articulation the telemetry's `index` stands for, if any (a
    /// negative index is none).
    pub fn from_index(index: i32) -> (a: Option<Articulation>)
        ensures
            a == (if 0 <= index < 14 {
                Some(Self::ALL[index as int])
            } else {
                None::<Articulation>
            }),
    {
        if 0 <= index && index < 14 {
            Some(Self::ALL[index as usize])
        } else {
            None
        }
    }
}

/// The name the status panel shows for an articulation.
pub open spec fn caption(a: Articulation) -> Seq<char> {
    match a {
        Articulation::SoftAttack => "Soft Attack"@,
        Articulation::Detache => "D\u{e9}tach\u{e9}"@,
        Articulation::AccentedAttack => "Accented Attack"@,
        Articulation::StaccatoAttack => "Staccato Attack"@,
        Articulation::Martele => "Martel\u{e9}"@,
        Articulation::Legato => "Slurred Legato"@,
        Articulation::Shift => "Shift"@,
        Articulation::Portamento => "Portamento"@,
        Articulation::StringCrossing => "Cross-String Legato"@,
        Articulation::DoubleStop => "Double Stop"@,
        Articulation::BowLift => "Bow Lift"@,
        Articulation::Spiccato => "Spiccato"@,
        Articulation::BowStop => "Bow Stop"@,
        Articulation::BowChange => "Bow Change"@,
    }
}

/// Each articulation has a caption of its own: the status panel never
/// shows two articulations under one name.
pub proof fn lemma_captions_differ(a: Articulation, b: Articulation)
    requires
        a != b,
    ensures
        caption(a) != caption(b),
{
    reveal_strlit("Soft Attack");
    reveal_strlit("D\u{e9}tach\u{e9}");
    reveal_strlit("Accented Attack");
    reveal_strlit("Staccato Attack");
    reveal_strlit("Martel\u{e9}");
    reveal_strlit("Slurred Legato");
    reveal_strlit("Shift");
    reveal_strlit("Portamento");
    reveal_strlit("Cross-String Legato");
    reveal_strlit("Double Stop");
    reveal_strlit("Bow Lift");
    reveal_strlit("Spiccato");
    reveal_strlit("Bow Stop");
    reveal_strlit("Bow Change");
    let x = caption(a);
    let y = caption(b);
    assert(x.len() != y.len() || x[0] != y[0] || x[4] != y[4]);
}

pub fn label(a: Articulation) -> (s: &'static str)
    ensures
        s@ == caption(a),
{
    match a {
        Articulation::SoftAttack => "Soft Attack",
        Articulation::Detache => "D\u{e9}tach\u{e9}",
        Articulation::AccentedAttack => "Accented Attack",
        Articulation::StaccatoAttack => "Staccato Attack",
        Articulation::Martele => "Martel\u{e9}",
        Articulation::Legato => "Slurred Legato",
        Articulation::Shift => "Shift",
        Articulation::Portamento => "Portamento",
        Articulation::StringCrossing => "Cross-String Legato",
        Articulation::DoubleStop => "Double Stop",
        Articulation::BowLift => "Bow Lift",
        Articulation::Spiccato => "Spiccato",
        Articulation::BowStop => "Bow Stop",
        Articulation::BowChange => "Bow Change",
    }
}

/// The latest [`ARTICULATIONS`] articulations, newest first, and how many
/// there have been (counting round).
#[derive(Clone, Copy, Debug)]
pub struct Recent {
    pub latest: [Option<Articulation>; ARTICULATIONS],
    pub count: u32,
}

impl Recent {
    /// None yet.
    pub fn new() -> (r: Recent)
        ensures
            r.latest@ == seq![None::<Articulation>, None, None],
            r.count == 0,
    {
        let r = Recent { latest: [None, None, None], count: 0 };
        assert(r.latest@ =~= seq![None::<Articulation>, None, None]);
        r
    }

    /// Records `a` as the newest; the oldest shown drops out.
    pub fn record(&mut self, a: Articulation)
        ensures
            final(self).latest@ == seq![Some(a), old(self).latest@[0], old(self).latest@[1]],
            final(self).count == old(self).count.wrapping_add(1),
    {
        let first = self.latest[0];
        let second = self.latest[1];
        self.latest = [Some(a), first, second];
        self.count = self.count.wrapping_add(1);
        assert(self.latest@ =~= seq![Some(a), first, second]);
    }
}

} // verus!

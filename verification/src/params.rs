//! The choices the host and the editor offer: the instrument, and the
//! playing modes as the editor lists and names them.

use vstd::prelude::*;
use crate::performer::{BowLift, Fingering, Polyphony};

verus! {

/// The instrument the plugin plays.
#[derive(Clone, Copy, Debug, PartialEq, Eq, Structural)]
pub enum InstrumentParam {
    Cello,
    Violin,
    Viola,
    Bass,
}

impl InstrumentParam {
    /// Highest first, as in a score.
    pub const ALL: [InstrumentParam; 4] = [
        InstrumentParam::Violin,
        InstrumentParam::Viola,
        InstrumentParam::Cello,
        InstrumentParam::Bass,
    ];

    /// Where it is in [`Self::ALL`].
    pub open spec fn place(self) -> int {
        match self {
            InstrumentParam::Violin => 0,
            InstrumentParam::Viola => 1,
            InstrumentParam::Cello => 2,
            InstrumentParam::Bass => 3,
        }
    }

    /// Where it is in [`Self::ALL`] (the telemetry's index).
    pub fn index(self) -> (i: usize)
        ensures
            i == self.place(),
            Self::ALL[i as int] == self,
    {
        let mut i: usize = 0;
        while i < 4
            invariant
                i <= 4,
                forall|k: int| 0 <= k < i ==> Self::ALL[k] != self,
            decreases 4 - i,
        {
            if Self::ALL[i] == self {
                return i;
            }
            i = i + 1;
        }
        0
    }

    /// The instrument at `i` of [`Self::ALL`], counting round.
    pub fn at(i: usize) -> (p: InstrumentParam)
        ensures
            p == Self::ALL[(i % 4) as int],
    {
        Self::ALL[i % 4]
    }

    /// The name the editor shows.
    pub open spec fn title(self) -> Seq<char> {
        match self {
            InstrumentParam::Cello => "Cello"@,
            InstrumentParam::Violin => "Violin"@,
            InstrumentParam::Viola => "Viola"@,
            InstrumentParam::Bass => "Double bass"@,
        }
    }

    pub fn name(self) -> (s: &'static str)
        ensures
            s@ == self.title(),
    {
        match self {
            InstrumentParam::Cello => "Cello",
            InstrumentParam::Violin => "Violin",
            InstrumentParam::Viola => "Viola",
            InstrumentParam::Bass => "Double bass",
        }
    }
}

/// Finding an instrument's place in [`InstrumentParam::ALL`] and taking the
/// instrument there gives it back.
pub proof fn lemma_instrument_index(p: InstrumentParam)
    ensures
        InstrumentParam::ALL[p.place()] == p,
        0 <= p.place() < 4,
{
}

/// What the bow does at the end of a detached note, as the editor offers it.
#[derive(Clone, Copy, Debug, PartialEq, Eq, Structural)]
pub enum BowLiftParam {
    OffString,
    OnString,
}

impl BowLiftParam {
    pub const ALL: [BowLiftParam; 2] = [BowLiftParam::OffString, BowLiftParam::OnString];

    /// The name the editor shows.
    pub open spec fn title(self) -> Seq<char> {
        match self {
            BowLiftParam::OffString => "Off string"@,
            BowLiftParam::OnString => "On string"@,
        }
    }

    pub fn name(self) -> (s: &'static str)
        ensures
            s@ == self.title(),
    {
        match self {
            BowLiftParam::OffString => "Off string",
            BowLiftParam::OnString => "On string",
        }
    }

    /// The bow lift at `i` of [`Self::ALL`], counting round.
    pub fn at(i: u32) -> (b: BowLiftParam)
        ensures
            b == Self::ALL[(i % 2) as int],
    {
        Self::ALL[(i % 2) as usize]
    }

    /// Where it is in [`Self::ALL`].
    pub fn index(self) -> (i: u32)
        ensures
            Self::ALL[i as int] == self,
            i < 2,
    {
        match self {
            BowLiftParam::OffString => 0,
            BowLiftParam::OnString => 1,
        }
    }
}

impl From<BowLiftParam> for BowLift {
    fn from(b: BowLiftParam) -> (r: BowLift) {
        match b {
            BowLiftParam::OffString => BowLift::OffString,
            BowLiftParam::OnString => BowLift::OnString,
        }
    }
}

impl vstd::std_specs::convert::FromSpecImpl<BowLiftParam> for BowLift {
    open spec fn obeys_from_spec() -> bool {
        true
    }

    open spec fn from_spec(b: BowLiftParam) -> BowLift {
        match b {
            BowLiftParam::OffString => BowLift::OffString,
            BowLiftParam::OnString => BowLift::OnString,
        }
    }
}

impl From<BowLift> for BowLiftParam {
    fn from(b: BowLift) -> (r: BowLiftParam) {
        match b {
            BowLift::OffString => BowLiftParam::OffString,
            BowLift::OnString => BowLiftParam::OnString,
        }
    }
}

impl vstd::std_specs::convert::FromSpecImpl<BowLift> for BowLiftParam {
    open spec fn obeys_from_spec() -> bool {
        true
    }

    open spec fn from_spec(b: BowLift) -> BowLiftParam {
        match b {
            BowLift::OffString => BowLiftParam::OffString,
            BowLift::OnString => BowLiftParam::OnString,
        }
    }
}

/// One note at a time, two, or a chord divided, as the editor offers it.
#[derive(Clone, Copy, Debug, PartialEq, Eq, Structural)]
pub enum PolyphonyParam {
    Mono,
    DoubleStops,
    /// A section divides a chord's notes among its players.
    Divisi,
}

impl PolyphonyParam {
    pub const ALL: [PolyphonyParam; 3] = [PolyphonyParam::Mono, PolyphonyParam::DoubleStops, PolyphonyParam::Divisi];

    /// The name the editor shows.
    pub open spec fn title(self) -> Seq<char> {
        match self {
            PolyphonyParam::Mono => "Mono"@,
            PolyphonyParam::DoubleStops => "Double stops"@,
            PolyphonyParam::Divisi => "Divisi"@,
        }
    }

    pub fn name(self) -> (s: &'static str)
        ensures
            s@ == self.title(),
    {
        match self {
            PolyphonyParam::Mono => "Mono",
            PolyphonyParam::DoubleStops => "Double stops",
            PolyphonyParam::Divisi => "Divisi",
        }
    }

    /// The polyphony at `i` of [`Self::ALL`], counting round.
    pub fn at(i: u32) -> (p: PolyphonyParam)
        ensures
            p == Self::ALL[(i % 3) as int],
    {
        Self::ALL[(i % 3) as usize]
    }
}

impl From<PolyphonyParam> for Polyphony {
    fn from(p: PolyphonyParam) -> (r: Polyphony) {
        match p {
            PolyphonyParam::Mono => Polyphony::Mono,
            PolyphonyParam::DoubleStops => Polyphony::DoubleStops,
            PolyphonyParam::Divisi => Polyphony::Divisi,
        }
    }
}

impl vstd::std_specs::convert::FromSpecImpl<PolyphonyParam> for Polyphony {
    open spec fn obeys_from_spec() -> bool {
        true
    }

    open spec fn from_spec(p: PolyphonyParam) -> Polyphony {
        match p {
            PolyphonyParam::Mono => Polyphony::Mono,
            PolyphonyParam::DoubleStops => Polyphony::DoubleStops,
            PolyphonyParam::Divisi => Polyphony::Divisi,
        }
    }
}

impl From<Polyphony> for PolyphonyParam {
    fn from(p: Polyphony) -> (r: PolyphonyParam) {
        match p {
            Polyphony::Mono => PolyphonyParam::Mono,
            Polyphony::DoubleStops => PolyphonyParam::DoubleStops,
            Polyphony::Divisi => PolyphonyParam::Divisi,
        }
    }
}

impl vstd::std_specs::convert::FromSpecImpl<Polyphony> for PolyphonyParam {
    open spec fn obeys_from_spec() -> bool {
        true
    }

    open spec fn from_spec(p: Polyphony) -> PolyphonyParam {
        match p {
            Polyphony::Mono => PolyphonyParam::Mono,
            Polyphony::DoubleStops => PolyphonyParam::DoubleStops,
            Polyphony::Divisi => PolyphonyParam::Divisi,
        }
    }
}

/// Where the left hand plays, as the editor offers it.
#[derive(Clone, Copy, Debug, PartialEq, Eq, Structural)]
pub enum FingeringParam {
    NutAndOpen,
    Mid,
    Bridge,
}

impl FingeringParam {
    pub const ALL: [FingeringParam; 3] = [FingeringParam::NutAndOpen, FingeringParam::Mid, FingeringParam::Bridge];

    /// The name the editor shows.
    pub open spec fn title(self) -> Seq<char> {
        match self {
            FingeringParam::NutAndOpen => "Near the nut & open"@,
            FingeringParam::Mid => "Mid position"@,
            FingeringParam::Bridge => "Near the bridge"@,
        }
    }

    pub fn name(self) -> (s: &'static str)
        ensures
            s@ == self.title(),
    {
        match self {
            FingeringParam::NutAndOpen => "Near the nut & open",
            FingeringParam::Mid => "Mid position",
            FingeringParam::Bridge => "Near the bridge",
        }
    }
}

impl From<FingeringParam> for Fingering {
    fn from(f: FingeringParam) -> (r: Fingering) {
        match f {
            FingeringParam::NutAndOpen => Fingering::NutAndOpen,
            FingeringParam::Mid => Fingering::Mid,
            FingeringParam::Bridge => Fingering::Bridge,
        }
    }
}

impl vstd::std_specs::convert::FromSpecImpl<FingeringParam> for Fingering {
    open spec fn obeys_from_spec() -> bool {
        true
    }

    open spec fn from_spec(f: FingeringParam) -> Fingering {
        match f {
            FingeringParam::NutAndOpen => Fingering::NutAndOpen,
            FingeringParam::Mid => Fingering::Mid,
            FingeringParam::Bridge => Fingering::Bridge,
        }
    }
}

/// A bow lift given to the performer and read back from it is the one the
/// editor chose, and the same for the polyphony.
pub proof fn lemma_params_round_trip(b: BowLiftParam, p: PolyphonyParam)
    ensures
        <BowLiftParam as vstd::std_specs::convert::FromSpec<BowLift>>::from_spec(
            <BowLift as vstd::std_specs::convert::FromSpec<BowLiftParam>>::from_spec(b),
        ) == b,
        <PolyphonyParam as vstd::std_specs::convert::FromSpec<Polyphony>>::from_spec(
            <Polyphony as vstd::std_specs::convert::FromSpec<PolyphonyParam>>::from_spec(p),
        ) == p,
{
}

/// Each instrument has a name of its own.
pub proof fn lemma_instrument_names_differ(a: InstrumentParam, b: InstrumentParam)
    requires
        a != b,
    ensures
        a.title() != b.title(),
{
    reveal_strlit("Cello");
    reveal_strlit("Violin");
    reveal_strlit("Viola");
    reveal_strlit("Double bass");
    let x = a.title();
    let y = b.title();
    assert(x.len() != y.len() || x[0] != y[0]);
}

/// Each bow lift has a name of its own.
pub proof fn lemma_bow_lift_names_differ(a: BowLiftParam, b: BowLiftParam)
    requires
        a != b,
    ensures
        a.title() != b.title(),
{
    reveal_strlit("Off string");
    reveal_strlit("On string");
    let x = a.title();
    let y = b.title();
    assert(x.len() != y.len());
}

/// Each polyphony has a name of its own.
pub proof fn lemma_polyphony_names_differ(a: PolyphonyParam, b: PolyphonyParam)
    requires
        a != b,
    ensures
        a.title() != b.title(),
{
    reveal_strlit("Mono");
    reveal_strlit("Double stops");
    reveal_strlit("Divisi");
    let x = a.title();
    let y = b.title();
    assert(x.len() != y.len());
}

/// Each fingering has a name of its own.
pub proof fn lemma_fingering_names_differ(a: FingeringParam, b: FingeringParam)
    requires
        a != b,
    ensures
        a.title() != b.title(),
{
    reveal_strlit("Near the nut & open");
    reveal_strlit("Mid position");
    reveal_strlit("Near the bridge");
    let x = a.title();
    let y = b.title();
    assert(x.len() != y.len());
}

} // verus!

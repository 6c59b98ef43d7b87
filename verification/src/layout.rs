//! This instance's room as the stage file and the projects number and name
//! it, a section's name when none is set, and the clock the stage runs on.

use vstd::prelude::*;
use crate::params::InstrumentParam;
use crate::sync::ascii_lower;
use crate::stage::{Absorption, RoomPreset};

verus! {

/// Where `r` is in [`RoomPreset::ALL`]: the number the stage file keeps.
pub fn room_index(r: RoomPreset) -> (i: u32)
    ensures
        i < 4,
        RoomPreset::ALL[i as int] == r,
{
    let mut i: usize = 0;
    while i < 4
        invariant
            i <= 4,
            forall|k: int| 0 <= k < i ==> RoomPreset::ALL[k] != r,
        decreases 4 - i,
    {
        if RoomPreset::ALL[i] == r {
            return i as u32;
        }
        i = i + 1;
    }
    0
}

/// Where `a` is in [`Absorption::ALL`]: the number the stage file keeps.
pub fn absorption_index(a: Absorption) -> (i: u32)
    ensures
        i < 3,
        Absorption::ALL[i as int] == a,
{
    let mut i: usize = 0;
    while i < 3
        invariant
            i <= 3,
            forall|k: int| 0 <= k < i ==> Absorption::ALL[k] != a,
        decreases 3 - i,
    {
        if Absorption::ALL[i] == a {
            return i as u32;
        }
        i = i + 1;
    }
    0
}

/// The room a stage file's number stands for, counting round (a number
/// from a newer or damaged file still names a room).
pub fn room_at(i: u32) -> (r: RoomPreset)
    ensures
        r == RoomPreset::ALL[(i % 4) as int],
{
    RoomPreset::ALL[(i % 4) as usize]
}

/// The absorption a stage file's number stands for, counting round.
pub fn absorption_at(i: u32) -> (a: Absorption)
    ensures
        a == Absorption::ALL[(i % 3) as int],
{
    Absorption::ALL[(i % 3) as usize]
}

/// The room a saved parameter's index names, if it names one (projects
/// saved before the layout kept the room as a parameter's index).
pub fn room_by_index(i: i32) -> (r: Option<RoomPreset>)
    ensures
        r == (if 0 <= i < 4 {
            Some(RoomPreset::ALL[i as int])
        } else {
            None::<RoomPreset>
        }),
{
    if 0 <= i && i < 4 {
        Some(RoomPreset::ALL[i as usize])
    } else {
        None
    }
}

/// The absorption a saved parameter's index names, if it names one.
pub fn absorption_by_index(i: i32) -> (a: Option<Absorption>)
    ensures
        a == (if 0 <= i < 3 {
            Some(Absorption::ALL[i as int])
        } else {
            None::<Absorption>
        }),
{
    if 0 <= i && i < 3 {
        Some(Absorption::ALL[i as usize])
    } else {
        None
    }
}

/// A room numbered and read back is the same room, and the same for an
/// absorption.
pub proof fn lemma_index_round_trip(r: RoomPreset, a: Absorption, i: u32, j: u32)
    requires
        i < 4,
        RoomPreset::ALL[i as int] == r,
        j < 3,
        Absorption::ALL[j as int] == a,
    ensures
        RoomPreset::ALL[(i % 4) as int] == r,
        Absorption::ALL[(j % 3) as int] == a,
{
}

/// The id a project saves a room under.
pub open spec fn room_key(r: RoomPreset) -> Seq<char> {
    match r {
        RoomPreset::Studio => "studio"@,
        RoomPreset::ChamberHall => "chamber-hall"@,
        RoomPreset::ConcertHall => "concert-hall"@,
        RoomPreset::ScoringStage => "scoring-stage"@,
    }
}

pub fn room_id(r: RoomPreset) -> (s: &'static str)
    ensures
        s@ == room_key(r),
{
    match r {
        RoomPreset::Studio => "studio",
        RoomPreset::ChamberHall => "chamber-hall",
        RoomPreset::ConcertHall => "concert-hall",
        RoomPreset::ScoringStage => "scoring-stage",
    }
}

/// The id a project saves an absorption under.
pub open spec fn absorption_key(a: Absorption) -> Seq<char> {
    match a {
        Absorption::Low => "low"@,
        Absorption::Medium => "medium"@,
        Absorption::High => "high"@,
    }
}

pub fn absorption_id(a: Absorption) -> (s: &'static str)
    ensures
        s@ == absorption_key(a),
{
    match a {
        Absorption::Low => "low",
        Absorption::Medium => "medium",
        Absorption::High => "high",
    }
}

/// `a` and `b` are the same text.
fn same_text(a: &str, b: &str) -> (r: bool)
    ensures
        r == (a@ == b@),
{
    let x = a.to_owned();
    let y = b.to_owned();
    x == y
}

/// The room a project saved under `id`, or the default room for an id it
/// doesn't know.
pub fn room_from_id(id: &str) -> (r: RoomPreset)
    ensures
        (exists|k: int| 0 <= k < 4 && room_key(RoomPreset::ALL[k]) == id@) ==> room_key(r) == id@,
        !(exists|k: int| 0 <= k < 4 && room_key(RoomPreset::ALL[k]) == id@) ==> r == RoomPreset::ChamberHall,
{
    let mut i: usize = 0;
    while i < 4
        invariant
            i <= 4,
            forall|k: int| 0 <= k < i ==> room_key(RoomPreset::ALL[k]) != id@,
        decreases 4 - i,
    {
        let r = RoomPreset::ALL[i];
        if same_text(room_id(r), id) {
            return r;
        }
        i = i + 1;
    }
    RoomPreset::ChamberHall
}

/// The absorption a project saved under `id`, or the default for an id it
/// doesn't know.
pub fn absorption_from_id(id: &str) -> (a: Absorption)
    ensures
        (exists|k: int| 0 <= k < 3 && absorption_key(Absorption::ALL[k]) == id@) ==> absorption_key(a) == id@,
        !(exists|k: int| 0 <= k < 3 && absorption_key(Absorption::ALL[k]) == id@) ==> a == Absorption::Medium,
{
    let mut i: usize = 0;
    while i < 3
        invariant
            i <= 3,
            forall|k: int| 0 <= k < i ==> absorption_key(Absorption::ALL[k]) != id@,
        decreases 3 - i,
    {
        let a = Absorption::ALL[i];
        if same_text(absorption_id(a), id) {
            return a;
        }
        i = i + 1;
    }
    Absorption::Medium
}

/// Each room's id is its own: a saved room loads back as itself.
pub proof fn lemma_room_ids_differ(r: RoomPreset, s: RoomPreset)
    requires
        r != s,
    ensures
        room_key(r) != room_key(s),
{
    reveal_strlit("studio");
    reveal_strlit("chamber-hall");
    reveal_strlit("concert-hall");
    reveal_strlit("scoring-stage");
    assert(room_key(r).len() != room_key(s).len() || room_key(r)[0] != room_key(s)[0] || room_key(r)[1] != room_key(s)[1]);
}

/// Each absorption's id is its own: a saved absorption loads back as itself.
pub proof fn lemma_absorption_ids_differ(a: Absorption, b: Absorption)
    requires
        a != b,
    ensures
        absorption_key(a) != absorption_key(b),
{
    reveal_strlit("low");
    reveal_strlit("medium");
    reveal_strlit("high");
    assert(absorption_key(a)[0] != absorption_key(b)[0]);
}

/// A section's name when none is set: "Solo cello" for one player, the
/// plural ("Celli") for more.
pub open spec fn default_title(instrument: InstrumentParam, players: u32) -> Seq<char> {
    if players > 1 {
        match instrument {
            InstrumentParam::Violin => "Violins"@,
            InstrumentParam::Viola => "Violas"@,
            InstrumentParam::Cello => "Celli"@,
            InstrumentParam::Bass => "Basses"@,
        }
    } else {
        match instrument {
            InstrumentParam::Violin => "Solo violin"@,
            InstrumentParam::Viola => "Solo viola"@,
            InstrumentParam::Cello => "Solo cello"@,
            InstrumentParam::Bass => "Solo double bass"@,
        }
    }
}

/// A section of one player is named "Solo " and its instrument's name in
/// small letters; and two instruments never share a default name, for one
/// player or for more.
pub proof fn lemma_default_names(instrument: InstrumentParam, other: InstrumentParam, players: u32)
    ensures
        players <= 1 ==> default_title(instrument, players) == "Solo "@ + instrument.title().map_values(
            |c: char| ascii_lower(c),
        ),
        other != instrument ==> default_title(other, players) != default_title(instrument, players),
{
    reveal_strlit("Solo ");
    reveal_strlit("Violin");
    reveal_strlit("Viola");
    reveal_strlit("Cello");
    reveal_strlit("Double bass");
    reveal_strlit("Solo violin");
    reveal_strlit("Solo viola");
    reveal_strlit("Solo cello");
    reveal_strlit("Solo double bass");
    reveal_strlit("Violins");
    reveal_strlit("Violas");
    reveal_strlit("Celli");
    reveal_strlit("Basses");
    if players <= 1 {
        let t = instrument.title();
        let low = t.map_values(|c: char| ascii_lower(c));
        assert forall|i: int| 0 <= i < t.len() implies #[trigger] low[i] == (if i == 0 {
            ((t[0] as u32) + 32) as char
        } else {
            t[i]
        }) by {
            if i == 0 {
                assert((t[0] as u8) as u32 == t[0] as u32);
            }
        }
        assert(default_title(instrument, players) =~= "Solo "@ + low);
    }
    if other != instrument {
        let x = default_title(other, players);
        let y = default_title(instrument, players);
        assert(x.len() != y.len() || x[0] != y[0] || x[4] != y[4] || x[5] != y[5] || x[6] != y[6] || x[9] != y[9]);
    }
}

pub fn default_name(instrument: InstrumentParam, players: u32) -> (s: String)
    ensures
        s@ == default_title(instrument, players),
{
    let name = if players > 1 {
        match instrument {
            InstrumentParam::Violin => "Violins",
            InstrumentParam::Viola => "Violas",
            InstrumentParam::Cello => "Celli",
            InstrumentParam::Bass => "Basses",
        }
    } else {
        match instrument {
            InstrumentParam::Violin => "Solo violin",
            InstrumentParam::Viola => "Solo viola",
            InstrumentParam::Cello => "Solo cello",
            InstrumentParam::Bass => "Solo double bass",
        }
    };
    name.to_owned()
}

/// The system clock's time since the Unix epoch, in milliseconds, if the
/// clock is after it.
///
/// Trusted: calls `std::time::SystemTime::now` and `duration_since`; nothing
/// is stated of the time it reads.
#[verifier::external_body]
fn clock_ms() -> (ms: Option<u128>) {
    std::time::SystemTime::now().duration_since(std::time::UNIX_EPOCH).ok().map(|d| d.as_millis())
}

/// The milliseconds that a reading of the clock gives: the reading cut to its
/// low 64 bits, or 0 for a clock before the Unix epoch (`None`).
pub fn clock_millis(clock: Option<u128>) -> (ms: u64)
    ensures
        ms == match clock {
            Some(c) => (c % 0x1_0000_0000_0000_0000) as u64,
            None => 0u64,
        },
{
    match clock {
        Some(c) => {
            let ms = c as u64;
            assert(ms == c % 0x1_0000_0000_0000_0000) by (bit_vector)
                requires
                    ms == c as u64,
            ;
            ms
        },
        None => 0,
    }
}

/// Milliseconds since the Unix epoch (0 if the clock is before it).
pub fn now_ms() -> (ms: u64) {
    clock_millis(clock_ms())
}

} // verus!

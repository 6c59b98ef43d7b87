//! How a performer plays its notes: the choices that the notes alone decide,
//! apart from the bowing (a floating-point model that runs outside the
//! library). The keys held down, which note of a double stop a legato line
//! goes on from, and what a released key does.

use vstd::prelude::*;
use crate::section::{distinct, first_index, lemma_first_index};

verus! {

/// What the bow does at the end of a detached note. There is one way of
/// playing: a detached note is a new stroke, its velocity setting the attack,
/// and overlapping notes play legato. The bow lift, the velocity and the
/// note's length together give the articulations.
#[derive(Clone, Copy, Debug, PartialEq, Eq, Structural)]
pub enum BowLift {
    /// The bow slows and leaves the string, which rings on. A short note is
    /// thrown off as quickly as it was played (spiccato-like).
    OffString,
    /// The bow stops on the string and stays there, which damps it: short
    /// notes are staccato. The next stroke starts from the string with a grip
    /// and a bite; pressed hard, it is a martelé.
    OnString,
}

impl Default for BowLift {
    /// Off the string.
    fn default() -> (b: Self)
        ensures
            b == BowLift::OffString,
    {
        BowLift::OffString
    }
}

/// One note at a time, or two; or, in a section, a chord divided among the
/// players.
#[derive(Clone, Copy, Debug, PartialEq, Eq, Structural)]
pub enum Polyphony {
    /// Overlapping notes play legato.
    Mono,
    /// A note that comes while another sounds joins it on an adjacent string
    /// (a double stop) if one hand can play both; otherwise it plays legato.
    DoubleStops,
    /// A section divides the notes of a chord among its players, one note
    /// each.
    Divisi,
}

impl Default for Polyphony {
    /// One note at a time.
    fn default() -> (p: Self)
        ensures
            p == Polyphony::Mono,
    {
        Polyphony::Mono
    }
}

/// Where the left hand prefers to play, which chooses the strings. Each mode
/// plays notes up to a number of semitones above a lower string's open pitch
/// on that lower string.
#[derive(Clone, Copy, Debug, PartialEq, Eq, Structural)]
pub enum Fingering {
    /// The lowest positions, with open strings.
    NutAndOpen,
    /// Middle positions: no open strings but the lowest.
    Mid,
    /// High positions on lower strings, the darker color.
    Bridge,
}

impl Default for Fingering {
    /// The lowest positions.
    fn default() -> (f: Self)
        ensures
            f == Fingering::NutAndOpen,
    {
        Fingering::NutAndOpen
    }
}

/// Most keys a performer remembers holding.
pub const MAX_HELD: usize = 16;

/// `s` without `note` (its first place, the only one where nothing is
/// there twice).
pub open spec fn without(s: Seq<u8>, note: u8) -> Seq<u8> {
    if s.contains(note) {
        s.remove(first_index(s, note))
    } else {
        s
    }
}

/// The keys held after `note` is pressed: it moves to the newest place, and
/// the oldest is forgotten when there is no room.
pub open spec fn pressed(s: Seq<u8>, note: u8) -> Seq<u8> {
    let rest = without(s, note);
    if rest.len() >= MAX_HELD {
        rest.drop_first().push(note)
    } else {
        rest.push(note)
    }
}

/// Taking a note out keeps the others apart, and takes all of it.
pub proof fn lemma_without(s: Seq<u8>, note: u8)
    requires
        distinct(s),
    ensures
        distinct(without(s, note)),
        !without(s, note).contains(note),
        without(s, note).len() == if s.contains(note) {
            s.len() - 1
        } else {
            s.len() as int
        },
        forall|x: u8| x != note ==> (without(s, note).contains(x) <==> s.contains(x)),
{
    lemma_first_index(s, note);
    if s.contains(note) {
        let i = first_index(s, note);
        let r = s.remove(i);
        assert forall|a: int, b: int| 0 <= a < b < r.len() implies r[a] != r[b] by {
            let sa = if a < i { a } else { a + 1 };
            let sb = if b < i { b } else { b + 1 };
            assert(r[a] == s[sa] && r[b] == s[sb]);
        }
        if r.contains(note) {
            let w = choose|w: int| 0 <= w < r.len() && r[w] == note;
            let sw = if w < i { w } else { w + 1 };
            assert(s[sw] == note && s[i] == note);
        }
        assert forall|x: u8| x != note implies (r.contains(x) <==> s.contains(x)) by {
            if r.contains(x) {
                let w = choose|w: int| 0 <= w < r.len() && r[w] == x;
                let sw = if w < i { w } else { w + 1 };
                assert(s[sw] == x);
            }
            if s.contains(x) {
                let w = choose|w: int| 0 <= w < s.len() && s[w] == x;
                assert(w != i);
                let rw = if w < i { w } else { w - 1 };
                assert(r[rw] == x);
            }
        }
    }
}

/// Pressing a note keeps the keys apart and in room, and makes it the newest.
pub proof fn lemma_pressed(s: Seq<u8>, note: u8)
    requires
        distinct(s),
        s.len() <= MAX_HELD,
    ensures
        distinct(pressed(s, note)),
        pressed(s, note).len() <= MAX_HELD,
        pressed(s, note).last() == note,
        pressed(s, note).contains(note),
{
    lemma_without(s, note);
    let rest = without(s, note);
    let kept = if rest.len() >= MAX_HELD { rest.drop_first() } else { rest };
    assert(distinct(kept));
    assert(!kept.contains(note)) by {
        if kept.contains(note) {
            let w = choose|w: int| 0 <= w < kept.len() && kept[w] == note;
            if rest.len() >= MAX_HELD {
                assert(rest[w + 1] == note);
            }
        }
    }
    let p = kept.push(note);
    assert(p =~= pressed(s, note));
    assert forall|a: int, b: int| 0 <= a < b < p.len() implies p[a] != p[b] by {
        if b == p.len() - 1 {
            assert(kept.contains(p[a]) || p[a] != note);
        }
    }
    assert(p[p.len() - 1] == note);
}

/// A key pressed and let go again leaves the keys as they were, when it was
/// not held and there was room for it.
pub proof fn lemma_press_then_release(s: Seq<u8>, note: u8)
    requires
        distinct(s),
        s.len() < MAX_HELD,
        !s.contains(note),
    ensures
        without(pressed(s, note), note) == s,
{
    let p = s.push(note);
    assert(without(s, note) == s);
    assert(pressed(s, note) == p);
    assert(p.contains(note)) by {
        assert(p[s.len() as int] == note);
    }
    lemma_first_index(p, note);
    assert(first_index(p, note) == s.len()) by {
        if first_index(p, note) < s.len() {
            assert(s[first_index(p, note)] == note);
        }
    }
    assert(p.remove(s.len() as int) =~= s);
}

/// The keys a performer holds down, oldest first, each once.
pub struct Held {
    notes: [u8; MAX_HELD],
    len: usize,
}

impl View for Held {
    type V = Seq<u8>;

    closed spec fn view(&self) -> Seq<u8> {
        self.notes@.subrange(0, self.len as int)
    }
}

impl Held {
    #[verifier::type_invariant]
    closed spec fn inv(self) -> bool {
        &&& self.len <= MAX_HELD
        &&& distinct(self.notes@.subrange(0, self.len as int))
    }

    /// No key held.
    pub fn new() -> (h: Held)
        ensures
            h@ == Seq::<u8>::empty(),
    {
        let h = Held { notes: [0u8; MAX_HELD], len: 0 };
        assert(h@ =~= Seq::<u8>::empty());
        h
    }

    /// How many keys are held: never more than [`MAX_HELD`], each once.
    pub fn len(&self) -> (n: usize)
        ensures
            n == self@.len(),
            n <= MAX_HELD,
            distinct(self@),
    {
        proof {
            use_type_invariant(self);
        }
        self.len
    }

    /// The `i`th key held, oldest first.
    pub fn note(&self, i: usize) -> (n: u8)
        requires
            i < self@.len(),
        ensures
            n == self@[i as int],
    {
        proof {
            use_type_invariant(self);
        }
        self.notes[i]
    }

    /// The newest key held.
    pub fn last(&self) -> (n: Option<u8>)
        ensures
            n == (if self@.len() > 0 {
                Some(self@.last())
            } else {
                None::<u8>
            }),
    {
        proof {
            use_type_invariant(self);
        }
        if self.len == 0 {
            None
        } else {
            Some(self.notes[self.len - 1])
        }
    }

    /// `note` is held.
    pub fn contains(&self, note: u8) -> (r: bool)
        ensures
            r == self@.contains(note),
    {
        proof {
            use_type_invariant(self);
        }
        let mut i: usize = 0;
        while i < self.len
            invariant
                self.len <= MAX_HELD,
                i <= self.len,
                forall|k: int| 0 <= k < i ==> self@[k] != note,
            decreases self.len - i,
        {
            if self.notes[i] == note {
                assert(self@[i as int] == note);
                return true;
            }
            i = i + 1;
        }
        false
    }

    /// A key let go.
    pub fn release(&mut self, note: u8)
        ensures
            final(self)@ == without(old(self)@, note),
    {
        proof {
            use_type_invariant(&*self);
        }
        let ghost before = self@;
        proof {
            lemma_first_index(before, note);
            lemma_without(before, note);
        }
        let len = self.len;
        let mut i: usize = 0;
        while i < len
            invariant
                len == self.len,
                len <= MAX_HELD,
                i <= len,
                before == self@,
                forall|k: int| 0 <= k < i ==> before[k] != note,
            ensures
                i <= len,
                i < len ==> before[i as int] == note,
                forall|k: int| 0 <= k < i ==> before[k] != note,
            decreases len - i,
        {
            if self.notes[i] == note {
                break;
            }
            i = i + 1;
        }
        if i < len {
            assert(first_index(before, note) == i) by {
                if first_index(before, note) < i {
                    assert(before[first_index(before, note)] == note);
                }
            }
            let mut notes = self.notes;
            assert(forall|t: int| 0 <= t < len ==> notes@[t] == before[t]);
            let mut k = i;
            while k + 1 < len
                invariant
                    len <= MAX_HELD,
                    i <= k < len,
                    before.len() == len,
                    forall|t: int| 0 <= t < i ==> notes@[t] == before[t],
                    forall|t: int| i <= t < k ==> notes@[t] == before[t + 1],
                    forall|t: int| k < t < len ==> notes@[t] == before[t],
                decreases len - k,
            {
                let next = notes[k + 1];
                notes[k] = next;
                k = k + 1;
            }
            assert(notes@.subrange(0, len - 1) =~= before.remove(i as int));
            *self = Held { notes, len: len - 1 };
        } else {
            proof {
                if before.contains(note) {
                    let w = choose|w: int| 0 <= w < before.len() && before[w] == note;
                    assert(before[w] != note);
                }
            }
        }
    }

    /// A key pressed: it becomes the newest held, and the oldest is forgotten
    /// when all [`MAX_HELD`] places are taken.
    pub fn hold(&mut self, note: u8)
        ensures
            final(self)@ == pressed(old(self)@, note),
    {
        proof {
            use_type_invariant(&*self);
            lemma_pressed(self@, note);
            lemma_without(self@, note);
        }
        self.release(note);
        proof {
            use_type_invariant(&*self);
        }
        let ghost rest = self@;
        let mut notes = self.notes;
        let mut len = self.len;
        if len == MAX_HELD {
            let mut k: usize = 0;
            while k + 1 < MAX_HELD
                invariant
                    k < MAX_HELD,
                    rest.len() == MAX_HELD,
                    forall|t: int| 0 <= t < k ==> notes@[t] == rest[t + 1],
                    forall|t: int| k <= t < MAX_HELD ==> notes@[t] == rest[t],
                decreases MAX_HELD - k,
            {
                let next = notes[k + 1];
                notes[k] = next;
                k = k + 1;
            }
            len = MAX_HELD - 1;
            assert(notes@.subrange(0, len as int) =~= rest.drop_first());
        } else {
            assert(notes@.subrange(0, len as int) =~= rest);
        }
        let ghost kept = notes@.subrange(0, len as int);
        notes[len] = note;
        assert(notes@.subrange(0, len + 1) =~= kept.push(note));
        *self = Held { notes, len: len + 1 };
    }

    /// Every key let go at once.
    pub fn clear(&mut self)
        ensures
            final(self)@ == Seq::<u8>::empty(),
    {
        proof {
            use_type_invariant(&*self);
        }
        self.len = 0;
        assert(self@ =~= Seq::<u8>::empty());
    }
}

/// The distance between two notes, in semitones.
pub open spec fn distance(a: u8, b: u8) -> int {
    if a > b {
        a - b
    } else {
        b - a
    }
}

/// A legato line leaving a double stop goes on from its note nearer to
/// `note`: `true` for the newer note (which wins a tie), `false` for the
/// older.
pub fn keeps_newer(note: u8, newer: u8, older: u8) -> (r: bool)
    ensures
        r == (distance(note, newer) <= distance(note, older)),
{
    let to_newer = if note > newer { note - newer } else { newer - note };
    let to_older = if note > older { note - older } else { older - note };
    to_newer <= to_older
}

/// The two notes a new note could join in a double stop, in the order they
/// are tried: with a single note sounding, that note; in a double stop, the
/// farther of its two notes first (a line over a held note), the nearer
/// second, the new note leading on from the nearer (the newer on a tie).
pub fn partners(note: u8, older: u8, newer: Option<u8>) -> (r: (u8, Option<u8>))
    ensures
        newer is None ==> r == (older, None::<u8>),
        newer matches Some(n) ==> r == (if distance(note, n) <= distance(note, older) {
            (older, Some(n))
        } else {
            (n, Some(older))
        }),
{
    match newer {
        None => (older, None),
        Some(n) => {
            if keeps_newer(note, n, older) {
                (older, Some(n))
            } else {
                (n, Some(older))
            }
        },
    }
}

/// What a performer does when a key is let go.
#[derive(Clone, Copy, Debug, PartialEq, Eq, Structural)]
pub enum KeyUp {
    /// Nothing: the key isn't one the stroke plays, or no stroke is held.
    Ignore,
    /// The note ends: legato back to a key still held, or the end of the
    /// stroke.
    EndNote,
    /// Both notes of a double stop let go (the other one a moment ago): the
    /// wait for the second is over and the note ends.
    EndBoth,
    /// One note of a double stop let go: it waits a moment for the other to
    /// follow before its string is left alone.
    Wait,
}

/// The key `note` is let go while a stroke is held (`stroke`) or not, with
/// `sounding` the note the bow plays, `second` a double stop's other note,
/// and `waiting` a double stop's note let go a moment ago.
pub fn key_up(stroke: bool, sounding: Option<u8>, second: Option<u8>, waiting: Option<u8>, note: u8) -> (r: KeyUp)
    ensures
        r == (if stroke && second is Some {
            if (second == Some(note) || sounding == Some(note)) && waiting is Some && waiting != Some(note) {
                KeyUp::EndBoth
            } else if (second == Some(note) || sounding == Some(note)) && waiting is None {
                KeyUp::Wait
            } else {
                KeyUp::Ignore
            }
        } else if stroke && sounding == Some(note) {
            KeyUp::EndNote
        } else {
            KeyUp::Ignore
        }),
{
    if stroke {
        if let Some(s) = second {
            let playing = s == note || sounding == Some(note);
            return match waiting {
                Some(first) => {
                    if playing && first != note {
                        KeyUp::EndBoth
                    } else {
                        KeyUp::Ignore
                    }
                },
                None => {
                    if playing {
                        KeyUp::Wait
                    } else {
                        KeyUp::Ignore
                    }
                },
            };
        }
    }
    if stroke && sounding == Some(note) {
        KeyUp::EndNote
    } else {
        KeyUp::Ignore
    }
}

/// Which note of a double stop stays when the one let go a moment ago
/// (`waiting`) leaves its string.
#[derive(Clone, Copy, Debug, PartialEq, Eq, Structural)]
pub enum LetGo {
    /// Nothing waits, or the note isn't sounding any more.
    Keep,
    /// The newer note (the second) leaves: the older plays on.
    DropNewer,
    /// The older note leaves: the newer plays on alone.
    DropOlder,
}

/// A double stop's note let go earlier (`waiting`) leaves its string now.
pub fn let_go(waiting: Option<u8>, sounding: Option<u8>, second: Option<u8>) -> (r: LetGo)
    ensures
        r == (match waiting {
            None => LetGo::Keep,
            Some(n) => if second == Some(n) {
                LetGo::DropNewer
            } else if sounding == Some(n) {
                LetGo::DropOlder
            } else {
                LetGo::Keep
            },
        }),
{
    match waiting {
        None => LetGo::Keep,
        Some(n) => {
            if second == Some(n) {
                LetGo::DropNewer
            } else if sounding == Some(n) {
                LetGo::DropOlder
            } else {
                LetGo::Keep
            }
        },
    }
}

/// Where a performer's bow is in its stroke.
#[derive(Clone, Copy, Debug, PartialEq, Eq, Structural)]
pub enum Phase {
    /// Bow off the string.
    Idle,
    /// On the string, before the stroke: the force is on, the bow still.
    Grip,
    /// A stroke, note held (or not yet its shortest length).
    Sustain,
    /// Off the string, note over: the bow slows and lifts.
    Release,
    /// On the string, note over: the bow slows to a stop.
    Stop,
    /// On the string, stopped, until the next note.
    Resting,
}

/// A stroke is held: gripping or sustaining, and not waiting to end.
pub fn in_stroke(phase: Phase, ending: bool) -> (r: bool)
    ensures
        r == ((phase == Phase::Grip || phase == Phase::Sustain) && !ending),
{
    match phase {
        Phase::Grip | Phase::Sustain => !ending,
        _ => false,
    }
}

/// A new note plays legato from the sounding one (no new stroke): a stroke
/// is held and a note sounds.
pub fn plays_legato(phase: Phase, ending: bool, sounding: Option<u8>) -> (r: bool)
    ensures
        r == ((phase == Phase::Grip || phase == Phase::Sustain) && !ending && sounding is Some),
{
    in_stroke(phase, ending) && sounding.is_some()
}

} // verus!

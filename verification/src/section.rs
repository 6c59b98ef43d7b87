//! The bookkeeping of a section (up to [`MAX_PLAYERS`] players of one
//! instrument playing the same part): the chord a divisi section divides,
//! the notes that arrive within one sample, each player's queue of notes
//! waiting out its delay, and how the players are seated on a chord's notes.
//!
//! Velocities and bow directions travel as the bit patterns of the `f32`
//! values the performers take (`f32::to_bits`): this module only carries them.

use vstd::prelude::*;
use crate::random::{finalize, fmix32};

verus! {

/// Most players in a section.
pub const MAX_PLAYERS: usize = 12;

/// Most notes in a chord (divisi divides them among the players, so a chord
/// needs no more than [`MAX_PLAYERS`]).
pub const MAX_CHORD: usize = 12;

/// The notes the section plays as one chord (divisi), in the order they came.
pub struct Chord {
    notes: [u8; MAX_CHORD],
    len: usize,
}

impl View for Chord {
    type V = Seq<u8>;

    closed spec fn view(&self) -> Seq<u8> {
        self.notes@.subrange(0, self.len as int)
    }
}

/// The index of the first occurrence of `note` in `s`, or `s.len()`.
pub open spec fn first_index(s: Seq<u8>, note: u8) -> int
    decreases s.len(),
{
    if s.len() == 0 {
        0
    } else if s[0] == note {
        0
    } else {
        1 + first_index(s.drop_first(), note)
    }
}

pub proof fn lemma_first_index(s: Seq<u8>, note: u8)
    ensures
        0 <= first_index(s, note) <= s.len(),
        first_index(s, note) < s.len() <==> s.contains(note),
        first_index(s, note) < s.len() ==> s[first_index(s, note)] == note,
        forall|k: int| 0 <= k < first_index(s, note) ==> s[k] != note,
    decreases s.len(),
{
    if s.len() > 0 && s[0] != note {
        lemma_first_index(s.drop_first(), note);
        assert forall|k: int| 0 <= k < first_index(s, note) implies s[k] != note by {
            if k > 0 {
                assert(s[k] == s.drop_first()[k - 1]);
            }
        }
        if s.contains(note) {
            let w = choose|w: int| 0 <= w < s.len() && s[w] == note;
            assert(s.drop_first()[w - 1] == note);
        }
        if s.drop_first().contains(note) {
            let w = choose|w: int| 0 <= w < s.drop_first().len() && s.drop_first()[w] == note;
            assert(s[w + 1] == note);
        }
    }
}

impl Chord {
    #[verifier::type_invariant]
    closed spec fn inv(self) -> bool {
        self.len <= MAX_CHORD
    }

    pub fn new() -> (c: Chord)
        ensures
            c@ == Seq::<u8>::empty(),
    {
        let c = Chord { notes: [0u8; MAX_CHORD], len: 0 };
        assert(c@ =~= Seq::<u8>::empty());
        c
    }

    /// The number of notes in the chord.
    pub fn len(&self) -> (n: usize)
        ensures
            n == self@.len(),
            n <= MAX_CHORD,
    {
        proof {
            use_type_invariant(self);
        }
        self.len
    }

    /// The `i`th note, oldest first.
    pub fn note(&self, i: usize) -> (n: u8)
        requires
            i < self@.len(),
        ensures
            n == self@[i as int],
    {
        proof {
            use_type_invariant(self);
        }
        self.notes[i]
    }

    /// Where `note` first is in the chord.
    pub fn position(&self, note: u8) -> (r: Option<usize>)
        ensures
            r == (if self@.contains(note) {
                Some(first_index(self@, note) as usize)
            } else {
                None::<usize>
            }),
    {
        proof {
            use_type_invariant(self);
        }
        let mut i: usize = 0;
        while i < self.len
            invariant
                self.len <= MAX_CHORD,
                i <= self.len,
                forall|k: int| 0 <= k < i ==> self@[k] != note,
            decreases self.len - i,
        {
            if self.notes[i] == note {
                proof {
                    lemma_first_index(self@, note);
                    assert(self@[i as int] == note);
                    assert(self@.contains(note));
                    assert(first_index(self@, note) == i) by {
                        if first_index(self@, note) < i {
                            assert(self@[first_index(self@, note)] == note);
                        }
                    }
                }
                return Some(i);
            }
            i = i + 1;
        }
        proof {
            if self@.contains(note) {
                let w = choose|w: int| 0 <= w < self@.len() && self@[w] == note;
                assert(self@[w] != note);
            }
        }
        None
    }

    /// Adds a note at the end; `false` (and no change) if the chord is full.
    pub fn add(&mut self, note: u8) -> (added: bool)
        ensures
            added == (old(self)@.len() < MAX_CHORD),
            added ==> final(self)@ == old(self)@.push(note),
            !added ==> final(self)@ == old(self)@,
    {
        proof {
            use_type_invariant(&*self);
        }
        if self.len == MAX_CHORD {
            return false;
        }
        let ghost before = self@;
        let i = self.len;
        self.notes[i] = note;
        self.len = i + 1;
        assert(self@ =~= before.push(note));
        true
    }

    /// Takes the first occurrence of `note` out, keeping the others in order.
    pub fn remove(&mut self, note: u8)
        ensures
            old(self)@.contains(note) ==> final(self)@ == old(self)@.remove(
                first_index(old(self)@, note),
            ),
            !old(self)@.contains(note) ==> final(self)@ == old(self)@,
    {
        proof {
            use_type_invariant(&*self);
        }
        let ghost before = self@;
        proof {
            lemma_first_index(before, note);
        }
        if let Some(i) = self.position(note) {
            let len = self.len;
            assert(forall|t: int| 0 <= t < len ==> self.notes@[t] == before[t]);
            let mut k = i;
            while k + 1 < len
                invariant
                    len == self.len,
                    len <= MAX_CHORD,
                    i <= k < len,
                    before.len() == len,
                    forall|t: int| 0 <= t < i ==> self.notes@[t] == before[t],
                    forall|t: int| i <= t < k ==> self.notes@[t] == before[t + 1],
                    forall|t: int| k < t < len ==> self.notes@[t] == before[t],
                decreases len - k,
            {
                let next = self.notes[k + 1];
                self.notes[k] = next;
                k = k + 1;
            }
            self.len = len - 1;
            assert(self@ =~= before.remove(i as int));
        }
    }

    /// Empties the chord.
    pub fn clear(&mut self)
        ensures
            final(self)@ == Seq::<u8>::empty(),
    {
        self.len = 0;
        assert(self@ =~= Seq::<u8>::empty());
    }
}


/// Notes a player can have waiting for its delay.
pub const QUEUE: usize = 64;

/// What a player is asked to play. Velocities and bow directions are the bit
/// patterns of the performer's `f32` values.
#[derive(Clone, Copy, Debug, PartialEq, Eq)]
pub enum Event {
    /// A note and its velocity.
    NoteOn(u8, u32),
    NoteOff(u8),
    /// The sustain pedal down or up.
    Sustain(bool),
    /// A bow keyswitch: direction and velocity.
    Bow(u32, u32),
}

/// `e` starts `note`.
pub open spec fn starts(e: Event, note: u8) -> bool {
    e matches Event::NoteOn(n, _) && n == note
}

/// Waiting events stay in the order of their times.
pub open spec fn in_time_order(s: Seq<(u64, Event)>) -> bool {
    forall|i: int, j: int| 0 <= i < j < s.len() ==> s[i].0 <= s[j].0
}

/// The events a queue keeps when the ones starting `note` are dropped.
pub open spec fn keeps(note: u8) -> spec_fn((u64, Event)) -> bool {
    |e: (u64, Event)| !starts(e.1, note)
}

/// Events waiting for their time (in samples), oldest first: a ring of
/// [`QUEUE`] slots.
pub struct Queue {
    events: [(u64, Event); QUEUE],
    start: usize,
    len: usize,
}

impl View for Queue {
    type V = Seq<(u64, Event)>;

    closed spec fn view(&self) -> Seq<(u64, Event)> {
        Seq::new(self.len as nat, |k: int| self.events@[(self.start + k) % (QUEUE as int)])
    }
}

/// Cancelling `note` drops exactly the events that would start it: an event
/// is left if and only if it was waiting and is no `NoteOn` of `note` (a
/// pedal, a bow change, a note's end or another note's start stays); and a
/// queue where nothing waits to start `note` is left whole, in its order.
pub proof fn lemma_cancel_drops_only_its_note_ons(s: Seq<(u64, Event)>, note: u8)
    ensures
        forall|e: (u64, Event)|
            #![trigger s.filter(keeps(note)).contains(e)]
            s.filter(keeps(note)).contains(e) <==> (s.contains(e) && !(e.1 matches Event::NoteOn(n, _) && n == note)),
        (forall|i: int| 0 <= i < s.len() ==> !(#[trigger] s[i].1 matches Event::NoteOn(n, _) && n == note))
            ==> s.filter(keeps(note)) == s,
{
    let f = s.filter(keeps(note));
    assert forall|e: (u64, Event)|
        #![trigger f.contains(e)]
        f.contains(e) <==> (s.contains(e) && !(e.1 matches Event::NoteOn(n, _) && n == note)) by {
        if f.contains(e) {
            s.lemma_filter_contains_rev(keeps(note), e);
            let i = choose|i: int| 0 <= i < f.len() && f[i] == e;
            s.lemma_filter_pred(keeps(note), i);
        }
        if s.contains(e) && !(e.1 matches Event::NoteOn(n, _) && n == note) {
            let i = choose|i: int| 0 <= i < s.len() && s[i] == e;
            s.lemma_filter_contains(keeps(note), i);
        }
    }
    if forall|i: int| 0 <= i < s.len() ==> !(#[trigger] s[i].1 matches Event::NoteOn(n, _) && n == note) {
        lemma_filter_keeps_all(s, note);
    }
}

/// A queue where nothing waits to start `note` keeps all its events.
proof fn lemma_filter_keeps_all(s: Seq<(u64, Event)>, note: u8)
    requires
        forall|i: int| 0 <= i < s.len() ==> !(#[trigger] s[i].1 matches Event::NoteOn(n, _) && n == note),
    ensures
        s.filter(keeps(note)) == s,
    decreases s.len(),
{
    reveal(Seq::filter);
    if s.len() > 0 {
        let d = s.drop_last();
        assert forall|i: int| 0 <= i < d.len() implies !(#[trigger] d[i].1 matches Event::NoteOn(n, _) && n == note) by {
            assert(d[i] == s[i]);
        }
        lemma_filter_keeps_all(d, note);
        assert(!(s[s.len() - 1].1 matches Event::NoteOn(n, _) && n == note));
        assert(s =~= d.push(s.last()));
    }
}

/// Dropping events keeps the others in the order of their times.
pub proof fn lemma_filter_in_time_order(s: Seq<(u64, Event)>, pred: spec_fn((u64, Event)) -> bool)
    requires
        in_time_order(s),
    ensures
        in_time_order(s.filter(pred)),
        forall|i: int| 0 <= i < s.filter(pred).len() ==> s.contains(#[trigger] s.filter(pred)[i]),
    decreases s.len(),
{
    reveal(Seq::filter);
    if s.len() > 0 {
        let d = s.drop_last();
        assert(in_time_order(d));
        lemma_filter_in_time_order(d, pred);
        let f = d.filter(pred);
        assert forall|i: int| 0 <= i < f.len() implies #[trigger] f[i].0 <= s.last().0 by {
            assert(d.contains(f[i]));
            let w = choose|w: int| 0 <= w < d.len() && d[w] == f[i];
            assert(s[w] == d[w]);
        }
        assert forall|i: int| 0 <= i < s.filter(pred).len() implies s.contains(#[trigger] s.filter(pred)[i]) by {
            if i < f.len() {
                assert(d.contains(f[i]));
                let w = choose|w: int| 0 <= w < d.len() && d[w] == f[i];
                assert(s[w] == d[w]);
            } else {
                assert(s[s.len() - 1] == s.last());
            }
        }
    }
}

impl Queue {
    #[verifier::type_invariant]
    closed spec fn inv(self) -> bool {
        &&& self.start < QUEUE
        &&& self.len <= QUEUE
    }

    /// An empty queue.
    pub fn new() -> (q: Queue)
        ensures
            q@ == Seq::<(u64, Event)>::empty(),
    {
        let q = Queue { events: [(0u64, Event::NoteOff(0)); QUEUE], start: 0, len: 0 };
        assert(q@ =~= Seq::<(u64, Event)>::empty());
        q
    }

    /// The number of events waiting.
    pub fn len(&self) -> (n: usize)
        ensures
            n == self@.len(),
            n <= QUEUE,
    {
        proof {
            use_type_invariant(self);
        }
        self.len
    }

    /// Queues `event` for `time`; `false` (and no change) if full.
    pub fn push(&mut self, time: u64, event: Event) -> (pushed: bool)
        ensures
            pushed == (old(self)@.len() < QUEUE),
            pushed ==> final(self)@ == old(self)@.push((time, event)),
            !pushed ==> final(self)@ == old(self)@,
    {
        proof {
            use_type_invariant(&*self);
        }
        if self.len == QUEUE {
            return false;
        }
        let ghost before = self@;
        let at = (self.start + self.len) % QUEUE;
        self.events[at] = (time, event);
        self.len = self.len + 1;
        proof {
            assert forall|k: int| 0 <= k < before.len() implies #[trigger] self@[k] == before[k] by {
                assert((self.start + k) % (QUEUE as int) != at as int);
            }
        }
        assert(self@ =~= before.push((time, event)));
        true
    }

    /// The oldest event, if its time has come (`time <= now`): taken out.
    pub fn pop_due(&mut self, now: u64) -> (e: Option<Event>)
        ensures
            in_time_order(old(self)@) ==> in_time_order(final(self)@),
            old(self)@.len() > 0 && old(self)@[0].0 <= now ==> e == Some(old(self)@[0].1)
                && final(self)@ == old(self)@.drop_first(),
            !(old(self)@.len() > 0 && old(self)@[0].0 <= now) ==> e == None::<Event>
                && final(self)@ == old(self)@,
    {
        proof {
            use_type_invariant(&*self);
        }
        if self.len == 0 {
            return None;
        }
        let (time, event) = self.events[self.start];
        if time > now {
            return None;
        }
        let ghost before = self@;
        let ghost s0 = self.start as int;
        assert(before[0] == (time, event));
        self.start = (self.start + 1) % QUEUE;
        self.len = self.len - 1;
        proof {
            assert forall|k: int| 0 <= k < self@.len() implies #[trigger] self@[k] == before[k + 1] by {
                assert((self.start + k) % (QUEUE as int) == (s0 + k + 1) % (QUEUE as int));
            }
        }
        assert(self@ =~= before.drop_first());
        Some(event)
    }

    /// Time of the newest event waiting.
    pub fn last(&self) -> (t: Option<u64>)
        ensures
            t == (if self@.len() > 0 {
                Some(self@.last().0)
            } else {
                None::<u64>
            }),
    {
        proof {
            use_type_invariant(self);
        }
        if self.len > 0 {
            Some(self.events[(self.start + self.len - 1) % QUEUE].0)
        } else {
            None
        }
    }

    /// Drops every waiting event that would start `note`, keeping the rest in
    /// their order: the player plays another note instead.
    #[verifier::rlimit(40)]
    pub fn cancel(&mut self, note: u8)
        ensures
            final(self)@ == old(self)@.filter(keeps(note)),
            in_time_order(old(self)@) ==> in_time_order(final(self)@),
    {
        proof {
            use_type_invariant(&*self);
        }
        let ghost before = self@;
        let mut kept: usize = 0;
        let mut k: usize = 0;
        while k < self.len
            invariant
                self.start < QUEUE,
                self.len <= QUEUE,
                before.len() == self.len,
                kept <= k <= self.len,
                before.take(k as int).filter(keeps(note)).len() == kept,
                forall|t: int| 0 <= t < kept ==> #[trigger] self.events@[(self.start + t) % (QUEUE as int)]
                    == before.take(k as int).filter(keeps(note))[t],
                forall|t: int| k <= t < self.len ==> #[trigger] self.events@[(self.start + t) % (QUEUE as int)]
                    == before[t],
            decreases self.len - k,
        {
            let ghost prefix = before.take(k as int);
            let (time, event) = self.events[(self.start + k) % QUEUE];
            assert(before[k as int] == (time, event));
            proof {
                reveal(Seq::filter);
                assert(before.take(k + 1).drop_last() =~= prefix);
                assert(before.take(k + 1).last() == before[k as int]);
            }
            let drop = match event {
                Event::NoteOn(n, _) => n == note,
                _ => false,
            };
            if !drop {
                let at = (self.start + kept) % QUEUE;
                self.events[at] = (time, event);
                proof {
                    assert forall|t: int| k < t < self.len implies #[trigger] self.events@[(self.start + t) % (QUEUE as int)]
                        == before[t] by {
                        assert((self.start + t) % (QUEUE as int) != at as int);
                    }
                    assert forall|t: int| 0 <= t < kept implies #[trigger] self.events@[(self.start + t) % (QUEUE as int)]
                        == prefix.filter(keeps(note))[t] by {
                        assert((self.start + t) % (QUEUE as int) != at as int);
                    }
                }
                kept = kept + 1;
            }
            k = k + 1;
        }
        self.len = kept;
        assert(before.take(k as int) =~= before);
        assert(self@ =~= before.filter(keeps(note)));
        proof {
            if in_time_order(before) {
                lemma_filter_in_time_order(before, keeps(note));
            }
        }
    }

    /// Drops every waiting event.
    pub fn clear(&mut self)
        ensures
            final(self)@ == Seq::<(u64, Event)>::empty(),
    {
        proof {
            use_type_invariant(&*self);
        }
        self.len = 0;
        assert(self@ =~= Seq::<(u64, Event)>::empty());
    }

    /// Hands `event` to a player `delay` samples after `clock`, but never
    /// before an event already waiting for it (the order of a legato line's
    /// notes is what makes it legato). Returns the event if it is to be played
    /// now: its time has come and nothing waits, or the queue is full (a
    /// flood of notes).
    pub fn deliver(&mut self, clock: u64, delay: u64, event: Event) -> (now: Option<Event>)
        requires
            clock + delay <= u64::MAX,
        ensures
            ({
                let time = if old(self)@.len() > 0 && old(self)@.last().0 > clock + delay {
                    old(self)@.last().0
                } else {
                    (clock + delay) as u64
                };
                if time <= clock && old(self)@.len() == 0 {
                    now == Some(event) && final(self)@ == old(self)@
                } else if old(self)@.len() < QUEUE {
                    now == None::<Event> && final(self)@ == old(self)@.push((time, event))
                } else {
                    now == Some(event) && final(self)@ == old(self)@
                }
            }),
            in_time_order(old(self)@) ==> in_time_order(final(self)@),
    {
        let at = clock + delay;
        let time = match self.last() {
            Some(t) if t > at => t,
            _ => at,
        };
        if time <= clock && self.len() == 0 {
            return Some(event);
        }
        if self.push(time, event) {
            None
        } else {
            Some(event)
        }
    }
}


/// The notes that came in while a sample was being handled, with their
/// velocities (as `f32` bits), waiting for the rest of the chord to arrive so
/// it can be divided at once (divisi).
pub struct Pending {
    notes: [u8; MAX_CHORD],
    velocities: [u32; MAX_CHORD],
    len: usize,
}

impl View for Pending {
    type V = Seq<(u8, u32)>;

    closed spec fn view(&self) -> Seq<(u8, u32)> {
        Seq::new(self.len as nat, |k: int| (self.notes@[k], self.velocities@[k]))
    }
}

/// The notes of pending arrivals, in order.
pub open spec fn pending_notes(s: Seq<(u8, u32)>) -> Seq<u8> {
    s.map_values(|e: (u8, u32)| e.0)
}

impl Pending {
    #[verifier::type_invariant]
    closed spec fn inv(self) -> bool {
        self.len <= MAX_CHORD
    }

    pub fn new() -> (p: Pending)
        ensures
            p@ == Seq::<(u8, u32)>::empty(),
    {
        let p = Pending { notes: [0u8; MAX_CHORD], velocities: [0u32; MAX_CHORD], len: 0 };
        assert(p@ =~= Seq::<(u8, u32)>::empty());
        p
    }

    pub fn len(&self) -> (n: usize)
        ensures
            n == self@.len(),
            n <= MAX_CHORD,
    {
        proof {
            use_type_invariant(self);
        }
        self.len
    }

    /// The `i`th arrival: its note and velocity.
    pub fn get(&self, i: usize) -> (e: (u8, u32))
        requires
            i < self@.len(),
        ensures
            e == self@[i as int],
    {
        proof {
            use_type_invariant(self);
        }
        (self.notes[i], self.velocities[i])
    }

    /// Adds an arrival; `false` (and no change) if full.
    pub fn push(&mut self, note: u8, velocity: u32) -> (pushed: bool)
        ensures
            pushed == (old(self)@.len() < MAX_CHORD),
            pushed ==> final(self)@ == old(self)@.push((note, velocity)),
            !pushed ==> final(self)@ == old(self)@,
    {
        proof {
            use_type_invariant(&*self);
        }
        if self.len == MAX_CHORD {
            return false;
        }
        let ghost before = self@;
        let i = self.len;
        self.notes[i] = note;
        self.velocities[i] = velocity;
        self.len = i + 1;
        assert(self@ =~= before.push((note, velocity)));
        true
    }

    /// `note` is among the arrivals.
    pub fn contains(&self, note: u8) -> (r: bool)
        ensures
            r == pending_notes(self@).contains(note),
    {
        proof {
            use_type_invariant(self);
        }
        let mut i: usize = 0;
        while i < self.len
            invariant
                self.len <= MAX_CHORD,
                i <= self.len,
                forall|k: int| 0 <= k < i ==> self@[k].0 != note,
            decreases self.len - i,
        {
            if self.notes[i] == note {
                assert(pending_notes(self@)[i as int] == note);
                return true;
            }
            i = i + 1;
        }
        proof {
            if pending_notes(self@).contains(note) {
                let w = choose|w: int| 0 <= w < pending_notes(self@).len() && pending_notes(self@)[w] == note;
                assert(self@[w].0 == note);
            }
        }
        false
    }

    /// The velocity `note` last came in with, 0 if it is not here.
    pub fn velocity(&self, note: u8) -> (v: u32)
        ensures
            !pending_notes(self@).contains(note) ==> v == 0,
            pending_notes(self@).contains(note) ==> exists|k: int|
                0 <= k < self@.len() && self@[k].0 == note && v == self@[k].1 && forall|t: int|
                    k < t < self@.len() ==> self@[t].0 != note,
    {
        proof {
            use_type_invariant(self);
        }
        let mut i: usize = self.len;
        while i > 0
            invariant
                self.len <= MAX_CHORD,
                i <= self.len,
                forall|t: int| i <= t < self.len ==> self@[t].0 != note,
            decreases i,
        {
            i = i - 1;
            if self.notes[i] == note {
                assert(self@[i as int].0 == note);
                assert(pending_notes(self@)[i as int] == note);
                return self.velocities[i];
            }
        }
        proof {
            if pending_notes(self@).contains(note) {
                let w = choose|w: int| 0 <= w < pending_notes(self@).len() && pending_notes(self@)[w] == note;
                assert(self@[w].0 == note);
            }
        }
        0
    }

    pub fn clear(&mut self)
        ensures
            final(self)@ == Seq::<(u8, u32)>::empty(),
    {
        self.len = 0;
        assert(self@ =~= Seq::<(u8, u32)>::empty());
    }
}


/// The number of `true`s among the first `hi` of `a`.
pub open spec fn count_true(a: Seq<bool>, hi: int) -> nat
    decreases hi,
{
    if hi <= 0 {
        0
    } else {
        count_true(a, hi - 1) + if a[hi - 1] {
            1nat
        } else {
            0nat
        }
    }
}

/// Player `i` is switched on and plays `v`.
pub open spec fn holds(active: Seq<bool>, voices: Seq<Option<u8>>, i: int, v: u8) -> bool {
    active[i] && voices[i] == Some(v)
}

/// The number of players in `lo..hi` switched on and playing `v`.
pub open spec fn holders(active: Seq<bool>, voices: Seq<Option<u8>>, v: u8, lo: int, hi: int) -> nat
    decreases hi - lo,
{
    if hi <= lo {
        0
    } else {
        holders(active, voices, v, lo, hi - 1) + if holds(active, voices, hi - 1, v) {
            1nat
        } else {
            0nat
        }
    }
}

/// The players the `j`th of `m` notes gets from `n`: an even share, the
/// earlier notes one more where it doesn't divide.
pub open spec fn share(n: int, m: int, j: int) -> int {
    n / m + if j < n % m {
        1int
    } else {
        0int
    }
}

/// The number of seats in `t` on note `v`.
pub open spec fn seated(t: Seq<Option<u8>>, v: u8) -> nat
    decreases t.len(),
{
    if t.len() == 0 {
        0
    } else {
        seated(t.drop_last(), v) + if t.last() == Some(v) {
            1nat
        } else {
            0nat
        }
    }
}

/// No note twice.
pub open spec fn distinct(s: Seq<u8>) -> bool {
    forall|a: int, b: int| 0 <= a < b < s.len() ==> s[a] != s[b]
}

/// Player `i` keeps the chord note it plays when the chord is divided: it is
/// one of the first (the front desks) of that note's share of the players.
pub open spec fn keeps_seat(chord: Seq<u8>, active: Seq<bool>, voices: Seq<Option<u8>>, i: int) -> bool {
    &&& active[i]
    &&& voices[i] is Some
    &&& chord.contains(voices[i]->0)
    &&& holders(active, voices, voices[i]->0, 0, i) < share(
        count_true(active, MAX_PLAYERS as int) as int,
        chord.len() as int,
        first_index(chord, voices[i]->0),
    )
}

pub proof fn lemma_holders_split(active: Seq<bool>, voices: Seq<Option<u8>>, v: u8, lo: int, mid: int, hi: int)
    requires
        lo <= mid <= hi,
    ensures
        holders(active, voices, v, lo, hi) == holders(active, voices, v, lo, mid) + holders(
            active,
            voices,
            v,
            mid,
            hi,
        ),
    decreases hi - mid,
{
    if mid < hi {
        lemma_holders_split(active, voices, v, lo, mid, hi - 1);
    }
}

pub proof fn lemma_holders_step(active: Seq<bool>, voices: Seq<Option<u8>>, v: u8, lo: int, hi: int)
    requires
        lo < hi,
    ensures
        holders(active, voices, v, lo, hi) == holders(active, voices, v, lo + 1, hi) + if holds(
            active,
            voices,
            lo,
            v,
        ) {
            1int
        } else {
            0int
        },
{
    lemma_holders_split(active, voices, v, lo, lo + 1, hi);
    assert(holders(active, voices, v, lo, lo) == 0);
}

pub proof fn lemma_holders_bound(active: Seq<bool>, voices: Seq<Option<u8>>, v: u8, lo: int, hi: int)
    requires
        lo <= hi,
    ensures
        holders(active, voices, v, lo, hi) <= hi - lo,
    decreases hi - lo,
{
    if lo < hi {
        lemma_holders_bound(active, voices, v, lo, hi - 1);
    }
}

pub proof fn lemma_seated_update(t: Seq<Option<u8>>, i: int, x: Option<u8>, v: u8)
    requires
        0 <= i < t.len(),
    ensures
        seated(t.update(i, x), v) + (if t[i] == Some(v) {
            1int
        } else {
            0int
        }) == seated(t, v) + (if x == Some(v) {
            1int
        } else {
            0int
        }),
    decreases t.len(),
{
    if i < t.len() - 1 {
        lemma_seated_update(t.drop_last(), i, x, v);
        assert(t.update(i, x).drop_last() =~= t.drop_last().update(i, x));
    } else {
        assert(t.update(i, x).drop_last() =~= t.drop_last());
    }
}

pub proof fn lemma_seated_none(t: Seq<Option<u8>>, v: u8)
    requires
        forall|k: int| 0 <= k < t.len() ==> t[k] == None::<u8>,
    ensures
        seated(t, v) == 0,
    decreases t.len(),
{
    if t.len() > 0 {
        lemma_seated_none(t.drop_last(), v);
    }
}


/// What player `k` plays of the chord before it is divided: its note, if it
/// is switched on and the chord holds it.
pub open spec fn chord_voice(chord: Seq<u8>, active: Seq<bool>, voices: Seq<Option<u8>>, k: int) -> Option<u8> {
    if active[k] && voices[k] is Some && chord.contains(voices[k]->0) {
        voices[k]
    } else {
        None
    }
}

/// What player `k` plays once the notes before `done` in the chord have been
/// trimmed to their share.
pub open spec fn trimmed_voice(c: Seq<u8>, a: Seq<bool>, vs: Seq<Option<u8>>, n: int, k: int, done: int) -> Option<u8> {
    let v = vs[k]->0;
    if chord_voice(c, a, vs, k) is Some && (first_index(c, v) >= done || holders(a, vs, v, 0, k) < share(
        n,
        c.len() as int,
        first_index(c, v),
    )) {
        chord_voice(c, a, vs, k)
    } else {
        None
    }
}

/// The players on the `jj`th note of the chord once the notes before `done`
/// have been trimmed to their share (a note's players count at its first
/// place in the chord).
pub open spec fn kept_count(c: Seq<u8>, a: Seq<bool>, vs: Seq<Option<u8>>, n: int, jj: int, done: int) -> int {
    let h = holders(a, vs, c[jj], 0, MAX_PLAYERS as int) as int;
    if first_index(c, c[jj]) != jj {
        0
    } else if jj >= done || h < share(n, c.len() as int, jj) {
        h
    } else {
        share(n, c.len() as int, jj)
    }
}

/// `x`, but no more than `cap`.
pub open spec fn capped(x: int, cap: int) -> int {
    if x < cap {
        x
    } else {
        cap
    }
}

/// Trimming the `j`th note of the chord to its share takes its players from
/// the back: the ones with no more than `over` of its players from them on.
proof fn lemma_trim_player(c: Seq<u8>, a: Seq<bool>, vs: Seq<Option<u8>>, n: int, j: int, k: int, over: int)
    requires
        0 <= j < c.len(),
        0 <= k < MAX_PLAYERS,
        0 <= n,
        over == (if kept_count(c, a, vs, n, j, j) > share(n, c.len() as int, j) {
            kept_count(c, a, vs, n, j, j) - share(n, c.len() as int, j)
        } else {
            0
        }),
    ensures
        trimmed_voice(c, a, vs, n, k, j + 1) == (if trimmed_voice(c, a, vs, n, k, j) == Some(c[j])
            && holds(a, vs, k, c[j]) && holders(a, vs, c[j], k, MAX_PLAYERS as int) <= over {
            None::<u8>
        } else {
            trimmed_voice(c, a, vs, n, k, j)
        }),
{
    let v = c[j];
    lemma_share_nonneg(n, c.len() as int, j);
    lemma_first_index(c, v);
    if vs[k] is Some {
        lemma_first_index(c, vs[k]->0);
    }
    lemma_holders_split(a, vs, v, 0, k, MAX_PLAYERS as int);
    lemma_holders_step(a, vs, v, k, MAX_PLAYERS as int);
}

/// Trimming the `j`th note takes `over` players from it and none from the
/// others.
proof fn lemma_trim_count(c: Seq<u8>, a: Seq<bool>, vs: Seq<Option<u8>>, n: int, j: int, jj: int, over: int)
    requires
        0 <= j < c.len(),
        0 <= jj < c.len(),
        0 <= n,
        over == (if kept_count(c, a, vs, n, j, j) > share(n, c.len() as int, j) {
            kept_count(c, a, vs, n, j, j) - share(n, c.len() as int, j)
        } else {
            0
        }),
    ensures
        kept_count(c, a, vs, n, jj, j + 1) == (if jj == j {
            kept_count(c, a, vs, n, j, j) - over
        } else {
            kept_count(c, a, vs, n, jj, j)
        }),
{
    lemma_share_nonneg(n, c.len() as int, j);
}

/// The players the first `k` notes of `m` get from `n` together.
pub open spec fn share_total(n: int, m: int, k: int) -> int
    decreases k,
{
    if k <= 0 {
        0
    } else {
        share_total(n, m, k - 1) + share(n, m, k - 1)
    }
}

/// The shares of `n` players among `m` notes are even: each is `n / m` or
/// one more, never more on a later note than on an earlier one, and they
/// add up to the whole section.
pub proof fn lemma_shares_are_even(n: int, m: int)
    requires
        0 <= n,
        1 <= m,
    ensures
        forall|j: int| 0 <= j < m ==> n / m <= #[trigger] share(n, m, j) <= n / m + 1,
        forall|j: int, k: int| 0 <= j < k < m ==> #[trigger] share(n, m, j) >= #[trigger] share(n, m, k),
        share_total(n, m, m) == n,
{
    vstd::arithmetic::div_mod::lemma_mod_pos_bound(n, m);
    vstd::arithmetic::div_mod::lemma_fundamental_div_mod(n, m);
    lemma_share_total(n, m, m);
    assert(m * (n / m) == (n / m) * m) by (nonlinear_arith);
}

/// The first `k` shares: `k` times `n / m`, and one more for each of them
/// before `n % m`.
proof fn lemma_share_total(n: int, m: int, k: int)
    requires
        0 <= n,
        1 <= m,
        0 <= k <= m,
    ensures
        share_total(n, m, k) == k * (n / m) + if k < n % m {
            k
        } else {
            n % m
        },
    decreases k,
{
    vstd::arithmetic::div_mod::lemma_mod_pos_bound(n, m);
    let q = n / m;
    let r = n % m;
    if k > 0 {
        lemma_share_total(n, m, k - 1);
        assert(k * q == (k - 1) * q + q) by (nonlinear_arith);
        assert(share(n, m, k - 1) == q + if k - 1 < r { 1int } else { 0int });
    } else {
        assert(k * q == 0) by (nonlinear_arith)
            requires
                k == 0,
        ;
    }
}

/// A share of a section is never negative.
proof fn lemma_share_nonneg(n: int, m: int, j: int)
    requires
        0 <= n,
        1 <= m,
    ensures
        0 <= share(n, m, j),
{
    assert(0 <= n / m) by (nonlinear_arith)
        requires
            0 <= n,
            1 <= m,
    ;
}

/// The seating as it was when player `i`'s turn to take a new note came:
/// the players after it that don't keep their seat have none yet.
pub open spec fn before_fill(c: Seq<u8>, a: Seq<bool>, vs: Seq<Option<u8>>, t: Seq<Option<u8>>, i: int) -> Seq<
    Option<u8>,
> {
    Seq::new(t.len(), |k: int| if k >= i && !keeps_seat(c, a, vs, k) { None } else { t[k] })
}

/// Each of the players before `hi` that took a new note found room on it
/// and none on an earlier new note of the chord, and each left without a
/// note found room on none, as the seating was at its turn (`want` gives
/// each note's share).
pub open spec fn fill_record(
    c: Seq<u8>,
    a: Seq<bool>,
    vs: Seq<Option<u8>>,
    t: Seq<Option<u8>>,
    want: Seq<usize>,
    p: Seq<(u8, u32)>,
    hi: int,
) -> bool {
    &&& forall|k: int, j: int|
        0 <= k < hi && a[k] && !keeps_seat(c, a, vs, k) && 0 <= j < c.len() && t[k] == Some(c[j]) ==> seated(
            before_fill(c, a, vs, t, k),
            c[j],
        ) < want[j] && forall|jj: int|
            0 <= jj < j && pending_notes(p).contains(c[jj]) ==> seated(before_fill(c, a, vs, t, k), c[jj]) >= want[jj]
    &&& forall|k: int, jj: int|
        0 <= k < hi && a[k] && !keeps_seat(c, a, vs, k) && t[k] == None::<u8> && 0 <= jj < c.len() && pending_notes(
            p,
        ).contains(c[jj]) ==> seated(before_fill(c, a, vs, t, k), c[jj]) >= want[jj]
}

/// The first place from `j` on in the chord whose note just came in and
/// still has room (`have` players of its share); the chord's length if none.
pub open spec fn first_free(c: Seq<u8>, p: Seq<(u8, u32)>, have: Seq<int>, n: int, j: int) -> int
    decreases c.len() - j,
{
    if j >= c.len() {
        c.len() as int
    } else if pending_notes(p).contains(c[j]) && have[j] < share(n, c.len() as int, j) {
        j
    } else {
        first_free(c, p, have, n, j + 1)
    }
}

/// The seats of the first `i` players once the chord is divided, and the
/// players on each place of the chord after their turns: each player keeps
/// its note where it keeps its seat; a free player switched on takes the
/// first place with room whose note just came in. The players on a place
/// start at those that keep their seat (a note counts at its first place).
pub open spec fn fill_from(c: Seq<u8>, a: Seq<bool>, vs: Seq<Option<u8>>, n: int, p: Seq<(u8, u32)>, i: int) -> (
    Seq<Option<u8>>,
    Seq<int>,
)
    decreases i,
{
    if i <= 0 {
        (Seq::empty(), Seq::new(c.len(), |jj: int| kept_count(c, a, vs, n, jj, c.len() as int)))
    } else {
        let before = fill_from(c, a, vs, n, p, i - 1);
        let kept = trimmed_voice(c, a, vs, n, i - 1, c.len() as int);
        let j = first_free(c, p, before.1, n, 0);
        if !a[i - 1] || kept is Some {
            (before.0.push(kept), before.1)
        } else if j < c.len() {
            (before.0.push(Some(c[j])), before.1.update(j, before.1[j] + 1))
        } else {
            (before.0.push(None), before.1)
        }
    }
}

/// The seats that dividing the chord `c` among the players gives (see
/// [`divide`]).
pub open spec fn divide_from(c: Seq<u8>, a: Seq<bool>, vs: Seq<Option<u8>>, p: Seq<(u8, u32)>) -> Seq<Option<u8>> {
    fill_from(c, a, vs, count_true(a, MAX_PLAYERS as int) as int, p, MAX_PLAYERS as int).0
}

/// Searching for a free place from `j0` passes over places without room.
proof fn lemma_first_free_skip(c: Seq<u8>, p: Seq<(u8, u32)>, have: Seq<int>, n: int, j0: int, j: int)
    requires
        0 <= j0 <= j <= c.len(),
        forall|jj: int| j0 <= jj < j ==> !(pending_notes(p).contains(c[jj]) && have[jj] < share(n, c.len() as int, jj)),
    ensures
        first_free(c, p, have, n, j0) == first_free(c, p, have, n, j),
    decreases j - j0,
{
    if j0 < j {
        lemma_first_free_skip(c, p, have, n, j0 + 1, j);
    }
}

/// A free place found from `j0` lies at or after it, within the chord.
proof fn lemma_first_free_range(c: Seq<u8>, p: Seq<(u8, u32)>, have: Seq<int>, n: int, j0: int)
    requires
        0 <= j0 <= c.len(),
    ensures
        j0 <= first_free(c, p, have, n, j0) <= c.len(),
    decreases c.len() - j0,
{
    if j0 < c.len() {
        lemma_first_free_range(c, p, have, n, j0 + 1);
    }
}

/// The seats that dividing gives are one per player.
proof fn lemma_fill_len(c: Seq<u8>, a: Seq<bool>, vs: Seq<Option<u8>>, n: int, p: Seq<(u8, u32)>, i: int)
    requires
        0 <= i,
    ensures
        fill_from(c, a, vs, n, p, i).0.len() == i,
        fill_from(c, a, vs, n, p, i).1.len() == c.len(),
    decreases i,
{
    if i > 0 {
        lemma_fill_len(c, a, vs, n, p, i - 1);
        lemma_first_free_range(c, p, fill_from(c, a, vs, n, p, i - 1).1, n, 0);
    }
}

/// The note each active player plays from the chord, with no more notes than
/// players (divisi): the players keep the notes they have, and no note keeps
/// more than its share of the section (`players / notes`, the earlier notes
/// one more where it doesn't divide), the back of a note's players leaving
/// first. The players that leaves free take the notes that just came in
/// (`pending`), the lower-numbered players first: the front desks take the
/// first note of the chord. Exactly the seats [`divide_from`] gives; a note
/// that stands twice in the chord has a share at each of its places.
pub fn divide(
    chord: &Chord,
    active: &[bool; MAX_PLAYERS],
    voices: &[Option<u8>; MAX_PLAYERS],
    pending: &Pending,
) -> (target: [Option<u8>; MAX_PLAYERS])
    requires
        chord@.len() >= 1,
    ensures
        target@ == divide_from(chord@, active@, voices@, pending@),
        forall|i: int| 0 <= i < MAX_PLAYERS && !active@[i] ==> target@[i] == None::<u8>,
        forall|i: int|
            0 <= i < MAX_PLAYERS && keeps_seat(chord@, active@, voices@, i) ==> target@[i] == voices@[i],
        forall|i: int|
            0 <= i < MAX_PLAYERS && active@[i] && !keeps_seat(chord@, active@, voices@, i)
                && target@[i] is Some ==> chord@.contains(target@[i]->0) && pending_notes(
                pending@,
            ).contains(target@[i]->0),
        distinct(chord@) ==> forall|j: int|
            0 <= j < chord@.len() ==> seated(target@, chord@[j]) <= share(
                count_true(active@, MAX_PLAYERS as int) as int,
                chord@.len() as int,
                j,
            ),
        distinct(chord@) ==> forall|i: int, j: int|
            0 <= i < MAX_PLAYERS && active@[i] && target@[i] == None::<u8> && 0 <= j < chord@.len()
                && pending_notes(pending@).contains(chord@[j]) ==> seated(target@, chord@[j]) >= share(
                count_true(active@, MAX_PLAYERS as int) as int,
                chord@.len() as int,
                j,
            ),
        distinct(chord@) ==> forall|i: int, j: int|
            0 <= i < MAX_PLAYERS && active@[i] && !keeps_seat(chord@, active@, voices@, i) && 0 <= j < chord@.len()
                && target@[i] == Some(chord@[j]) ==> seated(before_fill(chord@, active@, voices@, target@, i), chord@[j])
                < share(count_true(active@, MAX_PLAYERS as int) as int, chord@.len() as int, j) && forall|jj: int|
                0 <= jj < j && pending_notes(pending@).contains(chord@[jj]) ==> seated(
                    before_fill(chord@, active@, voices@, target@, i),
                    chord@[jj],
                ) >= share(count_true(active@, MAX_PLAYERS as int) as int, chord@.len() as int, jj),
        distinct(chord@) ==> forall|i: int, jj: int|
            0 <= i < MAX_PLAYERS && active@[i] && !keeps_seat(chord@, active@, voices@, i) && target@[i] == None::<u8>
                && 0 <= jj < chord@.len() && pending_notes(pending@).contains(chord@[jj]) ==> seated(
                before_fill(chord@, active@, voices@, target@, i),
                chord@[jj],
            ) >= share(count_true(active@, MAX_PLAYERS as int) as int, chord@.len() as int, jj),
{
    let m = chord.len();
    let ghost c = chord@;
    let ghost a = active@;
    let ghost vs = voices@;
    // Players switched on.
    let mut n: usize = 0;
    let mut i: usize = 0;
    while i < MAX_PLAYERS
        invariant
            i <= MAX_PLAYERS,
            n == count_true(a, i as int),
            n <= i,
            a == active@,
        decreases MAX_PLAYERS - i,
    {
        if active[i] {
            n = n + 1;
        }
        i = i + 1;
    }
    let ghost nn = n as int;
    proof {
        assert(nn == count_true(a, MAX_PLAYERS as int));
    }
    let mut target: [Option<u8>; MAX_PLAYERS] = [None; MAX_PLAYERS];
    let mut have: [usize; MAX_CHORD] = [0; MAX_CHORD];
    proof {
        assert forall|w: u8| #![auto] seated(target@, w) == 0 by {
            lemma_seated_none(target@, w);
        }
    }
    // The players keep the notes of the chord they have.
    let mut i: usize = 0;
    while i < MAX_PLAYERS
        invariant
            i <= MAX_PLAYERS,
            m == c.len(),
            1 <= m <= MAX_CHORD,
            c == chord@,
            a == active@,
            vs == voices@,
            forall|k: int| 0 <= k < i ==> target@[k] == chord_voice(c, a, vs, k),
            forall|k: int| i <= k < MAX_PLAYERS ==> target@[k] == None::<u8>,
            forall|jj: int|
                0 <= jj < m ==> have@[jj] == (if first_index(c, c[jj]) == jj {
                    holders(a, vs, c[jj], 0, i as int)
                } else {
                    0
                }),
            forall|jj: int| 0 <= jj < m ==> have@[jj] <= i,
            distinct(c) ==> forall|jj: int| 0 <= jj < m ==> have@[jj] == seated(target@, c[jj]),
        decreases MAX_PLAYERS - i,
    {
        if active[i] {
            if let Some(v) = voices[i] {
                if let Some(j) = chord.position(v) {
                    proof {
                        lemma_first_index(c, v);
                        assert forall|w: u8| #![auto] true implies seated(target@.update(i as int, Some(v)), w)
                            == seated(target@, w) + (if w == v { 1int } else { 0int }) by {
                            lemma_seated_update(target@, i as int, Some(v), w);
                        }
                    }
                    target[i] = Some(v);
                    have[j] = have[j] + 1;
                    proof {
                        assert forall|jj: int| 0 <= jj < m && first_index(c, c[jj]) == jj && c[jj] == v implies jj == j by {
                            lemma_first_index(c, c[jj]);
                        }
                        assert forall|jj: int| 0 <= jj < m && c[jj] != v implies have@[jj] == (if first_index(c, c[jj]) == jj {
                            holders(a, vs, c[jj], 0, i + 1)
                        } else {
                            0
                        }) by {
                            lemma_first_index(c, c[jj]);
                        }
                    }
                }
            }
        }
        proof {
            assert forall|jj: int| 0 <= jj < m implies have@[jj] <= i + 1 by {}
        }
        i = i + 1;
    }
    let ghost t1 = target@;
    // Each note's share of the players.
    let mut want: [usize; MAX_CHORD] = [0; MAX_CHORD];
    let mut j: usize = 0;
    while j < m
        invariant
            j <= m,
            1 <= m <= MAX_CHORD,
            n <= MAX_PLAYERS,
            forall|jj: int| 0 <= jj < j ==> want@[jj] == share(n as int, m as int, jj),
        decreases m - j,
    {
        let extra: usize = if j < n % m { 1 } else { 0 };
        want[j] = n / m + extra;
        j = j + 1;
    }
    // No note keeps more than its share: the back of its players moves first.
    proof {
        assert forall|k: int| 0 <= k < MAX_PLAYERS implies target@[k] == trimmed_voice(c, a, vs, nn, k, 0) by {
            if vs[k] is Some {
                lemma_first_index(c, vs[k]->0);
            }
        }
        assert forall|jj: int| 0 <= jj < m implies have@[jj] == kept_count(c, a, vs, nn, jj, 0) by {}
    }
    let mut j: usize = 0;
    while j < m
        invariant
            j <= m,
            m == c.len(),
            1 <= m <= MAX_CHORD,
            c == chord@,
            a == active@,
            vs == voices@,
            nn == n,
            0 <= nn <= MAX_PLAYERS,
            nn == count_true(a, MAX_PLAYERS as int),
            forall|jj: int| 0 <= jj < m ==> want@[jj] == share(nn, m as int, jj),
            forall|k: int| 0 <= k < MAX_PLAYERS ==> target@[k] == trimmed_voice(c, a, vs, nn, k, j as int),
            forall|jj: int| 0 <= jj < m ==> have@[jj] == kept_count(c, a, vs, nn, jj, j as int),
            forall|jj: int| 0 <= jj < m ==> have@[jj] <= MAX_PLAYERS,
            distinct(c) ==> forall|jj: int| 0 <= jj < m ==> have@[jj] == seated(target@, c[jj]),
        decreases m - j,
    {
        let v = chord.note(j);
        let ghost t0 = target@;
        let ghost have0 = have@;
        let mut over: usize = if have[j] > want[j] {
            have[j] - want[j]
        } else {
            0
        };
        let ghost over0: int = over as int;
        proof {
            lemma_first_index(c, v);
            lemma_holders_bound(a, vs, v, 0, MAX_PLAYERS as int);
            if over0 > 0 {
                assert forall|k: int| 0 <= k < MAX_PLAYERS implies (t0[k] == Some(v)) == holds(a, vs, k, v) by {
                    if vs[k] is Some {
                        lemma_first_index(c, vs[k]->0);
                    }
                }
            }
        }
        let mut i: usize = MAX_PLAYERS;
        while i > 0
            invariant
                i <= MAX_PLAYERS,
                j < m,
                m == c.len(),
                1 <= m <= MAX_CHORD,
                0 <= nn,
                c == chord@,
                a == active@,
                vs == voices@,
                v == c[j as int],
                0 <= over0,
                over0 > 0 ==> over0 == holders(a, vs, v, 0, MAX_PLAYERS as int) - share(nn, m as int, j as int),
                over0 > 0 ==> forall|k: int| 0 <= k < MAX_PLAYERS ==> (t0[k] == Some(v)) == holds(a, vs, k, v),
                over0 <= have0[j as int],
                over <= over0,
                have@[j as int] == have0[j as int] - (over0 - over),
                forall|jj: int| 0 <= jj < m && jj != j ==> have@[jj] == have0[jj],
                distinct(c) ==> forall|jj: int| 0 <= jj < m ==> have@[jj] == seated(target@, c[jj]),
                over == over0 - capped(holders(a, vs, v, i as int, MAX_PLAYERS as int) as int, over0),
                forall|k: int| 0 <= k < i ==> target@[k] == t0[k],
                forall|k: int|
                    i <= k < MAX_PLAYERS ==> target@[k] == (if t0[k] == Some(v) && holds(a, vs, k, v)
                        && holders(a, vs, v, k, MAX_PLAYERS as int) <= over0 {
                        None
                    } else {
                        t0[k]
                    }),
            decreases i,
        {
            i = i - 1;
            // The note's players behind this one, and from this one on.
            let ghost behind = holders(a, vs, v, i + 1, MAX_PLAYERS as int) as int;
            let ghost from_here = holders(a, vs, v, i as int, MAX_PLAYERS as int) as int;
            proof {
                lemma_holders_step(a, vs, v, i as int, MAX_PLAYERS as int);
                assert(over == over0 - capped(behind, over0));
                assert(target@[i as int] == t0[i as int]);
                if over > 0 {
                    assert(behind < over0);
                }
            }
            if over > 0 && target[i] == Some(v) {
                proof {
                    assert(holds(a, vs, i as int, v));
                    assert(from_here == behind + 1);
                    assert forall|w: u8| #![auto] true implies seated(target@.update(i as int, None), w) + (if w == v { 1int } else { 0int })
                        == seated(target@, w) by {
                        lemma_seated_update(target@, i as int, None, w);
                    }
                }
                target[i] = None;
                have[j] = have[j] - 1;
                over = over - 1;
            }
        }
        proof {
            lemma_share_nonneg(nn, m as int, j as int);
            assert(i == 0);
            assert(over0 > 0 ==> over == 0);
            assert(have@[j as int] == have0[j as int] - over0);
            assert forall|k: int| 0 <= k < MAX_PLAYERS implies target@[k] == trimmed_voice(c, a, vs, nn, k, j + 1) by {
                assert(t0[k] == trimmed_voice(c, a, vs, nn, k, j as int));
                lemma_trim_player(c, a, vs, nn, j as int, k, over0);
            }
            assert forall|jj: int| 0 <= jj < m implies have@[jj] == kept_count(c, a, vs, nn, jj, j + 1) by {
                assert(have0[jj] == kept_count(c, a, vs, nn, jj, j as int));
                lemma_trim_count(c, a, vs, nn, j as int, jj, over0);
            }
            assert forall|jj: int| 0 <= jj < m implies have@[jj] <= MAX_PLAYERS by {
                assert(have0[jj] <= MAX_PLAYERS);
            }
        }
        j = j + 1;
    }
    proof {
        assert forall|k: int| 0 <= k < MAX_PLAYERS implies target@[k] == (if keeps_seat(c, a, vs, k) {
            vs[k]
        } else {
            None
        }) by {
            lemma_trimmed_all(c, a, vs, nn, k);
        }
        assert forall|jj: int| 0 <= jj < m implies have@[jj] <= want@[jj] by {
            lemma_share_nonneg(nn, m as int, jj);
        }
    }
    let ghost t2 = target@;
    proof {
        lemma_fill_len(c, a, vs, nn, pending@, 0);
        assert forall|jj: int| 0 <= jj < m implies have@[jj] as int == fill_from(c, a, vs, nn, pending@, 0).1[jj] by {}
    }
    // The players left free take the notes that just came in.
    let ghost mut exhausted = false;
    let mut i: usize = 0;
    while i < MAX_PLAYERS
        invariant
            i <= MAX_PLAYERS,
            m == c.len(),
            1 <= m <= MAX_CHORD,
            c == chord@,
            a == active@,
            vs == voices@,
            forall|jj: int| 0 <= jj < m ==> want@[jj] == share(nn, m as int, jj),
            forall|jj: int| 0 <= jj < m ==> have@[jj] <= want@[jj],
            forall|k: int| 0 <= k < MAX_PLAYERS && !a[k] ==> target@[k] == None::<u8>,
            forall|k: int| 0 <= k < MAX_PLAYERS && keeps_seat(c, a, vs, k) ==> target@[k] == vs[k],
            forall|k: int|
                0 <= k < MAX_PLAYERS && a[k] && !keeps_seat(c, a, vs, k) && target@[k] is Some ==> c.contains(
                    target@[k]->0,
                ) && pending_notes(pending@).contains(target@[k]->0),
            forall|k: int| i <= k < MAX_PLAYERS && !keeps_seat(c, a, vs, k) ==> target@[k] == None::<u8>,
            forall|k: int| 0 <= k < i && a[k] && target@[k] == None::<u8> ==> exhausted,
            exhausted ==> forall|jj: int|
                0 <= jj < m && pending_notes(pending@).contains(c[jj]) ==> have@[jj] >= want@[jj],
            distinct(c) ==> forall|jj: int| 0 <= jj < m ==> have@[jj] == seated(target@, c[jj]),
            distinct(c) ==> fill_record(c, a, vs, target@, want@, pending@, i as int),
            nn == count_true(a, MAX_PLAYERS as int),
            0 <= nn <= MAX_PLAYERS,
            forall|k: int| 0 <= k < MAX_PLAYERS ==> t2[k] == trimmed_voice(c, a, vs, nn, k, m as int),
            forall|k: int| i <= k < MAX_PLAYERS ==> target@[k] == t2[k],
            fill_from(c, a, vs, nn, pending@, i as int).0.len() == i,
            fill_from(c, a, vs, nn, pending@, i as int).1.len() == m,
            forall|k: int| 0 <= k < i ==> target@[k] == fill_from(c, a, vs, nn, pending@, i as int).0[k],
            forall|jj: int| 0 <= jj < m ==> have@[jj] as int == fill_from(c, a, vs, nn, pending@, i as int).1[jj],
        decreases MAX_PLAYERS - i,
    {
        let ghost f0 = fill_from(c, a, vs, nn, pending@, i as int);
        proof {
            lemma_fill_len(c, a, vs, nn, pending@, i + 1);
        }
        if active[i] && target[i].is_none() {
            let mut j: usize = 0;
            while j < m
                invariant
                    j <= m,
                    m == c.len(),
                    1 <= m <= MAX_CHORD,
                    c == chord@,
                    forall|jj: int|
                        0 <= jj < j ==> !(pending_notes(pending@).contains(c[jj]) && have@[jj] < want@[jj]),
                ensures
                    j <= m,
                    j < m ==> pending_notes(pending@).contains(c[j as int]) && have@[j as int] < want@[j as int],
                    forall|jj: int|
                        0 <= jj < j ==> !(pending_notes(pending@).contains(c[jj]) && have@[jj] < want@[jj]),
                decreases m - j,
            {
                if have[j] < want[j] && pending.contains(chord.note(j)) {
                    break;
                }
                j = j + 1;
            }
            proof {
                assert forall|jj: int| 0 <= jj < j implies !(pending_notes(pending@).contains(c[jj]) && f0.1[jj] < share(
                    nn,
                    c.len() as int,
                    jj,
                )) by {
                    assert(have@[jj] as int == f0.1[jj]);
                }
                lemma_first_free_skip(c, pending@, f0.1, nn, 0, j as int);
                if j < m {
                    assert(have@[j as int] as int == f0.1[j as int]);
                }
                assert(first_free(c, pending@, f0.1, nn, 0) == j);
                assert(t2[i as int] == None::<u8>);
            }
            if j < m {
                let v = chord.note(j);
                let ghost t0 = target@;
                let ghost have0 = have@;
                proof {
                    assert(c.contains(v));
                    assert forall|w: u8| #![auto] true implies seated(target@.update(i as int, Some(v)), w)
                        == seated(target@, w) + (if w == v { 1int } else { 0int }) by {
                        lemma_seated_update(target@, i as int, Some(v), w);
                    }
                }
                target[i] = Some(v);
                have[j] = have[j] + 1;
                proof {
                    if distinct(c) {
                        assert(!keeps_seat(c, a, vs, i as int));
                        assert forall|k: int| 0 <= k < i implies before_fill(c, a, vs, target@, k) =~= before_fill(
                            c,
                            a,
                            vs,
                            t0,
                            k,
                        ) by {}
                        assert(before_fill(c, a, vs, target@, i as int) =~= t0);
                        assert forall|k: int, j2: int|
                            0 <= k < i + 1 && a[k] && !keeps_seat(c, a, vs, k) && 0 <= j2 < m && target@[k] == Some(c[j2])
                                implies seated(before_fill(c, a, vs, target@, k), c[j2]) < want@[j2] && forall|jj: int|
                            0 <= jj < j2 && pending_notes(pending@).contains(c[jj]) ==> seated(
                                before_fill(c, a, vs, target@, k),
                                c[jj],
                            ) >= want@[jj] by {
                            if k < i {
                                assert(before_fill(c, a, vs, target@, k) == before_fill(c, a, vs, t0, k));
                                assert(t0[k] == target@[k]);
                                assert(fill_record(c, a, vs, t0, want@, pending@, i as int));
                                assert(seated(before_fill(c, a, vs, t0, k), c[j2]) < want@[j2]);
                            } else {
                                assert(j2 == j);
                                assert forall|jj: int|
                                    0 <= jj < j2 && pending_notes(pending@).contains(c[jj]) implies seated(
                                    before_fill(c, a, vs, target@, k),
                                    c[jj],
                                ) >= want@[jj] by {
                                    assert(have0[jj] == seated(t0, c[jj]));
                                }
                                assert(have0[j as int] == seated(t0, c[j as int]));
                            }
                        }
                        assert(fill_record(c, a, vs, target@, want@, pending@, i + 1));
                    }
                }
            } else {
                proof {
                    exhausted = true;
                    assert(target@[i as int] == None::<u8>);
                    if distinct(c) {
                        assert(before_fill(c, a, vs, target@, i as int) =~= target@);
                        assert forall|jj: int|
                            0 <= jj < c.len() && pending_notes(pending@).contains(c[jj]) implies seated(
                            before_fill(c, a, vs, target@, i as int),
                            c[jj],
                        ) >= want@[jj] by {
                            assert(have@[jj] == seated(target@, c[jj]));
                        }
                        lemma_fill_turn_passes(c, a, vs, target@, have@, want@, pending@, i as int);
                    }
                }
            }
        } else {
            proof {
                assert(!(a[i as int] && !keeps_seat(c, a, vs, i as int) && target@[i as int] is Some));
                if distinct(c) {
                    lemma_fill_turn_passes(c, a, vs, target@, have@, want@, pending@, i as int);
                }
            }
        }
        i = i + 1;
    }
    proof {
        if distinct(c) {
            assert(fill_record(c, a, vs, target@, want@, pending@, MAX_PLAYERS as int));
            assert forall|k: int, j: int|
                0 <= k < MAX_PLAYERS && a[k] && !keeps_seat(c, a, vs, k) && 0 <= j < m && target@[k] == Some(c[j])
                    implies seated(before_fill(c, a, vs, target@, k), c[j]) < share(nn, m as int, j) && forall|jj: int|
                0 <= jj < j && pending_notes(pending@).contains(c[jj]) ==> seated(
                    before_fill(c, a, vs, target@, k),
                    c[jj],
                ) >= share(nn, m as int, jj) by {
                assert(seated(before_fill(c, a, vs, target@, k), c[j]) < want@[j]);
                assert forall|jj: int|
                    0 <= jj < j && pending_notes(pending@).contains(c[jj]) implies seated(
                    before_fill(c, a, vs, target@, k),
                    c[jj],
                ) >= share(nn, m as int, jj) by {
                    assert(want@[jj] == share(nn, m as int, jj));
                }
            }
            assert forall|k: int, jj: int|
                0 <= k < MAX_PLAYERS && a[k] && !keeps_seat(c, a, vs, k) && target@[k] == None::<u8> && 0 <= jj < m
                    && pending_notes(pending@).contains(c[jj]) implies seated(before_fill(c, a, vs, target@, k), c[jj])
                >= share(nn, m as int, jj) by {
                assert(want@[jj] == share(nn, m as int, jj));
            }
        }
        assert(target@ =~= divide_from(c, a, vs, pending@));
    }
    target
}

/// A player that takes no new note keeps the record of the earlier players'
/// turns.
proof fn lemma_fill_turn_passes(
    c: Seq<u8>,
    a: Seq<bool>,
    vs: Seq<Option<u8>>,
    t: Seq<Option<u8>>,
    have: Seq<usize>,
    want: Seq<usize>,
    p: Seq<(u8, u32)>,
    i: int,
)
    requires
        0 <= i < MAX_PLAYERS,
        !(a[i] && !keeps_seat(c, a, vs, i) && t[i] is Some),
        a[i] && !keeps_seat(c, a, vs, i) && t[i] == None::<u8> ==> forall|jj: int|
            0 <= jj < c.len() && pending_notes(p).contains(c[jj]) ==> seated(before_fill(c, a, vs, t, i), c[jj])
                >= want[jj],
        fill_record(c, a, vs, t, want, p, i),
    ensures
        fill_record(c, a, vs, t, want, p, i + 1),
{
    assert forall|k: int, jj: int|
        0 <= k < i + 1 && a[k] && !keeps_seat(c, a, vs, k) && t[k] == None::<u8> && 0 <= jj < c.len()
            && pending_notes(p).contains(c[jj]) implies seated(before_fill(c, a, vs, t, k), c[jj]) >= want[jj] by {
        if k < i {
            assert(0 <= k < i && a[k] && !keeps_seat(c, a, vs, k) && t[k] == None::<u8> && 0 <= jj < c.len()
                && pending_notes(p).contains(c[jj]));
        }
    }
    assert forall|k: int, j: int|
        0 <= k < i + 1 && a[k] && !keeps_seat(c, a, vs, k) && 0 <= j < c.len() && t[k] == Some(c[j]) implies seated(
        before_fill(c, a, vs, t, k),
        c[j],
    ) < want[j] && forall|jj: int|
        0 <= jj < j && pending_notes(p).contains(c[jj]) ==> seated(before_fill(c, a, vs, t, k), c[jj]) >= want[jj] by {
        if k == i {
            assert(t[i] is Some);
        } else {
            assert(seated(before_fill(c, a, vs, t, k), c[j]) < want[j]);
            assert forall|jj: int| 0 <= jj < j && pending_notes(p).contains(c[jj]) implies seated(
                before_fill(c, a, vs, t, k),
                c[jj],
            ) >= want[jj] by {
                assert(0 <= k < i && a[k] && !keeps_seat(c, a, vs, k) && 0 <= j < c.len() && t[k] == Some(c[j]));
            }
        }
    }
}

/// Once every note is trimmed, a player keeps its note exactly when it keeps
/// its seat.
proof fn lemma_trimmed_all(c: Seq<u8>, a: Seq<bool>, vs: Seq<Option<u8>>, n: int, k: int)
    requires
        0 <= k < MAX_PLAYERS,
        1 <= c.len(),
        n == count_true(a, MAX_PLAYERS as int),
    ensures
        trimmed_voice(c, a, vs, n, k, c.len() as int) == (if keeps_seat(c, a, vs, k) {
            vs[k]
        } else {
            None
        }),
{
    if vs[k] is Some {
        lemma_first_index(c, vs[k]->0);
    }
}



/// The distance between two notes, in semitones.
pub fn note_distance(a: u8, b: u8) -> (d: u8)
    ensures
        d == (if a > b {
            a - b
        } else {
            b - a
        }),
{
    if a > b {
        a - b
    } else {
        b - a
    }
}

/// What player `i` plays for the purpose of a steal: its seat, or else the
/// note it had.
pub open spec fn current(t: Seq<Option<u8>>, vs: Seq<Option<u8>>, i: int) -> Option<u8> {
    if t[i] is Some {
        t[i]
    } else {
        vs[i]
    }
}

/// The distance from what player `i` plays to `note` (if it plays one).
pub open spec fn gap(t: Seq<Option<u8>>, vs: Seq<Option<u8>>, i: int, note: u8) -> int {
    let v = current(t, vs, i)->0;
    if v > note {
        v - note
    } else {
        note - v
    }
}

/// `seat` is the player a new note takes when the chord has more notes than
/// players (see [`seat_for`]).
pub open spec fn seat_ok(t: Seq<Option<u8>>, a: Seq<bool>, vs: Seq<Option<u8>>, note: u8, seat: Option<int>) -> bool {
    if exists|k: int| 0 <= k < MAX_PLAYERS && a[k] && t[k] == None::<u8> {
        seat matches Some(s) && 0 <= s < MAX_PLAYERS && a[s] && t[s] == None::<u8> && forall|k: int|
            0 <= k < s ==> !(a[k] && t[k] == None::<u8>)
    } else {
        match seat {
            Some(s) => 0 <= s < MAX_PLAYERS && a[s] && current(t, vs, s) is Some && forall|k: int|
                0 <= k < MAX_PLAYERS && a[k] && current(t, vs, k) is Some ==> gap(t, vs, s, note) <= gap(t, vs, k, note)
                    && (k < s ==> gap(t, vs, s, note) < gap(t, vs, k, note)),
            None => forall|k: int| 0 <= k < MAX_PLAYERS && a[k] ==> current(t, vs, k) is None,
        }
    }
}

/// The player a new note takes (see [`seat_for`]): the one seat that
/// answers [`seat_ok`].
pub open spec fn seat_spec(t: Seq<Option<u8>>, a: Seq<bool>, vs: Seq<Option<u8>>, note: u8) -> Option<int> {
    choose|s: Option<int>| seat_ok(t, a, vs, note, s)
}

/// Only one seat answers [`seat_ok`].
pub proof fn lemma_seat_unique(t: Seq<Option<u8>>, a: Seq<bool>, vs: Seq<Option<u8>>, note: u8, s1: Option<int>, s2: Option<int>)
    requires
        seat_ok(t, a, vs, note, s1),
        seat_ok(t, a, vs, note, s2),
    ensures
        s1 == s2,
{
    if exists|k: int| 0 <= k < MAX_PLAYERS && a[k] && t[k] == None::<u8> {
        let x = s1->0;
        let y = s2->0;
        if x < y {
            assert(!(a[x] && t[x] == None::<u8>));
        } else if y < x {
            assert(!(a[y] && t[y] == None::<u8>));
        }
    } else {
        if s1 is Some && s2 is Some {
            let x = s1->0;
            let y = s2->0;
            assert(gap(t, vs, x, note) <= gap(t, vs, y, note));
            assert(gap(t, vs, y, note) <= gap(t, vs, x, note));
        } else if s1 is Some {
            let x = s1->0;
            assert(current(t, vs, x) is None);
        } else if s2 is Some {
            let y = s2->0;
            assert(current(t, vs, y) is None);
        }
    }
}

/// The player a new note takes when the chord has more notes than players:
/// the first active player without a seat; with none free, the first of the
/// active players whose note is closest to it in pitch. `None` when no
/// active player plays anything.
pub fn seat_for(
    target: &[Option<u8>; MAX_PLAYERS],
    active: &[bool; MAX_PLAYERS],
    voices: &[Option<u8>; MAX_PLAYERS],
    note: u8,
) -> (seat: Option<usize>)
    ensures
        seat_ok(
            target@,
            active@,
            voices@,
            note,
            match seat {
                Some(s) => Some(s as int),
                None => None,
            },
        ),
{
    let mut free: usize = 0;
    while free < MAX_PLAYERS
        invariant
            free <= MAX_PLAYERS,
            forall|k: int| 0 <= k < free ==> !(active@[k] && target@[k] == None::<u8>),
        ensures
            free <= MAX_PLAYERS,
            free < MAX_PLAYERS ==> active@[free as int] && target@[free as int] == None::<u8>,
            forall|k: int| 0 <= k < free ==> !(active@[k] && target@[k] == None::<u8>),
        decreases MAX_PLAYERS - free,
    {
        if active[free] && target[free].is_none() {
            break;
        }
        free = free + 1;
    }
    if free < MAX_PLAYERS {
        return Some(free);
    }
    // Nobody free: the player whose note is closest.
    let mut seat: Option<usize> = None;
    let mut best: u8 = 0;
    let mut k: usize = 0;
    while k < MAX_PLAYERS
        invariant
            k <= MAX_PLAYERS,
            seat matches Some(s) ==> s < k && active@[s as int] && current(target@, voices@, s as int) is Some && best
                == gap(target@, voices@, s as int, note) && forall|k2: int|
                0 <= k2 < k && active@[k2] && current(target@, voices@, k2) is Some ==> gap(
                    target@,
                    voices@,
                    s as int,
                    note,
                ) <= gap(target@, voices@, k2, note) && (k2 < s ==> gap(target@, voices@, s as int, note) < gap(
                    target@,
                    voices@,
                    k2,
                    note,
                )),
            seat is None ==> forall|k2: int| 0 <= k2 < k && active@[k2] ==> current(target@, voices@, k2) is None,
        decreases MAX_PLAYERS - k,
    {
        if active[k] {
            let now = match target[k] {
                Some(t) => Some(t),
                None => voices[k],
            };
            if let Some(t) = now {
                let d = note_distance(t, note);
                if seat.is_none() || d < best {
                    seat = Some(k);
                    best = d;
                }
            }
        }
        k = k + 1;
    }
    seat
}

/// Player `i` keeps its note when the chord has more notes than players: it
/// is switched on, its note is in the chord, and no player before it that is
/// switched on plays that note (the front desk keeps it).
pub open spec fn keeper(c: Seq<u8>, a: Seq<bool>, vs: Seq<Option<u8>>, i: int) -> bool {
    &&& a[i]
    &&& vs[i] is Some
    &&& c.contains(vs[i]->0)
    &&& holders(a, vs, vs[i]->0, 0, i) == 0
}

/// The seats and the chord notes taken (by place in the chord, their first
/// place) once the players keep the notes they have.
pub open spec fn kept(c: Seq<u8>, a: Seq<bool>, vs: Seq<Option<u8>>) -> (Seq<Option<u8>>, Seq<bool>) {
    (
        Seq::new(MAX_PLAYERS as nat, |i: int| if keeper(c, a, vs, i) { vs[i] } else { None }),
        Seq::new(
            MAX_CHORD as nat,
            |j: int| j < c.len() && first_index(c, c[j]) == j && holders(a, vs, c[j], 0, MAX_PLAYERS as int) > 0,
        ),
    )
}

/// One note that just came in, when the chord has more notes than players:
/// a note of the chord no player has takes the seat [`seat_spec`] gives.
pub open spec fn steal_step(
    c: Seq<u8>,
    a: Seq<bool>,
    vs: Seq<Option<u8>>,
    st: (Seq<Option<u8>>, Seq<bool>),
    note: u8,
) -> (Seq<Option<u8>>, Seq<bool>) {
    let j = first_index(c, note);
    if !c.contains(note) || st.1[j] {
        st
    } else {
        match seat_spec(st.0, a, vs, note) {
            Some(s) => (st.0.update(s, Some(note)), st.1.update(j, true)),
            None => st,
        }
    }
}

/// The seats once each of `notes` has come in, in order.
pub open spec fn steal_from(
    c: Seq<u8>,
    a: Seq<bool>,
    vs: Seq<Option<u8>>,
    st: (Seq<Option<u8>>, Seq<bool>),
    notes: Seq<u8>,
) -> (Seq<Option<u8>>, Seq<bool>)
    decreases notes.len(),
{
    if notes.len() == 0 {
        st
    } else {
        steal_step(c, a, vs, steal_from(c, a, vs, st, notes.drop_last()), notes.last())
    }
}

/// A player's count of a note's holders grows by one when it holds it.
proof fn lemma_holders_next(a: Seq<bool>, vs: Seq<Option<u8>>, w: u8, i: int)
    requires
        0 <= i,
    ensures
        holders(a, vs, w, 0, i + 1) == holders(a, vs, w, 0, i) + if holds(a, vs, i, w) {
            1int
        } else {
            0int
        },
{
}

/// The seating when the chord has more notes than the section has players:
/// every active player plays one note (never a double stop). The players
/// keep the notes they have, one player per note (the front desk keeps it);
/// each note that just came in takes the first free player, or, with none
/// free, the player whose note is closest to it in pitch, ending that note.
/// A note left without a player is dropped.
pub fn steal(
    chord: &Chord,
    active: &[bool; MAX_PLAYERS],
    voices: &[Option<u8>; MAX_PLAYERS],
    pending: &Pending,
) -> (target: [Option<u8>; MAX_PLAYERS])
    ensures
        forall|i: int| 0 <= i < MAX_PLAYERS && !active@[i] ==> target@[i] == None::<u8>,
        forall|i: int|
            #![trigger target@[i]]
            0 <= i < MAX_PLAYERS && target@[i] is Some ==> chord@.contains(target@[i]->0) && (
            target@[i] == voices@[i] || pending_notes(pending@).contains(target@[i]->0)),
        forall|i: int, k: int|
            0 <= i < MAX_PLAYERS && 0 <= k < MAX_PLAYERS && i != k && target@[i] is Some
                ==> target@[i] != target@[k],
        (exists|i: int| 0 <= i < MAX_PLAYERS && active@[i] && target@[i] == None::<u8>) ==> forall|q: int|
            0 <= q < pending@.len() && chord@.contains(#[trigger] pending@[q].0) ==> exists|k: int|
                0 <= k < MAX_PLAYERS && target@[k] == Some(pending@[q].0),
        target@ == steal_from(
            chord@,
            active@,
            voices@,
            kept(chord@, active@, voices@),
            pending_notes(pending@),
        ).0,
{
    let ghost c = chord@;
    let ghost a = active@;
    let ghost vs = voices@;
    let m = chord.len();
    let mut target: [Option<u8>; MAX_PLAYERS] = [None; MAX_PLAYERS];
    let mut taken: [bool; MAX_CHORD] = [false; MAX_CHORD];
    // The players keep the notes they have, one player per note.
    let mut i: usize = 0;
    while i < MAX_PLAYERS
        invariant
            i <= MAX_PLAYERS,
            m == c.len(),
            m <= MAX_CHORD,
            taken@.len() == MAX_CHORD,
            c == chord@,
            a == active@,
            vs == voices@,
            forall|k: int| 0 <= k < MAX_PLAYERS && !a[k] ==> target@[k] == None::<u8>,
            forall|k: int| i <= k < MAX_PLAYERS ==> target@[k] == None::<u8>,
            forall|k: int|
                #![trigger target@[k]]
                0 <= k < MAX_PLAYERS && target@[k] is Some ==> target@[k] == vs[k] && c.contains(target@[k]->0),
            forall|k: int|
                0 <= k < MAX_PLAYERS && target@[k] is Some ==> first_index(c, target@[k]->0) < m
                    && taken@[first_index(c, target@[k]->0)],
            forall|jj: int| 0 <= jj < m && taken@[jj] ==> exists|k: int| 0 <= k < MAX_PLAYERS && target@[k] == Some(c[jj]),
            forall|k1: int, k2: int|
                0 <= k1 < MAX_PLAYERS && 0 <= k2 < MAX_PLAYERS && k1 != k2 && target@[k1] is Some ==> target@[k1]
                    != target@[k2],
            forall|k: int| 0 <= k < i ==> target@[k] == kept(c, a, vs).0[k],
            forall|jj: int|
                0 <= jj < MAX_CHORD ==> taken@[jj] == (jj < m && first_index(c, c[jj]) == jj && holders(
                    a,
                    vs,
                    c[jj],
                    0,
                    i as int,
                ) > 0),
        decreases MAX_PLAYERS - i,
    {
        let ghost t_b = target@;
        let ghost tk_b = taken@;
        if active[i] {
            if let Some(v) = voices[i] {
                proof {
                    lemma_first_index(c, v);
                }
                if let Some(j) = chord.position(v) {
                    if !taken[j] {
                        let ghost t0 = target@;
                        let ghost tk0 = taken@;
                        target[i] = Some(v);
                        taken[j] = true;
                        proof {
                            assert(j as int == first_index(c, v));
                            assert forall|k: int| 0 <= k < MAX_PLAYERS && target@[k] is Some implies first_index(c, target@[k]->0) < m
                                && taken@[first_index(c, target@[k]->0)] by {
                                if k != i {
                                    lemma_first_index(c, t0[k]->0);
                                    assert(t0[k] == target@[k]);
                                    assert(first_index(c, t0[k]->0) < m && tk0[first_index(c, t0[k]->0)]);
                                    assert(taken@[first_index(c, t0[k]->0)]);
                                } else {
                                    assert(target@[k] == Some(v));
                                    assert(c.contains(v));
                                    assert(first_index(c, v) < m);
                                    assert(taken@[first_index(c, v)]);
                                }
                            }
                            assert forall|jj: int| 0 <= jj < m && taken@[jj] implies exists|k: int|
                                0 <= k < MAX_PLAYERS && target@[k] == Some(c[jj]) by {
                                if jj != j {
                                    let k = choose|k: int| 0 <= k < MAX_PLAYERS && t0[k] == Some(c[jj]);
                                    assert(target@[k] == Some(c[jj]));
                                } else {
                                    assert(target@[i as int] == Some(c[jj]));
                                }
                            }
                        }
                    }
                }
            }
        }
        proof {
            assert forall|w: u8| #![auto]
                holders(a, vs, w, 0, i + 1) == holders(a, vs, w, 0, i as int) + if holds(a, vs, i as int, w) {
                    1int
                } else {
                    0int
                } by {
                lemma_holders_next(a, vs, w, i as int);
            }
            if vs[i as int] is Some {
                lemma_first_index(c, vs[i as int]->0);
            }
            assert forall|jj: int| 0 <= jj < MAX_CHORD implies taken@[jj] == (jj < m && first_index(c, c[jj]) == jj
                && holders(a, vs, c[jj], 0, i + 1) > 0) by {
                if jj < m {
                    lemma_first_index(c, c[jj]);
                }
            }
            assert(target@[i as int] == kept(c, a, vs).0[i as int]);
        }
        i = i + 1;
    }
    // Each note that just came in takes a free player, or the closest.
    proof {
        assert(target@ =~= kept(c, a, vs).0);
        assert(taken@ =~= kept(c, a, vs).1);
        assert(pending_notes(pending@).take(0) =~= Seq::<u8>::empty());
    }
    let ghost mut stole = false;
    let mut q: usize = 0;
    while q < pending.len()
        invariant
            q <= pending@.len(),
            (target@, taken@) == steal_from(c, a, vs, kept(c, a, vs), pending_notes(pending@).take(q as int)),
            m == c.len(),
            m <= MAX_CHORD,
            taken@.len() == MAX_CHORD,
            c == chord@,
            a == active@,
            vs == voices@,
            forall|k: int| 0 <= k < MAX_PLAYERS && !a[k] ==> target@[k] == None::<u8>,
            forall|k: int|
                #![trigger target@[k]]
                0 <= k < MAX_PLAYERS && target@[k] is Some ==> c.contains(target@[k]->0) && (target@[k] == vs[k]
                    || pending_notes(pending@).contains(target@[k]->0)),
            forall|k: int|
                0 <= k < MAX_PLAYERS && target@[k] is Some ==> first_index(c, target@[k]->0) < m
                    && taken@[first_index(c, target@[k]->0)],
            !stole ==> forall|jj: int|
                0 <= jj < m && taken@[jj] ==> exists|k: int| 0 <= k < MAX_PLAYERS && target@[k] == Some(c[jj]),
            stole ==> forall|k: int| 0 <= k < MAX_PLAYERS && a[k] ==> target@[k] is Some,
            forall|r: int|
                0 <= r < q && c.contains(pending@[r].0) ==> stole || (first_index(c, pending@[r].0) < m
                    && taken@[first_index(c, pending@[r].0)]),
            forall|k1: int, k2: int|
                0 <= k1 < MAX_PLAYERS && 0 <= k2 < MAX_PLAYERS && k1 != k2 && target@[k1] is Some ==> target@[k1]
                    != target@[k2],
        decreases pending@.len() - q,
    {
        let (note, _velocity) = pending.get(q);
        let ghost tk_start = taken@;
        let ghost t_start = target@;
        proof {
            lemma_first_index(c, note);
            assert(pending_notes(pending@)[q as int] == note);
            let pn = pending_notes(pending@);
            assert(pn.take(q + 1).drop_last() =~= pn.take(q as int));
            assert(pn.take(q + 1).last() == note);
        }
        if let Some(j) = chord.position(note) {
            if !taken[j] {
                let seat = seat_for(&target, active, voices, note);
                proof {
                    let si = match seat {
                        Some(x) => Some(x as int),
                        None => None::<int>,
                    };
                    lemma_seat_unique(target@, a, vs, note, si, seat_spec(target@, a, vs, note));
                    assert(seat_spec(target@, a, vs, note) == si);
                    if !(exists|k: int| 0 <= k < MAX_PLAYERS && a[k] && target@[k] == None::<u8>) {
                        stole = true;
                    }
                }
                if let Some(s) = seat {
                    let ghost t0 = target@;
                    target[s] = Some(note);
                    taken[j] = true;
                    proof {
                        assert(taken@ == tk_start.update(j as int, true));
                        assert forall|k: int| 0 <= k < MAX_PLAYERS && target@[k] is Some implies c.contains(target@[k]->0)
                            && (target@[k] == vs[k] || pending_notes(pending@).contains(target@[k]->0)) by {
                            if k != s {
                                assert(t0[k] == target@[k]);
                            } else {
                                assert(c.contains(note));
                                assert(0 <= q < pending_notes(pending@).len());
                                assert(pending_notes(pending@).contains(note));
                            }
                        }
                        assert forall|k: int| 0 <= k < MAX_PLAYERS && target@[k] is Some implies first_index(c, target@[k]->0) < m
                            && taken@[first_index(c, target@[k]->0)] by {
                            if k != s {
                                lemma_first_index(c, t0[k]->0);
                                assert(t0[k] == target@[k]);
                                assert(first_index(c, t0[k]->0) < m && tk_start[first_index(c, t0[k]->0)]);
                            }
                        }
                        assert forall|k1: int, k2: int|
                            0 <= k1 < MAX_PLAYERS && 0 <= k2 < MAX_PLAYERS && k1 != k2 && target@[k1] is Some
                                implies target@[k1] != target@[k2] by {
                            if k1 != s && k2 != s {
                                assert(t0[k1] != t0[k2]);
                            } else if k1 == s {
                                if t0[k2] is Some {
                                    lemma_first_index(c, t0[k2]->0);
                                    assert(tk_start[first_index(c, t0[k2]->0)]);
                                }
                            } else {
                                if t0[k1] is Some {
                                    lemma_first_index(c, t0[k1]->0);
                                    assert(tk_start[first_index(c, t0[k1]->0)]);
                                }
                            }
                        }
                        if !stole {
                            assert forall|jj: int| 0 <= jj < m && taken@[jj] implies exists|k: int|
                                0 <= k < MAX_PLAYERS && target@[k] == Some(c[jj]) by {
                                if jj != j {
                                    let k = choose|k: int| 0 <= k < MAX_PLAYERS && t0[k] == Some(c[jj]);
                                    assert(target@[k] == Some(c[jj]));
                                } else {
                                    assert(target@[s as int] == Some(c[jj]));
                                }
                            }
                        }
                    }
                }
            }
        }
        proof {
            assert(taken@.len() == MAX_CHORD);
            assert((target@, taken@) == steal_step(c, a, vs, (t_start, tk_start), note));
            assert forall|x: int| 0 <= x < MAX_CHORD && tk_start[x] implies taken@[x] by {}
            assert forall|r: int| 0 <= r < q + 1 && c.contains(pending@[r].0) implies stole || (first_index(
                c,
                pending@[r].0,
            ) < m && taken@[first_index(c, pending@[r].0)]) by {
                lemma_first_index(c, pending@[r].0);
            }
        }
        q = q + 1;
    }
    proof {
        assert(pending_notes(pending@).take(q as int) =~= pending_notes(pending@));
        if exists|i: int| 0 <= i < MAX_PLAYERS && a[i] && target@[i] == None::<u8> {
            assert(!stole);
            assert forall|r: int| 0 <= r < pending@.len() && c.contains(#[trigger] pending@[r].0) implies exists|k: int|
                0 <= k < MAX_PLAYERS && target@[k] == Some(pending@[r].0) by {
                lemma_first_index(c, pending@[r].0);
            }
        }
    }
    target
}

/// A player's seed from the section's seed and its index: the two mixed by
/// Murmur3's finalizer, so neighbouring players draw unrelated values; never
/// 0, so it can start a xorshift generator.
pub fn player_seed(seed: u32, i: usize) -> (s: u32)
    ensures
        s == (if fmix32(seed ^ (i as u32).wrapping_mul(0x9e37_79b9u32)) == 0 {
            1
        } else {
            fmix32(seed ^ (i as u32).wrapping_mul(0x9e37_79b9u32))
        }),
        s != 0,
{
    let x = finalize(seed ^ (i as u32).wrapping_mul(0x9e37_79b9));
    if x == 0 {
        1
    } else {
        x
    }
}

/// What a player does to take the seat a seating gives it: the note it
/// drops from its queue (a note that hasn't begun is never played), the note
/// it ends, the note it starts, and the note it is seated on afterwards.
#[derive(Clone, Copy, Debug, PartialEq, Eq, Structural)]
pub struct Move {
    pub cancel: Option<u8>,
    pub note_off: Option<u8>,
    pub note_on: Option<u8>,
    pub voice: Option<u8>,
}

/// How a player seated on `voice` moves to `want`: keeping its note (struck
/// again when it is among the notes that just came in, `struck`), leaving it
/// for another, leaving it for none, or taking a note from none.
pub fn seat_move(voice: Option<u8>, want: Option<u8>, struck: bool) -> (m: Move)
    ensures
        m == (match (voice, want) {
            (Some(old), Some(new)) => if old == new {
                Move {
                    cancel: None,
                    note_off: None,
                    note_on: if struck {
                        Some(new)
                    } else {
                        None
                    },
                    voice: Some(old),
                }
            } else {
                Move { cancel: Some(old), note_off: Some(old), note_on: Some(new), voice: Some(new) }
            },
            (Some(old), None) => Move { cancel: Some(old), note_off: Some(old), note_on: None, voice: None },
            (None, Some(new)) => Move { cancel: None, note_off: None, note_on: Some(new), voice: Some(new) },
            (None, None) => Move { cancel: None, note_off: None, note_on: None, voice: None },
        }),
        m.voice == want,
{
    match (voice, want) {
        (Some(old), Some(new)) => {
            if old == new {
                Move { cancel: None, note_off: None, note_on: if struck { Some(new) } else { None }, voice: Some(old) }
            } else {
                Move { cancel: Some(old), note_off: Some(old), note_on: Some(new), voice: Some(new) }
            }
        },
        (Some(old), None) => Move { cancel: Some(old), note_off: Some(old), note_on: None, voice: None },
        (None, Some(new)) => Move { cancel: None, note_off: None, note_on: Some(new), voice: Some(new) },
        (None, None) => Move { cancel: None, note_off: None, note_on: None, voice: None },
    }
}

/// Players switched on for a section size: 1 to [`MAX_PLAYERS`].
pub fn player_count(count: usize) -> (n: usize)
    ensures
        n == (if count < 1 {
            1
        } else if count > MAX_PLAYERS {
            MAX_PLAYERS as int
        } else {
            count as int
        }),
{
    if count < 1 {
        1
    } else if count > MAX_PLAYERS {
        MAX_PLAYERS
    } else {
        count
    }
}

/// What becomes of player `i` when the section is set to `count` players.
#[derive(Clone, Copy, Debug, PartialEq, Eq, Structural)]
pub struct Switch {
    /// Switched on.
    pub active: bool,
    /// Asleep (faded out and not processed).
    pub asleep: bool,
    /// Its queue is dropped and it finishes its note as if let go.
    pub release: bool,
    /// It forgets the chord note it was seated on: a player switched on comes
    /// in with the next note, not into the middle of a chord.
    pub forget_voice: bool,
}

/// Player `i`, `active` and `asleep` as it is, when the section is set to
/// `count` players (already within 1 to [`MAX_PLAYERS`]). Players switched off
/// finish their note as if it were let go and fade out; players switched on
/// wake up and come in with the next note.
pub fn switch_player(i: usize, count: usize, active: bool, asleep: bool) -> (s: Switch)
    ensures
        s.active == (i < count),
        s.asleep == (if i < count && !active && asleep {
            false
        } else {
            asleep
        }),
        s.release == (!(i < count) && active),
        s.forget_voice == ((i < count) != active),
{
    let on = i < count;
    Switch {
        active: on,
        asleep: if on && !active && asleep { false } else { asleep },
        release: !on && active,
        forget_voice: on != active,
    }
}

/// `mask` marks `note`: bit `note % 64` of word `note / 64`.
pub open spec fn marked(mask: [u64; 2], note: u8) -> bool {
    mask[(note / 64) as int] & (1u64 << ((note % 64) as u64)) != 0
}

/// Marks `note` as sounding in `mask`, leaving the other notes as they are.
pub fn mark_note(mask: &mut [u64; 2], note: u8)
    requires
        note < 128,
    ensures
        marked(*final(mask), note),
        forall|other: u8| other < 128 && other != note ==> marked(*final(mask), other) == marked(*old(mask), other),
{
    let word: usize = (note / 64) as usize;
    let bit: u64 = (note % 64) as u64;
    let before = mask[word];
    let after = before | (1u64 << bit);
    mask[word] = after;
    proof {
        assert(after & (1u64 << bit) != 0) by (bit_vector)
            requires
                after == before | (1u64 << bit),
                bit < 64,
        ;
        assert forall|other: u8| other < 128 && other != note implies marked(*mask, other) == marked(*old(mask), other) by {
            let ob: u64 = (other % 64) as u64;
            if other / 64 == note / 64 {
                assert(ob != bit);
                assert((after & (1u64 << ob) != 0) == (before & (1u64 << ob) != 0)) by (bit_vector)
                    requires
                        after == before | (1u64 << bit),
                        bit < 64,
                        ob < 64,
                        ob != bit,
                ;
            }
        }
    }
}

/// `note` is marked sounding in `mask`.
pub fn note_marked(mask: &[u64; 2], note: u8) -> (r: bool)
    requires
        note < 128,
    ensures
        r == marked(*mask, note),
{
    let word: usize = (note / 64) as usize;
    mask[word] & (1u64 << ((note % 64) as u64)) != 0
}

/// The seating a divided chord gives (see [`divide`]): the players switched
/// off have no seat, the front of each note's players keep it, the others
/// take notes that just came in, no note has more than its share, a player
/// is left without a note only when every new note has its share, and each
/// player that takes a new note, in turn, takes the first with room (one
/// that takes none found no room) when the chord holds no note twice; and,
/// for every chord, exactly the seats [`divide_from`] gives.
pub open spec fn divided(c: Seq<u8>, a: Seq<bool>, vs: Seq<Option<u8>>, p: Seq<(u8, u32)>, t: Seq<Option<u8>>) -> bool {
    &&& t == divide_from(c, a, vs, p)
    &&& forall|i: int| 0 <= i < MAX_PLAYERS && !a[i] ==> t[i] == None::<u8>
    &&& forall|i: int| 0 <= i < MAX_PLAYERS && keeps_seat(c, a, vs, i) ==> t[i] == vs[i]
    &&& forall|i: int|
        0 <= i < MAX_PLAYERS && a[i] && !keeps_seat(c, a, vs, i) && t[i] is Some ==> c.contains(t[i]->0)
            && pending_notes(p).contains(t[i]->0)
    &&& distinct(c) ==> forall|j: int|
        0 <= j < c.len() ==> seated(t, c[j]) <= share(count_true(a, MAX_PLAYERS as int) as int, c.len() as int, j)
    &&& distinct(c) ==> forall|i: int, j: int|
        0 <= i < MAX_PLAYERS && a[i] && t[i] == None::<u8> && 0 <= j < c.len() && pending_notes(p).contains(c[j])
            ==> seated(t, c[j]) >= share(count_true(a, MAX_PLAYERS as int) as int, c.len() as int, j)
    &&& distinct(c) ==> forall|i: int, j: int|
        0 <= i < MAX_PLAYERS && a[i] && !keeps_seat(c, a, vs, i) && 0 <= j < c.len() && t[i] == Some(c[j]) ==> seated(
            before_fill(c, a, vs, t, i),
            c[j],
        ) < share(count_true(a, MAX_PLAYERS as int) as int, c.len() as int, j) && forall|jj: int|
            0 <= jj < j && pending_notes(p).contains(c[jj]) ==> seated(before_fill(c, a, vs, t, i), c[jj]) >= share(
                count_true(a, MAX_PLAYERS as int) as int,
                c.len() as int,
                jj,
            )
    &&& distinct(c) ==> forall|i: int, jj: int|
        0 <= i < MAX_PLAYERS && a[i] && !keeps_seat(c, a, vs, i) && t[i] == None::<u8> && 0 <= jj < c.len()
            && pending_notes(p).contains(c[jj]) ==> seated(before_fill(c, a, vs, t, i), c[jj]) >= share(
            count_true(a, MAX_PLAYERS as int) as int,
            c.len() as int,
            jj,
        )
}

/// The seating a chord of more notes than players gives (see [`steal`]):
/// the players switched off have no seat, every seat is a note of the chord
/// the player had or one that just came in, no note has two players, while
/// a player is free every new note of the chord has one; exactly, the seats
/// [`steal_from`] gives.
pub open spec fn stolen(c: Seq<u8>, a: Seq<bool>, vs: Seq<Option<u8>>, p: Seq<(u8, u32)>, t: Seq<Option<u8>>) -> bool {
    &&& forall|i: int| 0 <= i < MAX_PLAYERS && !a[i] ==> t[i] == None::<u8>
    &&& forall|i: int|
        #![trigger t[i]]
        0 <= i < MAX_PLAYERS && t[i] is Some ==> c.contains(t[i]->0) && (t[i] == vs[i] || pending_notes(p).contains(
            t[i]->0,
        ))
    &&& forall|i: int, k: int| 0 <= i < MAX_PLAYERS && 0 <= k < MAX_PLAYERS && i != k && t[i] is Some ==> t[i] != t[k]
    &&& (exists|i: int| 0 <= i < MAX_PLAYERS && a[i] && t[i] == None::<u8>) ==> forall|q: int|
        0 <= q < p.len() && c.contains(#[trigger] p[q].0) ==> exists|k: int| 0 <= k < MAX_PLAYERS && t[k] == Some(p[q].0)
    &&& t == steal_from(c, a, vs, kept(c, a, vs), pending_notes(p)).0
}

/// The chord once the notes that came in are added, as many as fit.
pub open spec fn chord_with(c: Seq<u8>, notes: Seq<u8>) -> Seq<u8>
    decreases notes.len(),
{
    if notes.len() == 0 {
        c
    } else {
        chord_with(
            if c.len() < MAX_CHORD {
                c.push(notes[0])
            } else {
                c
            },
            notes.drop_first(),
        )
    }
}

/// How player `i` moves to its seat `t` (see [`seat_move`]), or stays as it
/// is when switched off.
pub open spec fn planned_move(active: bool, voice: Option<u8>, want: Option<u8>, p: Seq<(u8, u32)>) -> Move {
    if !active {
        Move { cancel: None, note_off: None, note_on: None, voice: voice }
    } else {
        match (voice, want) {
            (Some(old), Some(new)) => if old == new {
                Move {
                    cancel: None,
                    note_off: None,
                    note_on: if pending_notes(p).contains(new) {
                        Some(new)
                    } else {
                        None
                    },
                    voice: Some(old),
                }
            } else {
                Move { cancel: Some(old), note_off: Some(old), note_on: Some(new), voice: Some(new) }
            },
            (Some(old), None) => Move { cancel: Some(old), note_off: Some(old), note_on: None, voice: None },
            (None, Some(new)) => Move { cancel: None, note_off: None, note_on: Some(new), voice: Some(new) },
            (None, None) => Move { cancel: None, note_off: None, note_on: None, voice: None },
        }
    }
}

/// What a section does with the notes that came in on one sample.
pub struct Flush {
    /// The notes, with their velocities (as `f32` bits), in the order they
    /// came.
    pub notes: Pending,
    /// Nobody to divide: every player plays each note, as a section without
    /// divisi does (after the moves, which end any divided notes).
    pub whole: bool,
    /// Where the players are seated (when the chord is divided).
    pub target: [Option<u8>; MAX_PLAYERS],
    /// What each player does.
    pub moves: [Move; MAX_PLAYERS],
}

/// A section's divisi: the chord it divides among its players, the notes
/// waiting for the end of the sample, whether the players are seated on the
/// chord's notes, and the note each is seated on.
pub struct Divisi {
    pub chord: Chord,
    pub pending: Pending,
    /// The players are seated on the chord's notes, one each.
    pub dividing: bool,
    pub voices: [Option<u8>; MAX_PLAYERS],
}

impl Divisi {
    /// No chord, nobody seated.
    pub fn new() -> (d: Divisi)
        ensures
            d.chord@ == Seq::<u8>::empty(),
            d.pending@ == Seq::<(u8, u32)>::empty(),
            !d.dividing,
            forall|i: int| 0 <= i < MAX_PLAYERS ==> d.voices@[i] == None::<u8>,
    {
        Divisi { chord: Chord::new(), pending: Pending::new(), dividing: false, voices: [None; MAX_PLAYERS] }
    }

    /// Forgets the chord the players are divided over, without touching them.
    pub fn forget(&mut self)
        ensures
            final(self).chord@ == Seq::<u8>::empty(),
            final(self).pending@ == Seq::<(u8, u32)>::empty(),
            !final(self).dividing,
            forall|i: int| 0 <= i < MAX_PLAYERS ==> final(self).voices@[i] == None::<u8>,
    {
        self.chord.clear();
        self.pending.clear();
        self.dividing = false;
        self.voices = [None; MAX_PLAYERS];
    }

    /// Divides the notes that came in while the sample was being handled:
    /// the players are seated on the chord's notes, one note each, spread as
    /// evenly as its desks are ([`divide`]); with more notes than players the
    /// new notes take the nearest player ([`steal`]). A section of one player
    /// (or none) has nobody to divide: the players leave the notes they were
    /// seated on and play the whole chord. `None` when no note came in.
    pub fn flush(&mut self, active: &[bool; MAX_PLAYERS]) -> (out: Option<Flush>)
        ensures
            old(self).pending@.len() == 0 ==> out is None && *final(self) == *old(self),
            old(self).pending@.len() > 0 ==> (out matches Some(f) && ({
                let c = chord_with(old(self).chord@, pending_notes(old(self).pending@));
                let n = count_true(active@, MAX_PLAYERS as int);
                &&& f.notes@ == old(self).pending@
                &&& final(self).pending@ == Seq::<(u8, u32)>::empty()
                &&& final(self).chord@ == c
                &&& f.whole == (n <= 1)
                &&& (n > 1 && c.len() <= n) ==> divided(c, active@, old(self).voices@, old(self).pending@, f.target@)
                &&& (n > 1 && c.len() > n) ==> stolen(c, active@, old(self).voices@, old(self).pending@, f.target@)
                &&& n > 1 ==> final(self).dividing && forall|i: int|
                    0 <= i < MAX_PLAYERS ==> f.moves@[i] == planned_move(
                        active@[i],
                        old(self).voices@[i],
                        f.target@[i],
                        old(self).pending@,
                    ) && final(self).voices@[i] == f.moves@[i].voice
                &&& n <= 1 ==> !final(self).dividing && forall|i: int|
                    0 <= i < MAX_PLAYERS ==> final(self).voices@[i] == (if old(self).dividing {
                        None::<u8>
                    } else {
                        old(self).voices@[i]
                    }) && f.moves@[i] == (if old(self).dividing {
                        Move { cancel: old(self).voices@[i], note_off: old(self).voices@[i], note_on: None, voice: None }
                    } else {
                        Move { cancel: None, note_off: None, note_on: None, voice: old(self).voices@[i] }
                    })
            })),
    {
        if self.pending.len() == 0 {
            return None;
        }
        let notes = self.take_pending();
        let _ = self.chord.len();
        let ghost before = self.chord@;
        assert(pending_notes(notes@).skip(0) =~= pending_notes(notes@));
        let mut k: usize = 0;
        while k < notes.len()
            invariant
                k <= notes@.len(),
                self.chord@.len() <= MAX_CHORD,
                self.pending@ == Seq::<(u8, u32)>::empty(),
                self.dividing == old(self).dividing,
                self.voices == old(self).voices,
                chord_with(before, pending_notes(notes@)) == chord_with(self.chord@, pending_notes(notes@).skip(k as int)),
            decreases notes@.len() - k,
        {
            let (note, _) = notes.get(k);
            let ghost rest = pending_notes(notes@).skip(k as int);
            assert(rest[0] == note);
            assert(rest.drop_first() =~= pending_notes(notes@).skip(k + 1));
            self.chord.add(note);
            k = k + 1;
        }
        assert(pending_notes(notes@).skip(k as int) =~= Seq::<u8>::empty());
        let mut n: usize = 0;
        let mut i: usize = 0;
        while i < MAX_PLAYERS
            invariant
                i <= MAX_PLAYERS,
                n == count_true(active@, i as int),
                n <= i,
            decreases MAX_PLAYERS - i,
        {
            if active[i] {
                n = n + 1;
            }
            i = i + 1;
        }
        let ghost voices0 = self.voices@;
        if n > 1 {
            let target = if self.chord.len() <= n {
                proof {
                    lemma_chord_with_len(before, pending_notes(notes@));
                }
                let t = divide(&self.chord, active, &self.voices, &notes);
                assert(divided(self.chord@, active@, voices0, notes@, t@));
                t
            } else {
                let t = steal(&self.chord, active, &self.voices, &notes);
                assert(stolen(self.chord@, active@, voices0, notes@, t@));
                t
            };
            let mut moves = [Move { cancel: None, note_off: None, note_on: None, voice: None }; MAX_PLAYERS];
            let ghost chord1 = self.chord@;
            let mut i: usize = 0;
            while i < MAX_PLAYERS
                invariant
                    i <= MAX_PLAYERS,
                    self.chord@ == chord1,
                    self.pending@ == Seq::<(u8, u32)>::empty(),
                    forall|k: int| 0 <= k < i ==> moves@[k] == planned_move(active@[k], voices0[k], target@[k], notes@)
                        && self.voices@[k] == moves@[k].voice,
                    forall|k: int| i <= k < MAX_PLAYERS ==> self.voices@[k] == voices0[k],
                decreases MAX_PLAYERS - i,
            {
                let m = if active[i] {
                    let struck = match target[i] {
                        Some(t) => notes.contains(t),
                        None => false,
                    };
                    seat_move(self.voices[i], target[i], struck)
                } else {
                    Move { cancel: None, note_off: None, note_on: None, voice: self.voices[i] }
                };
                moves[i] = m;
                self.voices[i] = m.voice;
                i = i + 1;
            }
            self.dividing = true;
            Some(Flush { notes, whole: false, target, moves })
        } else {
            let mut moves = [Move { cancel: None, note_off: None, note_on: None, voice: None }; MAX_PLAYERS];
            let was_dividing = self.dividing;
            let ghost chord1 = self.chord@;
            let mut i: usize = 0;
            while i < MAX_PLAYERS
                invariant
                    i <= MAX_PLAYERS,
                    self.chord@ == chord1,
                    self.pending@ == Seq::<(u8, u32)>::empty(),
                    was_dividing == old(self).dividing,
                    forall|k: int| 0 <= k < i ==> self.voices@[k] == (if was_dividing {
                        None::<u8>
                    } else {
                        voices0[k]
                    }) && moves@[k] == (if was_dividing {
                        Move { cancel: voices0[k], note_off: voices0[k], note_on: None, voice: None }
                    } else {
                        Move { cancel: None, note_off: None, note_on: None, voice: voices0[k] }
                    }),
                    forall|k: int| i <= k < MAX_PLAYERS ==> self.voices@[k] == voices0[k],
                decreases MAX_PLAYERS - i,
            {
                let v = self.voices[i];
                if was_dividing {
                    moves[i] = Move { cancel: v, note_off: v, note_on: None, voice: None };
                    self.voices[i] = None;
                } else {
                    moves[i] = Move { cancel: None, note_off: None, note_on: None, voice: v };
                }
                i = i + 1;
            }
            self.dividing = false;
            Some(Flush { notes, whole: true, target: [None; MAX_PLAYERS], moves })
        }
    }

    /// The notes waiting, taken out.
    fn take_pending(&mut self) -> (p: Pending)
        ensures
            p@ == old(self).pending@,
            final(self).pending@ == Seq::<(u8, u32)>::empty(),
            final(self).chord@ == old(self).chord@,
            final(self).dividing == old(self).dividing,
            final(self).voices == old(self).voices,
    {
        let mut p = Pending::new();
        std::mem::swap(&mut p, &mut self.pending);
        p
    }

    /// A key let go (after the notes that came with it are divided): the
    /// note leaves the chord, and while the players are seated only those on
    /// it end it and are left without a note. `None`: nobody is seated, and
    /// every player ends the note.
    pub fn release(&mut self, note: u8) -> (ending: Option<[bool; MAX_PLAYERS]>)
        ensures
            old(self).chord@.contains(note) ==> final(self).chord@ == old(self).chord@.remove(
                first_index(old(self).chord@, note),
            ),
            !old(self).chord@.contains(note) ==> final(self).chord@ == old(self).chord@,
            final(self).pending@ == old(self).pending@,
            final(self).dividing == old(self).dividing,
            !old(self).dividing ==> ending is None && final(self).voices == old(self).voices,
            old(self).dividing ==> (ending matches Some(e) && forall|i: int|
                0 <= i < MAX_PLAYERS ==> e@[i] == (old(self).voices@[i] == Some(note)) && final(self).voices@[i] == (if old(
                    self,
                ).voices@[i] == Some(note) {
                    None::<u8>
                } else {
                    old(self).voices@[i]
                })),
    {
        self.chord.remove(note);
        if !self.dividing {
            return None;
        }
        let ghost voices0 = self.voices@;
        let ghost chord1 = self.chord@;
        let mut ending = [false; MAX_PLAYERS];
        let mut i: usize = 0;
        while i < MAX_PLAYERS
            invariant
                i <= MAX_PLAYERS,
                self.chord@ == chord1,
                self.pending@ == old(self).pending@,
                self.dividing == old(self).dividing,
                forall|k: int| i <= k < MAX_PLAYERS ==> ending@[k] == false,
                forall|k: int| 0 <= k < i ==> ending@[k] == (voices0[k] == Some(note)) && self.voices@[k] == (if voices0[k]
                    == Some(note) {
                    None::<u8>
                } else {
                    voices0[k]
                }),
                forall|k: int| i <= k < MAX_PLAYERS ==> self.voices@[k] == voices0[k],
            decreases MAX_PLAYERS - i,
        {
            if self.voices[i] == Some(note) {
                self.voices[i] = None;
                ending[i] = true;
            }
            i = i + 1;
        }
        Some(ending)
    }
}

/// Adding notes to a chord never takes it past [`MAX_CHORD`], nor below its
/// length.
pub proof fn lemma_chord_with_len(c: Seq<u8>, notes: Seq<u8>)
    requires
        c.len() <= MAX_CHORD,
    ensures
        c.len() <= chord_with(c, notes).len() <= MAX_CHORD,
        c.len() >= 1 || notes.len() >= 1 ==> chord_with(c, notes).len() >= 1,
    decreases notes.len(),
{
    if notes.len() > 0 {
        let next = if c.len() < MAX_CHORD { c.push(notes[0]) } else { c };
        lemma_chord_with_len(next, notes.drop_first());
    }
}

/// A key let go while the players are seated leaves nobody seated on it.
pub proof fn lemma_released_note_has_no_player(
    voices: Seq<Option<u8>>,
    after: Seq<Option<u8>>,
    note: u8,
)
    requires
        voices.len() == MAX_PLAYERS,
        after.len() == MAX_PLAYERS,
        forall|i: int|
            0 <= i < MAX_PLAYERS ==> after[i] == (if voices[i] == Some(note) {
                None::<u8>
            } else {
                voices[i]
            }),
    ensures
        forall|i: int| 0 <= i < MAX_PLAYERS ==> after[i] != Some(note),
{
}

} // verus!

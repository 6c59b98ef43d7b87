//! Instance sync: every instance on this computer with the same stage name
//! sees the others' sections and shares one room. The stage is a small
//! shared file of words under seqlocks ([`crate::seqlock`]); this module
//! holds what the words say and the rules of the slots: how a section's
//! name, instrument and size pack into its slot, how the room and the time
//! it changed pack, the stage file's name, and when a slot is live or free.

use vstd::prelude::*;
use vstd::utf8::*;
use vstd::string::{StrSliceExecFns, StringSliceAdditionalSpecFns};
use crate::params::InstrumentParam;
use crate::layout::{default_name, default_title};

verus! {

/// Marks a ready stage file; change it (and the file's name) with the layout.
pub const MAGIC: u32 = 0x4c53_5401;
/// Someone is writing the room's defaults into a new file.
pub const INITIALIZING: u32 = 1;
/// Most instances on one stage.
pub const MAX_SLOTS: usize = 32;
/// A section's name, UTF-8, cut to fit.
pub const NAME_BYTES: usize = 32;
/// The words of a slot's info: the name's, then the instrument, the players
/// and whether it is on the stage.
pub const INFO_WORDS: usize = 11;
/// The words of the room: room, absorption, mic distance, mic x,
/// reflections, and when it last changed (two words).
pub const ROOM_WORDS: usize = 7;
/// A section whose heartbeat is older than this (ms) is no longer shown…
pub const STALE: u64 = 2_000;
/// …and after this its slot is freed.
pub const FREE_AFTER: u64 = 5_000;

/// A slot whose owner looked in at `heartbeat` is live at `now` (ms): its
/// section is shown.
pub fn live(heartbeat: u64, now: u64) -> (r: bool)
    ensures
        r == (now <= heartbeat || now - heartbeat <= STALE),
{
    now.saturating_sub(heartbeat) <= STALE
}

/// A slot is free to claim: nobody owns it, or its owner stopped looking in
/// more than [`FREE_AFTER`] ms ago.
pub fn free(owner: u64, heartbeat: u64, now: u64) -> (r: bool)
    ensures
        r == (owner == 0 || (now > heartbeat && now - heartbeat > FREE_AFTER)),
{
    owner == 0 || now.saturating_sub(heartbeat) > FREE_AFTER
}

/// A slot that is free for being forgotten is no longer live: a section is
/// hidden before its slot can go to another instance.
pub proof fn lemma_freed_is_stale(owner: u64, heartbeat: u64, now: u64)
    requires
        owner != 0,
        now > heartbeat && now - heartbeat > FREE_AFTER,
    ensures
        !(now <= heartbeat || now - heartbeat <= STALE),
{
}

/// Another instance's section is shown: it owns the slot, it isn't this
/// instance, and it is live.
pub fn shown(owner: u64, except: u64, heartbeat: u64, now: u64) -> (r: bool)
    ensures
        r == (owner != 0 && owner != except && (now <= heartbeat || now - heartbeat <= STALE)),
{
    owner != 0 && owner != except && live(heartbeat, now)
}

/// A stage that failed to open is tried again after two seconds, or at once
/// for another stage.
pub fn retry(failed_at: Option<u64>, now: u64, same_stage: bool) -> (r: bool)
    ensures
        r == (match failed_at {
            None => true,
            Some(t) => (now > t && now - t > 2_000) || !same_stage,
        }),
{
    match failed_at {
        None => true,
        Some(t) => now.saturating_sub(t) > 2_000 || !same_stage,
    }
}

/// When this instance's room changes (or it joins the stage) the newer of
/// its room and the stage's wins; an instance alone on the stage gives the
/// stage its room, since the stage's is left over from instances gone.
/// `true`: the stage takes this instance's room; `false`: this instance
/// takes the stage's.
pub fn publish_room(joining: bool, others: usize, ours: u64, stage: u64) -> (r: bool)
    ensures
        r == ((joining && others == 0) || ours > stage),
{
    (joining && others == 0) || ours > stage
}

/// What a member does with a value that it shares with the stage (its
/// placement, or the room), from the edits it has seen and the version the
/// stage holds.
pub enum Follow {
    /// This instance's value was edited since it last looked, or it never
    /// looked: publish it (the room: settle it with [`publish_room`]).
    Edited,
    /// Another instance wrote the stage's value: take it over.
    Moved,
    /// Nothing changed.
    Same,
}

/// Compares the edit count seen last (`None` before the first look) with
/// the current one, and the version seen last with the stage's.
pub fn follow(seen_edits: Option<u32>, edits: u32, seen_version: u32, version: u32) -> (f: Follow)
    ensures
        seen_edits != Some(edits) ==> f is Edited,
        seen_edits == Some(edits) && version != seen_version ==> f is Moved,
        seen_edits == Some(edits) && version == seen_version ==> f is Same,
{
    match seen_edits {
        Some(e) if e == edits => {
            if version != seen_version {
                Follow::Moved
            } else {
                Follow::Same
            }
        },
        _ => Follow::Edited,
    }
}

/// How often (ms) a member frees the slots of instances gone.
pub const SWEEP_EVERY: u64 = 1_000;

/// A member that last swept at `swept_at` sweeps again at `now`.
pub fn sweep_due(now: u64, swept_at: u64) -> (r: bool)
    ensures
        r == (now > swept_at && now - swept_at > SWEEP_EVERY),
{
    now.saturating_sub(swept_at) > SWEEP_EVERY
}

/// The time a room changed, as its two words (low first).
pub fn split_time(t: u64) -> (w: (u32, u32))
    ensures
        w.0 == t % 0x1_0000_0000,
        w.1 == t / 0x1_0000_0000,
{
    let lo = (t % 0x1_0000_0000) as u32;
    let hi = (t / 0x1_0000_0000) as u32;
    (lo, hi)
}

/// The time a room changed, from its two words (low first).
pub fn join_time(lo: u32, hi: u32) -> (t: u64)
    ensures
        t == hi * 0x1_0000_0000 + lo,
{
    assert(hi * 0x1_0000_0000 + lo <= u64::MAX) by (nonlinear_arith)
        requires
            hi <= u32::MAX,
            lo <= u32::MAX,
    ;
    (hi as u64) * 0x1_0000_0000 + (lo as u64)
}

/// A time split into its words and joined again is the same time.
pub proof fn lemma_time_round_trip(t: u64)
    ensures
        (t / 0x1_0000_0000) * 0x1_0000_0000 + t % 0x1_0000_0000 == t,
{
}

/// The words of the room: its number, the absorption's, the bits of the mic
/// distance, the mic's place across and the reflections, and the two words
/// of the time it changed.
pub fn room_words(room: u32, absorption: u32, distance: u32, mic_x: u32, reflections: u32, changed: u64) -> (w: [u32; ROOM_WORDS])
    ensures
        w@ == seq![
            room,
            absorption,
            distance,
            mic_x,
            reflections,
            (changed % 0x1_0000_0000) as u32,
            (changed / 0x1_0000_0000) as u32,
        ],
{
    let (lo, hi) = split_time(changed);
    let w = [room, absorption, distance, mic_x, reflections, lo, hi];
    assert(w@ =~= seq![
        room,
        absorption,
        distance,
        mic_x,
        reflections,
        (changed % 0x1_0000_0000) as u32,
        (changed / 0x1_0000_0000) as u32,
    ]);
    w
}

/// When the room in `w` last changed.
pub fn room_changed(w: &[u32; ROOM_WORDS]) -> (t: u64)
    ensures
        t == w@[6] * 0x1_0000_0000 + w@[5],
{
    join_time(w[5], w[6])
}

/// The room read back from its words changed when it was written.
pub proof fn lemma_room_words_round_trip(changed: u64, w: Seq<u32>)
    requires
        w.len() == ROOM_WORDS,
        w[5] == (changed % 0x1_0000_0000) as u32,
        w[6] == (changed / 0x1_0000_0000) as u32,
    ensures
        w[6] * 0x1_0000_0000 + w[5] == changed,
{
}

/// What an instance shows the others about itself.
#[derive(Clone, Debug)]
pub struct Info {
    pub name: String,
    pub instrument: InstrumentParam,
    pub players: u32,
    /// On the stage (otherwise it plays dry).
    pub staged: bool,
}

/// Four bytes as a little-endian word.
pub open spec fn pack(b0: u8, b1: u8, b2: u8, b3: u8) -> u32 {
    (b0 as u32) | ((b1 as u32) << 8u32) | ((b2 as u32) << 16u32) | ((b3 as u32) << 24u32)
}

/// Byte `j` (0 to 3, least significant first) of a word.
pub open spec fn byte_of(w: u32, j: int) -> u8 {
    ((w >> ((8 * j) as u32)) & 0xffu32) as u8
}

/// Byte `i` of the name's part of a slot: the words' bytes in order.
pub open spec fn word_byte(words: Seq<u32>, i: int) -> u8 {
    byte_of(words[i / 4], i % 4)
}

/// The longest cut of valid UTF-8 `bytes` no longer than `limit` that ends
/// at a character boundary.
pub open spec fn cut_end(bytes: Seq<u8>, limit: int) -> int
    decreases limit,
{
    if limit <= 0 {
        0
    } else if is_char_boundary(bytes, limit) {
        limit
    } else {
        cut_end(bytes, limit - 1)
    }
}

/// How much of a name's UTF-8 fits its slot: at most [`NAME_BYTES`], cut at a
/// character boundary.
pub open spec fn name_fit(name: Seq<char>) -> int {
    let b = encode_utf8(name);
    cut_end(b, if b.len() < NAME_BYTES { b.len() as int } else { NAME_BYTES as int })
}

/// The [`NAME_BYTES`] bytes a name takes in its slot: as much of its UTF-8
/// as fits, then zeros.
pub open spec fn name_slot(name: Seq<char>) -> Seq<u8> {
    Seq::new(
        NAME_BYTES as nat,
        |i: int|
            if i < name_fit(name) {
                encode_utf8(name)[i]
            } else {
                0u8
            },
    )
}

/// The words of a slot's info.
pub open spec fn info_words(name: Seq<char>, instrument: InstrumentParam, players: u32, staged: bool) -> Seq<u32> {
    Seq::new(
        INFO_WORDS as nat,
        |k: int|
            if k < 8 {
                pack(name_slot(name)[4 * k], name_slot(name)[4 * k + 1], name_slot(name)[4 * k + 2], name_slot(name)[4 * k + 3])
            } else if k == 8 {
                instrument.place() as u32
            } else if k == 9 {
                players
            } else if staged {
                1u32
            } else {
                0u32
            },
    )
}

/// Where the name in a slot's words ends: at its first zero byte, or after
/// all [`NAME_BYTES`].
pub open spec fn name_end(words: Seq<u32>, i: int) -> int
    decreases NAME_BYTES - i,
{
    if i >= NAME_BYTES {
        NAME_BYTES as int
    } else if word_byte(words, i) == 0 {
        i
    } else {
        name_end(words, i + 1)
    }
}

/// The name's bytes in a slot's words.
pub open spec fn name_bytes(words: Seq<u32>) -> Seq<u8> {
    Seq::new(name_end(words, 0) as nat, |i: int| word_byte(words, i))
}

/// What `String::from_utf8_lossy` makes of `bytes`.
pub uninterp spec fn utf8_lossy(bytes: Seq<u8>) -> Seq<char>;

/// Text from bytes, each invalid sequence replaced by U+FFFD.
///
/// Trusted: calls `String::from_utf8_lossy` (and `into_owned`). The contract
/// names its result, a function of the bytes alone, and states what its
/// documentation gives: valid UTF-8 comes back decoded as it is.
#[verifier::external_body]
fn lossy_text(bytes: &[u8]) -> (s: String)
    ensures
        s@ == utf8_lossy(bytes@),
        valid_utf8(bytes@) ==> s@ == decode_utf8(bytes@),
{
    String::from_utf8_lossy(bytes).into_owned()
}

/// Four bytes packed and read back one by one.
pub proof fn lemma_pack_bytes(b0: u8, b1: u8, b2: u8, b3: u8)
    ensures
        byte_of(pack(b0, b1, b2, b3), 0) == b0,
        byte_of(pack(b0, b1, b2, b3), 1) == b1,
        byte_of(pack(b0, b1, b2, b3), 2) == b2,
        byte_of(pack(b0, b1, b2, b3), 3) == b3,
{
    let w = pack(b0, b1, b2, b3);
    assert(((w >> 0u32) & 0xffu32) as u8 == b0 && ((w >> 8u32) & 0xffu32) as u8 == b1
        && ((w >> 16u32) & 0xffu32) as u8 == b2 && ((w >> 24u32) & 0xffu32) as u8 == b3) by (bit_vector)
        requires
            w == (b0 as u32) | ((b1 as u32) << 8u32) | ((b2 as u32) << 16u32) | ((b3 as u32) << 24u32),
    ;
}

impl Info {
    /// What an instance shows of itself: at least one player, and, for an
    /// empty name, the name its instrument and players give.
    pub fn shown(name: String, instrument: InstrumentParam, players: u32, staged: bool) -> (i: Info)
        ensures
            i.players == if players < 1 { 1 } else { players },
            i.name@ == (if name@.len() == 0 { default_title(instrument, i.players) } else { name@ }),
            i.instrument == instrument,
            i.staged == staged,
    {
        let players = if players < 1 { 1 } else { players };
        let name = if name.unicode_len() == 0 { default_name(instrument, players) } else { name };
        Info { name, instrument, players, staged }
    }

    /// The words of this info in a slot: the name's UTF-8, cut at a character
    /// boundary to fit [`NAME_BYTES`] and padded with zeros, packed
    /// little-endian; then the instrument's index, the players, and 1 if on
    /// the stage.
    pub fn words(&self) -> (w: [u32; INFO_WORDS])
        ensures
            w@ == info_words(self.name@, self.instrument, self.players, self.staged),
    {
        broadcast use encode_utf8_valid_utf8, is_char_boundary_start_end_of_seq;

        let text = self.name.as_str();
        let bytes = text.as_bytes();
        let ghost b = encode_utf8(self.name@);
        assert(bytes@ == b);
        let limit: usize = if bytes.len() < NAME_BYTES { bytes.len() } else { NAME_BYTES };
        let mut end = limit;
        assert(is_char_boundary(b, 0));
        while !text.is_char_boundary(end)
            invariant
                end <= limit,
                limit <= bytes@.len(),
                bytes@ == b,
                b == encode_utf8(self.name@),
                text@ == self.name@,
                is_char_boundary(b, 0),
                cut_end(b, limit as int) == cut_end(b, end as int),
            decreases end,
        {
            assert(text.spec_bytes() == b);
            assert(!is_char_boundary(b, end as int));
            assert(end > 0);
            end = end - 1;
        }
        assert(end as int == name_fit(self.name@));
        let mut w = [0u32; INFO_WORDS];
        let mut k: usize = 0;
        while k < 8
            invariant
                k <= 8,
                end as int == name_fit(self.name@),
                end <= NAME_BYTES,
                end <= bytes@.len(),
                bytes@ == b,
                b == encode_utf8(self.name@),
                forall|kk: int| 0 <= kk < k ==> w@[kk] == info_words(self.name@, self.instrument, self.players, self.staged)[kk],
            decreases 8 - k,
        {
            let mut four = [0u8; 4];
            let mut j: usize = 0;
            while j < 4
                invariant
                    j <= 4,
                    k < 8,
                    end as int == name_fit(self.name@),
                    end <= bytes@.len(),
                    bytes@ == b,
                    b == encode_utf8(self.name@),
                    forall|jj: int| 0 <= jj < j ==> four@[jj] == name_slot(self.name@)[4 * k + jj],
                decreases 4 - j,
            {
                let i = 4 * k + j;
                four[j] = if i < end { bytes[i] } else { 0 };
                j = j + 1;
            }
            w[k] = (four[0] as u32) | ((four[1] as u32) << 8u32) | ((four[2] as u32) << 16u32) | ((four[3] as u32) << 24u32);
            k = k + 1;
        }
        w[8] = self.instrument.index() as u32;
        w[9] = self.players;
        w[10] = if self.staged { 1 } else { 0 };
        assert(w@ =~= info_words(self.name@, self.instrument, self.players, self.staged));
        w
    }

    /// The info a slot's words hold: the name up to its first zero byte
    /// (invalid UTF-8 replaced), the instrument (counting round), the players,
    /// and whether it is on the stage.
    pub fn from_words(words: &[u32; INFO_WORDS]) -> (info: Info)
        ensures
            info.name@ == utf8_lossy(name_bytes(words@)),
            valid_utf8(name_bytes(words@)) ==> info.name@ == decode_utf8(name_bytes(words@)),
            info.instrument == InstrumentParam::ALL[(words@[8] % 4) as int],
            info.players == words@[9],
            info.staged == (words@[10] != 0),
    {
        let mut bytes: Vec<u8> = Vec::new();
        let mut i: usize = 0;
        while i < NAME_BYTES
            invariant
                i <= NAME_BYTES,
                bytes@.len() == i,
                forall|t: int| 0 <= t < i ==> bytes@[t] == word_byte(words@, t) && word_byte(words@, t) != 0,
            ensures
                i <= NAME_BYTES,
                bytes@.len() == i,
                forall|t: int| 0 <= t < i ==> bytes@[t] == word_byte(words@, t) && word_byte(words@, t) != 0,
                i < NAME_BYTES ==> word_byte(words@, i as int) == 0,
            decreases NAME_BYTES - i,
        {
            let shift: u32 = 8 * (i % 4) as u32;
            let byte = ((words[i / 4] >> shift) & 0xff) as u8;
            if byte == 0 {
                break;
            }
            bytes.push(byte);
            i = i + 1;
        }
        proof {
            assert forall|t: int| 0 <= t <= i implies name_end(words@, t) == name_end(words@, i as int) by {
                lemma_name_end(words@, t, i as int);
            }
            assert(bytes@ =~= name_bytes(words@));
        }
        Info {
            name: lossy_text(bytes.as_slice()),
            instrument: InstrumentParam::at((words[8] % 4) as usize),
            players: words[9],
            staged: words[10] != 0,
        }
    }
}

/// The name's end seen from an earlier byte, when the bytes between hold no
/// zero.
proof fn lemma_name_end(words: Seq<u32>, t: int, i: int)
    requires
        0 <= t <= i <= NAME_BYTES,
        forall|u: int| t <= u < i ==> word_byte(words, u) != 0,
    ensures
        name_end(words, t) == name_end(words, i),
    decreases i - t,
{
    if t < i {
        lemma_name_end(words, t + 1, i);
    }
}

/// The cut ends at a character boundary, within the limit.
proof fn lemma_cut_end(bytes: Seq<u8>, limit: int)
    requires
        valid_utf8(bytes),
        0 <= limit,
    ensures
        0 <= cut_end(bytes, limit) <= limit,
        is_char_boundary(bytes, cut_end(bytes, limit)),
    decreases limit,
{
    broadcast use is_char_boundary_start_end_of_seq;

    if limit > 0 && !is_char_boundary(bytes, limit) {
        lemma_cut_end(bytes, limit - 1);
    }
}

/// No byte of a scalar's UTF-8 is zero, but the zero scalar's.
proof fn lemma_scalar_bytes_nonzero(s: u32)
    requires
        s != 0,
        is_scalar(s),
    ensures
        forall|j: int| 0 <= j < encode_scalar(s).len() ==> encode_scalar(s)[j] != 0,
{
    let e = encode_scalar(s);
    if has_width_1_encoding(s) {
        assert((s & 0x7F) as u8 != 0) by (bit_vector)
            requires
                s != 0,
                s <= 0x7F,
        ;
    } else {
        assert(0xC0u8 | ((s >> 6) & 0x1F) as u8 != 0) by (bit_vector);
        assert(0xE0u8 | ((s >> 12) & 0x0F) as u8 != 0) by (bit_vector);
        assert(0xF0u8 | ((s >> 18) & 0x7) as u8 != 0) by (bit_vector);
        assert(0x80u8 | (s & 0x3F) as u8 != 0) by (bit_vector);
        assert(0x80u8 | ((s >> 6) & 0x3F) as u8 != 0) by (bit_vector);
        assert(0x80u8 | ((s >> 12) & 0x3F) as u8 != 0) by (bit_vector);
    }
}

/// Text with no NUL character has no zero byte in its UTF-8.
proof fn lemma_no_zero_byte(chars: Seq<char>)
    requires
        !chars.contains('\0'),
    ensures
        forall|j: int| 0 <= j < encode_utf8(chars).len() ==> encode_utf8(chars)[j] != 0,
    decreases chars.len(),
{
    broadcast use char_is_scalar;

    if chars.len() > 0 {
        let rest = chars.drop_first();
        assert(!rest.contains('\0')) by {
            if rest.contains('\0') {
                let w = choose|w: int| 0 <= w < rest.len() && rest[w] == '\0';
                assert(chars[w + 1] == '\0');
            }
        }
        lemma_no_zero_byte(rest);
        assert(chars[0] != '\0');
        char_is_scalar(chars[0]);
        char_u32_cast(chars[0], chars[0] as u32);
        char_u32_cast('\0', '\0' as u32);
        assert(('\0' as u32) == 0);
        assert((chars[0] as u32) != 0);
        lemma_scalar_bytes_nonzero(chars[0] as u32);
        let head = encode_scalar(chars[0] as u32);
        assert(encode_utf8(chars) == head + encode_utf8(rest));
        assert forall|j: int| 0 <= j < encode_utf8(chars).len() implies encode_utf8(chars)[j] != 0 by {
            if j >= head.len() {
                assert(encode_utf8(chars)[j] == encode_utf8(rest)[j - head.len()]);
            }
        }
    }
}

/// Where the name in a slot's words ends, when the bytes before `z` hold no
/// zero and byte `z` is zero (or `z` is the end).
proof fn lemma_name_end_at(words: Seq<u32>, z: int)
    requires
        0 <= z <= NAME_BYTES,
        forall|u: int| 0 <= u < z ==> word_byte(words, u) != 0,
        z < NAME_BYTES ==> word_byte(words, z) == 0,
    ensures
        name_end(words, 0) == z,
{
    lemma_name_end(words, 0, z);
}

/// A section's info written into its slot and read back: the same
/// instrument, players and staging, and a name that is the start of its own
/// name, cut at a character boundary to at most [`NAME_BYTES`] bytes of
/// UTF-8; the whole name when it fits and holds no NUL (which ends a name in
/// a slot).
#[verifier::spinoff_prover]
pub proof fn lemma_info_round_trip(name: Seq<char>, instrument: InstrumentParam, players: u32, staged: bool)
    ensures
        ({
            let w = info_words(name, instrument, players, staged);
            &&& InstrumentParam::ALL[(w[8] % 4) as int] == instrument
            &&& w[9] == players
            &&& (w[10] != 0) == staged
            &&& valid_utf8(name_bytes(w))
            &&& name_bytes(w).len() <= NAME_BYTES
            &&& decode_utf8(name_bytes(w)).len() <= name.len()
            &&& decode_utf8(name_bytes(w)) == name.take(decode_utf8(name_bytes(w)).len() as int)
            &&& (encode_utf8(name).len() <= NAME_BYTES && !name.contains('\0')) ==> decode_utf8(name_bytes(w)) == name
        }),
{
    broadcast use encode_utf8_valid_utf8, encode_utf8_decode_utf8, is_char_boundary_start_end_of_seq;

    let w = info_words(name, instrument, players, staged);
    let b = encode_utf8(name);
    let slot = name_slot(name);
    let limit = if b.len() < NAME_BYTES { b.len() as int } else { NAME_BYTES as int };
    let e = name_fit(name);
    lemma_cut_end(b, limit);
    // The slot's bytes come back out of the words.
    assert forall|i: int| 0 <= i < NAME_BYTES implies word_byte(w, i) == slot[i] by {
        let k = i / 4;
        lemma_pack_bytes(slot[4 * k], slot[4 * k + 1], slot[4 * k + 2], slot[4 * k + 3]);
        assert(w[k] == pack(slot[4 * k], slot[4 * k + 1], slot[4 * k + 2], slot[4 * k + 3]));
    }
    // The name ends at its first zero byte, at most at the cut.
    let z = if exists|u: int| 0 <= u < e && b[u] == 0 {
        choose|u: int| 0 <= u < e && b[u] == 0 && forall|v: int| 0 <= v < u ==> b[v] != 0
    } else {
        e
    };
    assert(exists|u: int| 0 <= u < e && b[u] == 0 ==> (0 <= z < e && b[z] == 0 && forall|v: int| 0 <= v < z ==> b[v] != 0)) by {
        if exists|u: int| 0 <= u < e && b[u] == 0 {
            lemma_first_zero(b, e);
        }
    }
    assert(forall|u: int| 0 <= u < z ==> b[u] != 0);
    assert(0 <= z <= e);
    lemma_name_end_at(w, z);
    assert(name_bytes(w) =~= b.subrange(0, z));
    // It ends at a character boundary.
    assert(is_char_boundary(b, z)) by {
        if z < e {
            broadcast use is_char_boundary_iff_is_leading_byte;
            assert(is_leading_byte_width_1(b[z]));
        }
    }
    valid_utf8_split(b, z);
    decode_utf8_split(b, z);
    let d = decode_utf8(b.subrange(0, z));
    assert(name == d + decode_utf8(b.subrange(z, b.len() as int)));
    assert(d == name.take(d.len() as int));
    if b.len() <= NAME_BYTES && !name.contains('\0') {
        lemma_no_zero_byte(name);
        assert(e == b.len());
        assert(z == e);
        assert(b.subrange(0, z) =~= b);
    }
}

/// The first zero byte before `end`, when there is one.
proof fn lemma_first_zero(b: Seq<u8>, end: int)
    requires
        exists|u: int| 0 <= u < end && b[u] == 0,
    ensures
        exists|u: int| 0 <= u < end && b[u] == 0 && forall|v: int| 0 <= v < u ==> b[v] != 0,
    decreases end,
{
    let u0 = choose|u: int| 0 <= u < end && b[u] == 0;
    if exists|u: int| 0 <= u < u0 && b[u] == 0 {
        lemma_first_zero(b, u0);
    } else {
        assert(0 <= u0 < end && b[u0] == 0 && forall|v: int| 0 <= v < u0 ==> b[v] != 0);
    }
}

/// A whitespace character: Unicode's White_Space property, the characters
/// that `char::is_whitespace` accepts.
pub open spec fn white_space(c: char) -> bool {
    ('\u{9}' <= c <= '\u{d}') || c == ' ' || c == '\u{85}' || c == '\u{a0}' || c == '\u{1680}'
        || ('\u{2000}' <= c <= '\u{200a}') || c == '\u{2028}' || c == '\u{2029}' || c == '\u{202f}'
        || c == '\u{205f}' || c == '\u{3000}'
}

/// The text without its leading whitespace.
pub open spec fn trim_start(s: Seq<char>) -> Seq<char>
    decreases s.len(),
{
    if s.len() > 0 && white_space(s[0]) {
        trim_start(s.drop_first())
    } else {
        s
    }
}

/// The text without its trailing whitespace.
pub open spec fn trim_end(s: Seq<char>) -> Seq<char>
    decreases s.len(),
{
    if s.len() > 0 && white_space(s.last()) {
        trim_end(s.drop_last())
    } else {
        s
    }
}

/// The text without its leading and trailing whitespace.
pub open spec fn trim_text(s: Seq<char>) -> Seq<char> {
    trim_end(trim_start(s))
}

fn is_white(c: char) -> (r: bool)
    ensures
        r == white_space(c),
{
    ('\u{9}' <= c && c <= '\u{d}') || c == ' ' || c == '\u{85}' || c == '\u{a0}' || c == '\u{1680}'
        || ('\u{2000}' <= c && c <= '\u{200a}') || c == '\u{2028}' || c == '\u{2029}' || c == '\u{202f}'
        || c == '\u{205f}' || c == '\u{3000}'
}

/// The text without its leading and trailing whitespace, as `str::trim`
/// gives it.
fn trimmed(s: &str) -> (t: &str)
    ensures
        t@ == trim_text(s@),
{
    let n = s.unicode_len();
    let mut lo: usize = 0;
    assert(s@.subrange(0, n as int) =~= s@);
    while lo < n && is_white(s.get_char(lo))
        invariant
            lo <= n,
            n == s@.len(),
            trim_start(s@) == trim_start(s@.subrange(lo as int, n as int)),
        decreases n - lo,
    {
        let ghost x = s@.subrange(lo as int, n as int);
        assert(x.drop_first() =~= s@.subrange(lo + 1, n as int));
        lo = lo + 1;
    }
    proof {
        let x = s@.subrange(lo as int, n as int);
        assert(trim_start(x) == x);
    }
    let mut hi: usize = n;
    while hi > lo && is_white(s.get_char(hi - 1))
        invariant
            lo <= hi <= n,
            n == s@.len(),
            trim_text(s@) == trim_end(s@.subrange(lo as int, hi as int)),
        decreases hi,
    {
        let ghost x = s@.subrange(lo as int, hi as int);
        assert(x.last() == s@[hi - 1]);
        assert(x.drop_last() =~= s@.subrange(lo as int, hi - 1));
        hi = hi - 1;
    }
    proof {
        let x = s@.subrange(lo as int, hi as int);
        if hi > lo {
            assert(x.last() == s@[hi - 1]);
        }
        assert(trim_end(x) == x);
    }
    s.substring_char(lo, hi)
}

/// A string of these characters.
///
/// Trusted: collects the characters with `String::from_iter`, which keeps
/// them as they are, in order.
#[verifier::external_body]
fn text_of(chars: &Vec<char>) -> (s: String)
    ensures
        s@ == chars@,
{
    chars.iter().collect()
}

/// An ASCII letter or digit.
pub open spec fn ascii_alnum(c: char) -> bool {
    ('0' <= c <= '9') || ('a' <= c <= 'z') || ('A' <= c <= 'Z')
}

/// An ASCII capital made small; any other character as it is.
pub open spec fn ascii_lower(c: char) -> char {
    if 'A' <= c <= 'Z' {
        (((c as u8) + 32) as u8) as char
    } else {
        c
    }
}

/// A character of a stage file's name: ASCII letters (small), digits and `-`
/// as they are, `_` for anything else.
pub open spec fn stage_char(c: char) -> char {
    if ascii_alnum(c) || c == '-' {
        ascii_lower(c)
    } else {
        '_'
    }
}

/// The stage's part of its file's name: at most 40 characters of the
/// trimmed name, each made a [`stage_char`]; "main" for an empty name.
pub open spec fn stage_key(stage: Seq<char>) -> Seq<char> {
    let t = trim_text(stage);
    let cut = if t.len() < 40 {
        t
    } else {
        t.take(40)
    };
    let m = cut.map_values(|c: char| stage_char(c));
    if m.len() == 0 {
        "main"@
    } else {
        m
    }
}

/// The stage file's name.
pub open spec fn stage_file(stage: Seq<char>) -> Seq<char> {
    "librestrings-stage-"@ + stage_key(stage) + ".v1"@
}

fn file_char(c: char) -> (r: char)
    ensures
        r == stage_char(c),
{
    if ('0' <= c && c <= '9') || ('a' <= c && c <= 'z') || c == '-' {
        c
    } else if 'A' <= c && c <= 'Z' {
        (((c as u8) + 32) as u8) as char
    } else {
        '_'
    }
}

/// The stage's file name: only letters, digits, `-` and `_`, lowercase, so
/// "Main" and "main" are one stage.
pub fn file_name(stage: &str) -> (name: String)
    ensures
        name@ == stage_file(stage@),
{
    let t = trimmed(stage);
    let n = t.unicode_len();
    let take: usize = if n < 40 { n } else { 40 };
    let mut chars: Vec<char> = Vec::new();
    let mut i: usize = 0;
    while i < take
        invariant
            i <= take,
            take <= n,
            n == t@.len(),
            chars@.len() == i,
            forall|k: int| 0 <= k < i ==> chars@[k] == stage_char(t@[k]),
        decreases take - i,
    {
        let c = t.get_char(i);
        chars.push(file_char(c));
        i = i + 1;
    }
    let ghost cut = if t@.len() < 40 { t@ } else { t@.take(40) };
    assert(chars@ =~= cut.map_values(|c: char| stage_char(c)));
    let key = if chars.len() == 0 {
        String::from_str("main")
    } else {
        text_of(&chars)
    };
    let name = String::from_str("librestrings-stage-").concat(key.as_str()).concat(".v1");
    name
}

/// Two texts the same but for the case of ASCII letters.
pub open spec fn same_but_case(a: Seq<char>, b: Seq<char>) -> bool {
    a.len() == b.len() && forall|i: int| 0 <= i < a.len() ==> ascii_lower(a[i]) == ascii_lower(b[i])
}

/// Stage names that differ only in the case of their letters, once trimmed,
/// name one stage file ("Main" and "main" are one stage).
pub proof fn lemma_stage_case_blind(s1: Seq<char>, s2: Seq<char>)
    requires
        same_but_case(trim_text(s1), trim_text(s2)),
    ensures
        stage_file(s1) == stage_file(s2),
{
    let t1 = trim_text(s1);
    let t2 = trim_text(s2);
    let c1 = if t1.len() < 40 { t1 } else { t1.take(40) };
    let c2 = if t2.len() < 40 { t2 } else { t2.take(40) };
    assert forall|i: int| 0 <= i < c1.len() implies stage_char(c1[i]) == stage_char(c2[i]) by {
        let a = c1[i];
        let b = c2[i];
        assert(ascii_lower(a) == ascii_lower(b));
        lemma_stage_char_case(a);
        lemma_stage_char_case(b);
    }
    assert(c1.map_values(|c: char| stage_char(c)) =~= c2.map_values(|c: char| stage_char(c)));
}

/// A stage file's name holds only small ASCII letters, digits, `-` and `_`
/// between its prefix and suffix.
pub proof fn lemma_stage_key_chars(stage: Seq<char>)
    ensures
        forall|i: int|
            0 <= i < stage_key(stage).len() ==> {
                let c = #[trigger] stage_key(stage)[i];
                ('a' <= c <= 'z') || ('0' <= c <= '9') || c == '-' || c == '_'
            },
{
    reveal_strlit("main");
    let t = trim_text(stage);
    let cut = if t.len() < 40 { t } else { t.take(40) };
    assert forall|i: int| 0 <= i < cut.len() implies {
        let c = stage_char(#[trigger] cut[i]);
        ('a' <= c <= 'z') || ('0' <= c <= '9') || c == '-' || c == '_'
    } by {
        let x = cut[i];
        if 'A' <= x <= 'Z' {
            assert((x as u8) as u32 == x as u32);
            assert(ascii_lower(x) as u32 == (x as u32) + 32);
        }
    }
}

/// A stage file's character doesn't depend on the case of a letter.
proof fn lemma_stage_char_case(c: char)
    ensures
        stage_char(c) == stage_char(ascii_lower(c)),
{
    if 'A' <= c <= 'Z' {
        let u = c as u32;
        assert(65 <= u <= 90);
        assert((c as u8) as u32 == u);
        let l = ascii_lower(c);
        assert(l as u32 == u + 32);
    }
}

} // verus!

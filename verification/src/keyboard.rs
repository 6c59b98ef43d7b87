//! The keyboard: note names, the black keys, the notes the computer keyboard
//! maps, and the keyswitches that set the bow lift.

use vstd::prelude::*;
use crate::params::BowLiftParam;

verus! {

/// The name of pitch class `pc` (0 is C), with sharps.
pub open spec fn pitch_name(pc: int) -> Seq<char> {
    if pc == 0 {
        "C"@
    } else if pc == 1 {
        "C\u{266F}"@
    } else if pc == 2 {
        "D"@
    } else if pc == 3 {
        "D\u{266F}"@
    } else if pc == 4 {
        "E"@
    } else if pc == 5 {
        "F"@
    } else if pc == 6 {
        "F\u{266F}"@
    } else if pc == 7 {
        "G"@
    } else if pc == 8 {
        "G\u{266F}"@
    } else if pc == 9 {
        "A"@
    } else if pc == 10 {
        "A\u{266F}"@
    } else {
        "B"@
    }
}

/// The twelve pitch classes have twelve names: no two share one. The white
/// keys are named by one letter each, C D E F G A B in order up from C, and
/// a black key is the white key below it sharpened.
pub proof fn lemma_pitch_names()
    ensures
        forall|a: int, b: int| 0 <= a < b < 12 ==> #[trigger] pitch_name(a) != #[trigger] pitch_name(b),
        forall|pc: int|
            0 <= pc < 12 && (pc == 1 || pc == 3 || pc == 6 || pc == 8 || pc == 10) ==> #[trigger] pitch_name(pc)
                == pitch_name(pc - 1) + "\u{266F}"@,
        forall|pc: int|
            0 <= pc < 12 && !(pc == 1 || pc == 3 || pc == 6 || pc == 8 || pc == 10) ==> #[trigger] pitch_name(pc).len()
                == 1,
        pitch_name(0) + pitch_name(2) + pitch_name(4) + pitch_name(5) + pitch_name(7) + pitch_name(9) + pitch_name(11)
            == "CDEFGAB"@,
{
    reveal_strlit("C");
    reveal_strlit("C\u{266F}");
    reveal_strlit("D");
    reveal_strlit("D\u{266F}");
    reveal_strlit("E");
    reveal_strlit("F");
    reveal_strlit("F\u{266F}");
    reveal_strlit("G");
    reveal_strlit("G\u{266F}");
    reveal_strlit("A");
    reveal_strlit("A\u{266F}");
    reveal_strlit("B");
    reveal_strlit("\u{266F}");
    reveal_strlit("CDEFGAB");
    assert forall|a: int, b: int| 0 <= a < b < 12 implies #[trigger] pitch_name(a) != #[trigger] pitch_name(b) by {
        assert(pitch_name(a).len() != pitch_name(b).len() || pitch_name(a)[0] != pitch_name(b)[0]);
    }
    assert forall|pc: int|
        0 <= pc < 12 && (pc == 1 || pc == 3 || pc == 6 || pc == 8 || pc == 10) implies #[trigger] pitch_name(pc)
            == pitch_name(pc - 1) + "\u{266F}"@ by {
        assert(pitch_name(pc) =~= pitch_name(pc - 1) + "\u{266F}"@);
    }
    assert(pitch_name(0) + pitch_name(2) + pitch_name(4) + pitch_name(5) + pitch_name(7) + pitch_name(9) + pitch_name(11)
        =~= "CDEFGAB"@);
}

/// The decimal digit `d`.
pub open spec fn digit(d: int) -> Seq<char> {
    if d == 0 {
        "0"@
    } else if d == 1 {
        "1"@
    } else if d == 2 {
        "2"@
    } else if d == 3 {
        "3"@
    } else if d == 4 {
        "4"@
    } else if d == 5 {
        "5"@
    } else if d == 6 {
        "6"@
    } else if d == 7 {
        "7"@
    } else if d == 8 {
        "8"@
    } else {
        "9"@
    }
}

/// The digit `d` is the character `d` places after '0'.
pub proof fn lemma_digits()
    ensures
        forall|d: int| 0 <= d < 10 ==> #[trigger] digit(d) == seq![((48 + d) as u8) as char],
{
    reveal_strlit("0");
    reveal_strlit("1");
    reveal_strlit("2");
    reveal_strlit("3");
    reveal_strlit("4");
    reveal_strlit("5");
    reveal_strlit("6");
    reveal_strlit("7");
    reveal_strlit("8");
    reveal_strlit("9");
    assert forall|d: int| 0 <= d < 10 implies #[trigger] digit(d) == seq![((48 + d) as u8) as char] by {
        assert(digit(d) =~= seq![((48 + d) as u8) as char]);
    }
}

/// An octave number as text: -1 to 20.
pub open spec fn octave_text(octave: int) -> Seq<char> {
    if octave < 0 {
        "-1"@
    } else if octave < 10 {
        digit(octave)
    } else {
        digit(octave / 10) + digit(octave % 10)
    }
}

/// The name of a MIDI note: its pitch class and octave, middle C (60) being
/// C4.
pub open spec fn note_title(note: u8) -> Seq<char> {
    pitch_name((note % 12) as int) + octave_text(note / 12 - 1)
}

fn pitch_str(pc: u8) -> (s: &'static str)
    requires
        pc < 12,
    ensures
        s@ == pitch_name(pc as int),
{
    if pc == 0 {
        "C"
    } else if pc == 1 {
        "C\u{266F}"
    } else if pc == 2 {
        "D"
    } else if pc == 3 {
        "D\u{266F}"
    } else if pc == 4 {
        "E"
    } else if pc == 5 {
        "F"
    } else if pc == 6 {
        "F\u{266F}"
    } else if pc == 7 {
        "G"
    } else if pc == 8 {
        "G\u{266F}"
    } else if pc == 9 {
        "A"
    } else if pc == 10 {
        "A\u{266F}"
    } else {
        "B"
    }
}

fn digit_str(d: u8) -> (s: &'static str)
    requires
        d < 10,
    ensures
        s@ == digit(d as int),
{
    if d == 0 {
        "0"
    } else if d == 1 {
        "1"
    } else if d == 2 {
        "2"
    } else if d == 3 {
        "3"
    } else if d == 4 {
        "4"
    } else if d == 5 {
        "5"
    } else if d == 6 {
        "6"
    } else if d == 7 {
        "7"
    } else if d == 8 {
        "8"
    } else {
        "9"
    }
}

/// The name of a MIDI note, as the keyboard labels it: "C4" is middle C
/// (60), "C\u{266F}-1" is note 1.
pub fn note_name(note: u8) -> (s: String)
    ensures
        s@ == note_title(note),
{
    let name = String::from_str(pitch_str(note % 12));
    let octave = note / 12;
    if octave == 0 {
        name.concat("-1")
    } else if octave <= 10 {
        name.concat(digit_str(octave - 1))
    } else {
        name.concat(digit_str((octave - 1) / 10)).concat(digit_str((octave - 1) % 10))
    }
}

/// A black key: C\u{266F}, D\u{266F}, F\u{266F}, G\u{266F} or A\u{266F}.
pub fn is_black(note: u8) -> (r: bool)
    ensures
        r == (note % 12 == 1 || note % 12 == 3 || note % 12 == 6 || note % 12 == 8 || note % 12 == 10),
{
    let pc = note % 12;
    pc == 1 || pc == 3 || pc == 6 || pc == 8 || pc == 10
}

/// The first note mapped to the computer keyboard: C3 moved by `transpose`
/// octaves.
pub fn first_mapped(transpose: i32) -> (n: u8)
    requires
        i32::MIN <= 12 * transpose,
        48 + 12 * transpose <= i32::MAX,
    ensures
        n == (48 + 12 * transpose) as u8,
{
    (48 + 12 * transpose) as u8
}

/// The lowest and highest transpose of the computer keyboard, in octaves.
pub const TRANSPOSE_LOW: i32 = -2;
pub const TRANSPOSE_HIGH: i32 = 3;

/// The computer keyboard's transpose after one step down (Z) or up (X),
/// kept within [`TRANSPOSE_LOW`] and [`TRANSPOSE_HIGH`].
pub fn transpose_step(transpose: i32, up: bool) -> (t: i32)
    requires
        up ==> transpose < i32::MAX,
        !up ==> transpose > i32::MIN,
    ensures
        ({
            let next = if up { transpose + 1 } else { transpose - 1 };
            t == if next < TRANSPOSE_LOW { TRANSPOSE_LOW as int } else if next > TRANSPOSE_HIGH { TRANSPOSE_HIGH as int } else { next }
        }),
{
    let t = if up { transpose + 1 } else { transpose - 1 };
    if t < TRANSPOSE_LOW {
        TRANSPOSE_LOW
    } else if t > TRANSPOSE_HIGH {
        TRANSPOSE_HIGH
    } else {
        t
    }
}

/// The first keyswitch for an instrument whose lowest note is `lowest`: the
/// C below it (cello: C1). The white keys from there set the bow lift.
pub fn keyswitch_base(lowest: u8) -> (b: u8)
    requires
        lowest >= 1,
    ensures
        b == (lowest - 1) / 12 * 12,
        b < lowest,
        b % 12 == 0,
{
    (lowest - 1) / 12 * 12
}

/// The bow lift a keyswitch note selects, if it is one: the keyswitch base
/// for off the string, the D above it for on the string.
pub fn keyswitch(base: u8, note: u8) -> (k: Option<BowLiftParam>)
    ensures
        k == (if note == base {
            Some(BowLiftParam::OffString)
        } else if note >= base && note - base == 2 {
            Some(BowLiftParam::OnString)
        } else {
            None::<BowLiftParam>
        }),
{
    if note < base {
        return None;
    }
    let offset = note - base;
    if offset == 0 {
        Some(BowLiftParam::OffString)
    } else if offset == 2 {
        Some(BowLiftParam::OnString)
    } else {
        None
    }
}

} // verus!

use librestrings::keyboard::{first_mapped, is_black, keyswitch, keyswitch_base, note_name, transpose_step, TRANSPOSE_HIGH, TRANSPOSE_LOW};
use librestrings::params::BowLiftParam;

#[test]
fn keyswitches_are_the_white_keys_from_c1() {
    // The cello's lowest note is C2 (65.4 Hz, MIDI 36).
    let base = keyswitch_base(36);
    assert_eq!(base, 24);
    assert_eq!(keyswitch(base, 24), Some(BowLiftParam::OffString));
    assert_eq!(keyswitch(base, 26), Some(BowLiftParam::OnString));
    assert_eq!(keyswitch(base, 28), None);
    assert_eq!(keyswitch(base, 25), None);
    assert_eq!(keyswitch(base, 36), None);
    assert_eq!(keyswitch(base, 10), None);
}

#[test]
fn keyswitch_bases_are_the_c_below() {
    // Violin G3 (55), viola C3 (48), bass E1 (28).
    assert_eq!(keyswitch_base(55), 48);
    assert_eq!(keyswitch_base(48), 36);
    assert_eq!(keyswitch_base(28), 24);
    assert_eq!(keyswitch_base(1), 0);
}

#[test]
fn notes_are_named_from_middle_c() {
    assert_eq!(note_name(60), "C4");
    assert_eq!(note_name(61), "C♯4");
    assert_eq!(note_name(69), "A4");
    assert_eq!(note_name(0), "C-1");
    assert_eq!(note_name(11), "B-1");
    assert_eq!(note_name(12), "C0");
    assert_eq!(note_name(127), "G9");
    assert_eq!(note_name(132), "C10");
    assert_eq!(note_name(255), "D♯20");
}

#[test]
fn black_keys_are_the_sharps() {
    let black: Vec<u8> = (60..72).filter(|&n| is_black(n)).collect();
    assert_eq!(black, vec![61, 63, 66, 68, 70]);
    assert!(!is_black(0));
    assert!(is_black(1));
}

#[test]
fn the_computer_keyboard_starts_at_c3() {
    assert_eq!(first_mapped(0), 48);
    assert_eq!(first_mapped(-2), 24);
    assert_eq!(first_mapped(3), 84);
    assert_eq!(first_mapped(-5), 244);
}

#[test]
fn transpose_steps_stay_in_range() {
    assert_eq!(transpose_step(0, true), 1);
    assert_eq!(transpose_step(0, false), -1);
    assert_eq!(transpose_step(TRANSPOSE_HIGH, true), TRANSPOSE_HIGH);
    assert_eq!(transpose_step(TRANSPOSE_LOW, false), TRANSPOSE_LOW);
    assert_eq!(transpose_step(10, false), TRANSPOSE_HIGH);
    assert_eq!(transpose_step(-10, true), TRANSPOSE_LOW);
}

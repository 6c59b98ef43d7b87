use librestrings::performer::{in_stroke, plays_legato, Phase};
use librestrings::stage::cell;

#[test]
fn players_sit_row_by_row() {
    let c = cell(4, 5, 3);
    assert_eq!((c.row, c.col, c.in_row, c.rows), (1, 1, 2, 2));
    let c = cell(0, 5, 3);
    assert_eq!((c.row, c.col, c.in_row, c.rows), (0, 0, 3, 2));
    let c = cell(0, 1, 1);
    assert_eq!((c.row, c.col, c.in_row, c.rows), (0, 0, 1, 1));
    let c = cell(11, 12, 4);
    assert_eq!((c.row, c.col, c.in_row, c.rows), (2, 3, 4, 3));
}

#[test]
fn legato_needs_a_held_stroke() {
    assert!(in_stroke(Phase::Grip, false));
    assert!(in_stroke(Phase::Sustain, false));
    assert!(!in_stroke(Phase::Sustain, true));
    assert!(!in_stroke(Phase::Release, false));
    assert!(plays_legato(Phase::Sustain, false, Some(60)));
    assert!(!plays_legato(Phase::Sustain, false, None));
    assert!(!plays_legato(Phase::Idle, false, Some(60)));
}

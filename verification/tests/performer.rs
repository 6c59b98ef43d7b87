use librestrings::performer::{
    keeps_newer, key_up, let_go, partners, BowLift, Fingering, Held, KeyUp, LetGo, Polyphony,
    MAX_HELD,
};

fn keys(h: &Held) -> Vec<u8> {
    (0..h.len()).map(|i| h.note(i)).collect()
}

#[test]
fn held_keys_move_to_the_top() {
    let mut h = Held::new();
    h.hold(60);
    h.hold(62);
    h.hold(64);
    assert_eq!(h.last(), Some(64));
    h.hold(60);
    assert_eq!(h.last(), Some(60));
    assert_eq!(h.len(), 3);
    h.release(60);
    assert_eq!(h.last(), Some(64));
    h.release(64);
    assert_eq!(h.last(), Some(62));
    h.release(99);
    assert_eq!(h.len(), 1);
    assert_eq!(keys(&h), vec![62]);
    h.hold(70);
    h.hold(71);
    h.hold(62);
    assert_eq!(keys(&h), vec![70, 71, 62]);
    h.clear();
    assert_eq!(h.last(), None);
}

#[test]
fn the_oldest_key_is_forgotten_when_full() {
    let mut h = Held::new();
    for n in 0..MAX_HELD as u8 {
        h.hold(n);
    }
    assert_eq!(h.len(), MAX_HELD);
    h.hold(100);
    assert_eq!(h.len(), MAX_HELD);
    assert!(!h.contains(0));
    assert!(h.contains(1));
    assert_eq!(h.last(), Some(100));
    // A key held again doesn't push one out.
    h.hold(5);
    assert_eq!(h.len(), MAX_HELD);
    assert!(h.contains(1));
    assert_eq!(h.last(), Some(5));
}

#[test]
fn pressing_and_releasing_a_key_restores_the_keys() {
    let mut h = Held::new();
    h.hold(50);
    h.hold(52);
    let before = keys(&h);
    h.hold(55);
    assert_eq!(keys(&h), vec![50, 52, 55]);
    h.release(55);
    assert_eq!(keys(&h), before);
    assert_eq!(h.last(), Some(52));
}

#[test]
fn a_line_goes_on_from_the_nearer_note() {
    assert!(keeps_newer(64, 65, 60));
    assert!(!keeps_newer(61, 67, 60));
    // A tie goes to the newer note.
    assert!(keeps_newer(62, 64, 60));
    assert_eq!(partners(70, 60, None), (60, None));
    assert_eq!(partners(66, 60, Some(67)), (60, Some(67)));
    assert_eq!(partners(61, 60, Some(67)), (67, Some(60)));
}

#[test]
fn letting_go_of_a_double_stop() {
    // Single note in a stroke.
    assert_eq!(key_up(true, Some(60), None, None, 60), KeyUp::EndNote);
    assert_eq!(key_up(true, Some(60), None, None, 61), KeyUp::Ignore);
    assert_eq!(key_up(false, Some(60), None, None, 60), KeyUp::Ignore);
    // A double stop: the first key waits, the second ends both.
    assert_eq!(key_up(true, Some(60), Some(67), None, 67), KeyUp::Wait);
    assert_eq!(key_up(true, Some(60), Some(67), Some(67), 60), KeyUp::EndBoth);
    assert_eq!(key_up(true, Some(60), Some(67), Some(67), 67), KeyUp::Ignore);
    assert_eq!(key_up(true, Some(60), Some(67), None, 62), KeyUp::Ignore);
    assert_eq!(let_go(Some(67), Some(60), Some(67)), LetGo::DropNewer);
    assert_eq!(let_go(Some(60), Some(60), Some(67)), LetGo::DropOlder);
    assert_eq!(let_go(Some(62), Some(60), Some(67)), LetGo::Keep);
    assert_eq!(let_go(None, Some(60), Some(67)), LetGo::Keep);
}

#[test]
fn modes_default_to_the_plainest() {
    assert_eq!(BowLift::default(), BowLift::OffString);
    assert_eq!(Polyphony::default(), Polyphony::Mono);
    assert_eq!(Fingering::default(), Fingering::NutAndOpen);
}

use librestrings::params::InstrumentParam;
use librestrings::seqlock::{abandoned_base, settled, Seqlock, SPINS};
use librestrings::sync::{
    file_name, follow, free, sweep_due, Follow, join_time, live, publish_room, retry, room_changed, room_words, shown,
    split_time, Info, FREE_AFTER, NAME_BYTES, STALE,
};

#[test]
fn names_fit_their_slot() {
    let info = Info {
        name: "Violoncelli primi, leggio 1–2".into(),
        instrument: InstrumentParam::Cello,
        players: 4,
        staged: true,
    };
    let back = Info::from_words(&info.words());
    assert!(info.name.starts_with(&back.name));
    assert!(back.name.len() <= NAME_BYTES);
    assert_eq!(back.players, 4);
    assert_eq!(file_name(" Main "), file_name("main"));
    assert_eq!(file_name("../x"), "librestrings-stage-___x.v1");
}

#[test]
fn a_short_name_comes_back_whole() {
    let info = Info {
        name: "Celli".into(),
        instrument: InstrumentParam::Bass,
        players: 7,
        staged: false,
    };
    let words = info.words();
    assert_eq!(words[0], u32::from_le_bytes(*b"Cell"));
    assert_eq!(words[1], u32::from(b'i'));
    assert_eq!(words[8], 3);
    assert_eq!(words[9], 7);
    assert_eq!(words[10], 0);
    let back = Info::from_words(&words);
    assert_eq!(back.name, "Celli");
    assert_eq!(back.instrument, InstrumentParam::Bass);
    assert!(!back.staged);
}

#[test]
fn a_name_is_cut_at_a_character() {
    // 31 ASCII bytes then a two-byte character: it doesn't fit and is left out.
    let name = format!("{}é", "a".repeat(31));
    let info = Info { name, instrument: InstrumentParam::Violin, players: 1, staged: true };
    let back = Info::from_words(&info.words());
    assert_eq!(back.name, "a".repeat(31));
}

#[test]
fn broken_bytes_read_back_replaced() {
    let mut words = [0u32; 11];
    words[0] = u32::from_le_bytes([b'A', 0xff, b'B', 0]);
    words[8] = 6;
    words[10] = 9;
    let back = Info::from_words(&words);
    assert_eq!(back.name, "A\u{fffd}B");
    assert_eq!(back.instrument, InstrumentParam::Cello);
    assert!(back.staged);
}

#[test]
fn stage_names_ignore_case_and_odd_characters() {
    assert_eq!(file_name("Main"), "librestrings-stage-main.v1");
    assert_eq!(file_name("   "), "librestrings-stage-main.v1");
    assert_eq!(file_name("Stage-2 B"), "librestrings-stage-stage-2_b.v1");
    let long = "x".repeat(50);
    assert_eq!(file_name(&long), format!("librestrings-stage-{}.v1", "x".repeat(40)));
}

#[test]
fn slots_go_stale_then_free() {
    assert!(live(1_000, 1_000 + STALE));
    assert!(!live(1_000, 1_001 + STALE));
    assert!(live(5_000, 1_000));
    assert!(free(0, 0, 0));
    assert!(!free(7, 1_000, 1_000 + FREE_AFTER));
    assert!(free(7, 1_000, 1_001 + FREE_AFTER));
    assert!(shown(7, 8, 100, 200));
    assert!(!shown(7, 7, 100, 200));
    assert!(!shown(0, 8, 100, 200));
}

#[test]
fn a_failed_stage_is_retried_later() {
    assert!(retry(None, 0, true));
    assert!(!retry(Some(1_000), 2_500, true));
    assert!(retry(Some(1_000), 3_001, true));
    assert!(retry(Some(1_000), 1_500, false));
}

#[test]
fn the_newer_room_wins() {
    assert!(publish_room(true, 0, 0, 99));
    assert!(!publish_room(true, 1, 5, 99));
    assert!(publish_room(false, 3, 100, 99));
    assert!(!publish_room(false, 0, 99, 99));
}

#[test]
fn room_words_carry_the_time_it_changed() {
    let t = 0x0123_4567_89ab_cdefu64;
    assert_eq!(split_time(t), (0x89ab_cdef, 0x0123_4567));
    assert_eq!(join_time(0x89ab_cdef, 0x0123_4567), t);
    let w = room_words(2, 1, 10, 11, 12, t);
    assert_eq!(w, [2, 1, 10, 11, 12, 0x89ab_cdef, 0x0123_4567]);
    assert_eq!(room_changed(&w), t);
}

#[test]
fn a_seqlock_reads_what_was_written() {
    let lock: Seqlock<3> = Seqlock::new();
    assert_eq!(lock.version(), 0);
    assert_eq!(lock.read(), ([0, 0, 0], 0));
    let v = lock.write([4, 5, 6]);
    assert_eq!(v, 2);
    assert_eq!(lock.version(), 2);
    assert_eq!(lock.read(), ([4, 5, 6], 2));
    assert_eq!(lock.write([7, 8, 9]), 4);
}

#[test]
fn seqlock_rules() {
    assert!(settled(4, 4, 0));
    assert!(!settled(3, 3, 0));
    assert!(!settled(4, 6, 0));
    assert!(settled(3, 5, SPINS + 1));
    assert_eq!(abandoned_base(7), 6);
    assert_eq!(abandoned_base(8), 8);
}

#[test]
fn own_edits_publish_and_other_writes_are_taken_over() {
    assert!(matches!(follow(None, 0, 0, 0), Follow::Edited));
    assert!(matches!(follow(Some(3), 4, 8, 8), Follow::Edited));
    assert!(matches!(follow(Some(4), 4, 8, 10), Follow::Moved));
    assert!(matches!(follow(Some(4), 4, 10, 10), Follow::Same));
}

#[test]
fn slots_are_swept_once_a_second() {
    assert!(!sweep_due(1_000, 0));
    assert!(sweep_due(1_001, 0));
    assert!(!sweep_due(5, 10));
}

#[test]
fn an_unnamed_section_shows_its_instrument() {
    let i = Info::shown(String::new(), InstrumentParam::Viola, 0, true);
    assert_eq!(i.name, "Solo viola");
    assert_eq!(i.players, 1);
    assert!(i.staged);
    let i = Info::shown(String::new(), InstrumentParam::Cello, 6, false);
    assert_eq!(i.name, "Celli");
    assert_eq!(i.players, 6);
    let i = Info::shown("Desk 2".to_string(), InstrumentParam::Violin, 2, true);
    assert_eq!(i.name, "Desk 2");
}

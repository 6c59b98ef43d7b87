use librestrings::layout::{
    absorption_at, clock_millis, absorption_by_index, absorption_from_id, absorption_id, absorption_index,
    default_name, now_ms, room_at, room_by_index, room_from_id, room_id, room_index,
};
use librestrings::params::InstrumentParam;
use librestrings::stage::{Absorption, RoomPreset};

#[test]
fn rooms_number_and_name_both_ways() {
    for (i, r) in RoomPreset::ALL.into_iter().enumerate() {
        assert_eq!(room_index(r), i as u32);
        assert_eq!(room_at(room_index(r)), r);
        assert_eq!(room_from_id(room_id(r)), r);
    }
    for (i, a) in Absorption::ALL.into_iter().enumerate() {
        assert_eq!(absorption_index(a), i as u32);
        assert_eq!(absorption_at(absorption_index(a)), a);
        assert_eq!(absorption_from_id(absorption_id(a)), a);
    }
    assert_eq!(room_id(RoomPreset::ConcertHall), "concert-hall");
    assert_eq!(absorption_id(Absorption::High), "high");
}

#[test]
fn numbers_count_round_and_unknown_ids_load_the_defaults() {
    assert_eq!(room_at(6), RoomPreset::ConcertHall);
    assert_eq!(absorption_at(4), Absorption::Medium);
    assert_eq!(room_from_id("cathedral"), RoomPreset::ChamberHall);
    assert_eq!(absorption_from_id(""), Absorption::Medium);
}

#[test]
fn sections_are_named_by_size() {
    assert_eq!(default_name(InstrumentParam::Cello, 1), "Solo cello");
    assert_eq!(default_name(InstrumentParam::Bass, 0), "Solo double bass");
    assert_eq!(default_name(InstrumentParam::Cello, 4), "Celli");
    assert_eq!(default_name(InstrumentParam::Violin, 12), "Violins");
    assert_eq!(default_name(InstrumentParam::Viola, 2), "Violas");
    assert_eq!(default_name(InstrumentParam::Bass, 3), "Basses");
}

#[test]
fn the_clock_is_after_the_epoch() {
    let a = now_ms();
    assert!(a > 1_600_000_000_000);
    assert!(now_ms() >= a);
}

#[test]
fn old_parameter_indices_name_rooms() {
    assert_eq!(room_by_index(2), Some(RoomPreset::ConcertHall));
    assert_eq!(room_by_index(4), None);
    assert_eq!(room_by_index(-1), None);
    assert_eq!(absorption_by_index(0), Some(Absorption::Low));
    assert_eq!(absorption_by_index(3), None);
}

#[test]
fn clock_readings_become_milliseconds() {
    assert_eq!(clock_millis(Some(1_700_000_000_123)), 1_700_000_000_123);
    assert_eq!(clock_millis(None), 0);
    assert_eq!(clock_millis(Some((1u128 << 64) + 5)), 5);
}

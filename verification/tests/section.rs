use librestrings::section::{
    divide, mark_note, seat_for, Divisi, note_distance, note_marked, player_count, player_seed, seat_move, steal,
    switch_player, Chord, Event, Move, Pending, Queue, MAX_PLAYERS,
};

fn chord(notes: &[u8]) -> Chord {
    let mut c = Chord::new();
    for &n in notes {
        assert!(c.add(n));
    }
    c
}

fn pending(notes: &[u8]) -> Pending {
    let mut p = Pending::new();
    for &n in notes {
        assert!(p.push(n, 0.5f32.to_bits()));
    }
    p
}

fn players(n: usize) -> [bool; MAX_PLAYERS] {
    let mut a = [false; MAX_PLAYERS];
    for slot in a.iter_mut().take(n) {
        *slot = true;
    }
    a
}

#[test]
fn a_chord_keeps_its_order_and_finds_its_notes() {
    let mut c = chord(&[60, 64, 67]);
    assert_eq!(c.len(), 3);
    assert_eq!(c.position(64), Some(1));
    assert_eq!(c.position(62), None);
    c.remove(64);
    assert_eq!(c.len(), 2);
    assert_eq!(c.note(1), 67);
    c.remove(62);
    assert_eq!(c.len(), 2);
    c.clear();
    assert_eq!(c.len(), 0);
}

#[test]
fn a_full_chord_refuses_a_note() {
    let mut c = Chord::new();
    for n in 0..12u8 {
        assert!(c.add(40 + n));
    }
    assert!(!c.add(99));
    assert_eq!(c.len(), 12);
    assert_eq!(c.position(99), None);
}

#[test]
fn pending_notes_remember_their_last_velocity() {
    let mut p = Pending::new();
    assert!(p.push(60, 1));
    assert!(p.push(64, 2));
    assert!(p.push(60, 3));
    assert!(p.contains(64));
    assert!(!p.contains(65));
    assert_eq!(p.velocity(60), 3);
    assert_eq!(p.velocity(65), 0);
    assert_eq!(p.get(1), (64, 2));
    p.clear();
    assert_eq!(p.len(), 0);
    for n in 0..12u8 {
        assert!(p.push(n, 0));
    }
    assert!(!p.push(12, 0));
}

#[test]
fn a_queue_plays_its_events_in_time() {
    let mut q = Queue::new();
    assert!(q.push(10, Event::NoteOn(60, 7)));
    assert!(q.push(20, Event::NoteOff(60)));
    assert_eq!(q.last(), Some(20));
    assert_eq!(q.pop_due(5), None);
    assert_eq!(q.pop_due(10), Some(Event::NoteOn(60, 7)));
    assert_eq!(q.pop_due(15), None);
    assert_eq!(q.pop_due(25), Some(Event::NoteOff(60)));
    assert_eq!(q.len(), 0);
    assert_eq!(q.last(), None);
}

#[test]
fn a_queue_wraps_round_and_fills_up() {
    let mut q = Queue::new();
    for t in 0..40u64 {
        assert!(q.push(t, Event::Sustain(true)));
    }
    for t in 0..40u64 {
        assert_eq!(q.pop_due(t), Some(Event::Sustain(true)));
    }
    for t in 0..64u64 {
        assert!(q.push(t, Event::NoteOff(1)));
    }
    assert!(!q.push(99, Event::NoteOff(2)));
    assert_eq!(q.len(), 64);
    assert_eq!(q.last(), Some(63));
    q.clear();
    assert_eq!(q.len(), 0);
}

#[test]
fn cancel_drops_only_the_note_that_would_start() {
    let mut q = Queue::new();
    q.push(1, Event::NoteOn(60, 0));
    q.push(2, Event::NoteOff(60));
    q.push(3, Event::NoteOn(62, 0));
    q.push(4, Event::NoteOn(60, 9));
    q.cancel(60);
    assert_eq!(q.len(), 2);
    assert_eq!(q.pop_due(10), Some(Event::NoteOff(60)));
    assert_eq!(q.pop_due(10), Some(Event::NoteOn(62, 0)));
}

#[test]
fn delivery_waits_its_delay_and_keeps_the_order() {
    let mut q = Queue::new();
    // No delay and nothing waiting: played now.
    assert_eq!(q.deliver(100, 0, Event::NoteOn(60, 1)), Some(Event::NoteOn(60, 1)));
    assert_eq!(q.len(), 0);
    // A delay: it waits.
    assert_eq!(q.deliver(100, 30, Event::NoteOn(62, 1)), None);
    assert_eq!(q.last(), Some(130));
    // A shorter delay still comes after it (legato order).
    assert_eq!(q.deliver(101, 5, Event::NoteOff(62)), None);
    assert_eq!(q.last(), Some(130));
    assert_eq!(q.pop_due(130), Some(Event::NoteOn(62, 1)));
    assert_eq!(q.pop_due(130), Some(Event::NoteOff(62)));
}

#[test]
fn a_flood_of_notes_plays_at_once() {
    let mut q = Queue::new();
    for t in 0..64u64 {
        assert_eq!(q.deliver(0, 10 + t, Event::NoteOff(3)), None);
    }
    assert_eq!(q.deliver(0, 10, Event::NoteOn(5, 0)), Some(Event::NoteOn(5, 0)));
}

#[test]
fn a_chord_is_divided_evenly_front_desks_first() {
    let t = divide(&chord(&[60, 64, 67]), &players(4), &[None; MAX_PLAYERS], &pending(&[60, 64, 67]));
    assert_eq!(&t[..5], &[Some(60), Some(60), Some(64), Some(67), None]);
    assert!(t[4..].iter().all(|s| s.is_none()));
}

#[test]
fn a_single_note_takes_every_player() {
    let t = divide(&chord(&[60]), &players(4), &[None; MAX_PLAYERS], &pending(&[60]));
    assert_eq!(&t[..4], &[Some(60); 4]);
    assert_eq!(t[4], None);
}

#[test]
fn a_new_note_takes_the_back_desks() {
    let mut voices = [None; MAX_PLAYERS];
    for v in voices.iter_mut().take(4) {
        *v = Some(60);
    }
    let t = divide(&chord(&[60, 64]), &players(4), &voices, &pending(&[64]));
    assert_eq!(&t[..4], &[Some(60), Some(60), Some(64), Some(64)]);
}

#[test]
fn players_switched_off_are_not_seated() {
    let t = divide(&chord(&[60, 64]), &players(2), &[Some(60); MAX_PLAYERS], &pending(&[64]));
    assert_eq!(&t[..3], &[Some(60), Some(64), None]);
}

#[test]
fn more_notes_than_players_steal_the_nearest() {
    let t = steal(&chord(&[60, 64, 67]), &players(2), &[None; MAX_PLAYERS], &pending(&[60, 64, 67]));
    assert_eq!(&t[..3], &[Some(60), Some(67), None]);
    let mut voices = [None; MAX_PLAYERS];
    voices[0] = Some(60);
    voices[1] = Some(64);
    let t = steal(&chord(&[60, 64, 67, 72]), &players(2), &voices, &pending(&[67, 72]));
    assert_eq!(&t[..2], &[Some(60), Some(72)]);
}

#[test]
fn a_free_player_takes_each_new_note() {
    let t = steal(&chord(&[60, 64]), &players(3), &[None; MAX_PLAYERS], &pending(&[60, 64]));
    assert_eq!(&t[..3], &[Some(60), Some(64), None]);
}

#[test]
fn note_distance_is_in_semitones() {
    assert_eq!(note_distance(60, 67), 7);
    assert_eq!(note_distance(67, 60), 7);
    assert_eq!(note_distance(5, 5), 0);
}

#[test]
fn player_seeds_are_spread_and_never_zero() {
    assert_eq!(player_seed(0, 0), 1);
    assert_eq!(player_seed(1, 0), 0x514e_28b7);
    assert_eq!(player_seed(0, 1), 0x92ca_2f0e);
    assert_eq!(player_seed(12345, 3), 0x2a78_7e8a);
}

#[test]
fn seating_moves_start_and_end_the_right_notes() {
    let keep = seat_move(Some(60), Some(60), false);
    assert_eq!(keep, Move { cancel: None, note_off: None, note_on: None, voice: Some(60) });
    let strike = seat_move(Some(60), Some(60), true);
    assert_eq!(strike.note_on, Some(60));
    let change = seat_move(Some(60), Some(64), false);
    assert_eq!(change, Move { cancel: Some(60), note_off: Some(60), note_on: Some(64), voice: Some(64) });
    let leave = seat_move(Some(60), None, true);
    assert_eq!(leave, Move { cancel: Some(60), note_off: Some(60), note_on: None, voice: None });
    let join = seat_move(None, Some(67), false);
    assert_eq!(join, Move { cancel: None, note_off: None, note_on: Some(67), voice: Some(67) });
    assert_eq!(seat_move(None, None, true).voice, None);
}

#[test]
fn the_size_is_clamped_and_players_switch() {
    assert_eq!(player_count(0), 1);
    assert_eq!(player_count(5), 5);
    assert_eq!(player_count(40), MAX_PLAYERS);
    let on = switch_player(2, 4, false, true);
    assert!(on.active && !on.asleep && !on.release && on.forget_voice);
    let off = switch_player(5, 4, true, false);
    assert!(!off.active && !off.asleep && off.release && off.forget_voice);
    let same = switch_player(1, 4, true, false);
    assert!(same.active && !same.release && !same.forget_voice);
}

#[test]
fn sounding_notes_are_marked_one_bit_each() {
    let mut mask = [0u64; 2];
    mark_note(&mut mask, 60);
    mark_note(&mut mask, 100);
    assert_eq!(mask, [1u64 << 60, 1u64 << 36]);
    assert!(note_marked(&mask, 60));
    assert!(note_marked(&mask, 100));
    assert!(!note_marked(&mask, 61));
    assert!(!note_marked(&mask, 0));
}

#[test]
fn a_section_divides_each_chord_as_it_comes() {
    let mut d = Divisi::new();
    let active = players(4);
    assert!(d.flush(&active).is_none());
    for n in [60u8, 64, 67] {
        assert!(d.pending.push(n, 100));
    }
    let f = d.flush(&active).unwrap();
    assert!(!f.whole);
    assert_eq!(f.notes.len(), 3);
    assert_eq!(&f.target[..4], &[Some(60), Some(60), Some(64), Some(67)]);
    assert_eq!(f.moves[0], Move { cancel: None, note_off: None, note_on: Some(60), voice: Some(60) });
    assert_eq!(f.moves[5], Move { cancel: None, note_off: None, note_on: None, voice: None });
    assert!(d.dividing);
    assert_eq!(d.pending.len(), 0);
    assert_eq!(d.chord.len(), 3);
    assert_eq!(&d.voices[..4], &[Some(60), Some(60), Some(64), Some(67)]);

    // The E let go: only its player ends it.
    let ending = d.release(64).unwrap();
    assert_eq!(&ending[..4], &[false, false, true, false]);
    assert_eq!(d.voices[2], None);
    assert_eq!(d.chord.len(), 2);

    // A new note takes the free player.
    assert!(d.pending.push(72, 90));
    let f = d.flush(&active).unwrap();
    assert_eq!(&f.target[..4], &[Some(60), Some(60), Some(72), Some(67)]);
    assert_eq!(f.moves[2].note_on, Some(72));
    assert_eq!(f.moves[0].note_on, None);

    // Down to one player: nobody to divide, the seated notes end.
    assert!(d.pending.push(62, 80));
    let f = d.flush(&players(1)).unwrap();
    assert!(f.whole);
    assert_eq!(f.moves[0], Move { cancel: Some(60), note_off: Some(60), note_on: None, voice: None });
    assert!(!d.dividing);
    assert!(d.voices.iter().all(|v| v.is_none()));
    assert_eq!(d.release(62), None);

    d.forget();
    assert_eq!(d.chord.len(), 0);
}

#[test]
fn a_new_note_takes_a_free_player_or_the_nearest() {
    let active = players(3);
    let mut target = [None; MAX_PLAYERS];
    target[0] = Some(60);
    // Player 1 is free.
    assert_eq!(seat_for(&target, &active, &[None; MAX_PLAYERS], 72), Some(1));
    target[1] = Some(64);
    target[2] = Some(69);
    // Nobody free: 67 is nearest to 69 (2) before 64 (3).
    assert_eq!(seat_for(&target, &active, &[None; MAX_PLAYERS], 67), Some(2));
    // A tie goes to the first: 62 is 2 from 60 and from 64.
    assert_eq!(seat_for(&target, &active, &[None; MAX_PLAYERS], 62), Some(0));
    // Nobody plays anything.
    assert_eq!(seat_for(&[Some(1); MAX_PLAYERS], &[false; MAX_PLAYERS], &[None; MAX_PLAYERS], 62), None);
}

#[test]
fn a_note_twice_in_a_chord_takes_a_share_at_each_place() {
    let mut voices = [None; MAX_PLAYERS];
    voices[0] = Some(50);
    let t = divide(&chord(&[50, 50]), &players(2), &voices, &pending(&[50]));
    assert_eq!(t[0], Some(50));
    assert_eq!(t[1], Some(50));
    assert!(t[2..].iter().all(|s| s.is_none()));
}

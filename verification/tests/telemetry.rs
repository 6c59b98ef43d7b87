use librestrings::random::{contact_seed, finalize, noise_seed, seat_seed, xorshift};
use librestrings::telemetry::{note_code, note_from, SlipCounter};

const FS: f32 = 48_000.0;

/// Slips per period of `frequency` once the window (eight periods) is full,
/// which then starts a new one; no slips at all is 0.
fn measure(counter: &mut SlipCounter, frequency: f32, sample_rate: f32) -> Option<f32> {
    let period = sample_rate / frequency;
    if (counter.clock as f32) < 8.0 * period {
        return None;
    }
    let slips = if counter.onsets >= 2 {
        (counter.onsets - 1) as f32 * period / (counter.last - counter.first) as f32
    } else {
        0.0
    };
    counter.restart();
    Some(slips)
}

#[test]
fn slip_counter_is_exact_for_periodic_motion() {
    // Not a whole number of samples per period, and windows that don't
    // start on a slip.
    for (period, slips_per_period) in [(274.3f32, 1.0f32), (91.7, 1.0), (274.3, 2.0)] {
        let mut counter = SlipCounter::new();
        let spacing = period / slips_per_period;
        let mut measured = Vec::new();
        for n in 0..(40.0 * period) as usize {
            let phase = (n as f32 + 17.0) % spacing;
            counter.tick(phase < 5.0);
            if n % 256 == 255 {
                if let Some(m) = measure(&mut counter, FS / period, FS) {
                    measured.push(m);
                }
            }
        }
        assert!(!measured.is_empty());
        for m in measured {
            assert!((m - slips_per_period).abs() < 0.01, "{m} for {slips_per_period}");
        }
    }
}

#[test]
fn onsets_are_counted_once_per_slip() {
    let mut c = SlipCounter::new();
    for s in [false, true, true, false, true, false] {
        c.tick(s);
    }
    assert_eq!((c.clock, c.onsets, c.first, c.last), (6, 2, 1, 4));
    c.restart();
    assert_eq!((c.clock, c.onsets, c.was_slipping), (0, 0, false));
    c.tick(true);
    c.restart();
    assert!(c.was_slipping);
}

#[test]
fn notes_travel_as_words() {
    assert_eq!(note_code(Some(60)), 60);
    assert_eq!(note_code(None), -1);
    assert_eq!(note_from(60), Some(60));
    assert_eq!(note_from(-1), None);
    assert_eq!(note_from(256), None);
    for n in [None, Some(0), Some(127), Some(255)] {
        assert_eq!(note_from(note_code(n)), n);
    }
}

#[test]
fn random_numbers_step_and_spread() {
    assert_eq!(xorshift(1), 0x42021);
    assert_eq!(xorshift(0x1234_5678), 0x8798_5aa5);
    let mut x = 7u32;
    for _ in 0..10_000 {
        x = xorshift(x);
        assert_ne!(x, 0);
    }
    assert_eq!(finalize(1), 0x514e_28b7);
    assert_eq!(finalize(0), 0);
    assert_eq!(noise_seed(0), 1);
    assert_eq!(noise_seed(1), 0x514e_28b7);
}

#[test]
fn each_contact_and_seat_draws_its_own() {
    assert_eq!(contact_seed(5, 2), 22);
    assert_eq!(contact_seed(0xffff_ffff, 3), 0xffff_ffff);
    assert_eq!(seat_seed(0, 0), 0x9e37_79b9);
    assert_eq!(seat_seed(0x9e37_79b9, 0), 1);
    assert_ne!(seat_seed(7, 1), seat_seed(7, 2));
}

#[test]
fn a_seat_seed_takes_the_low_bits_of_the_index() {
    let far: u64 = (1u64 << 32) + 1;
    if let Ok(i) = usize::try_from(far) {
        assert_eq!(seat_seed(7, i), seat_seed(7, 1));
    }
    assert_eq!(seat_seed(0, 1), 2u32.wrapping_mul(0x9e37_79b9));
}

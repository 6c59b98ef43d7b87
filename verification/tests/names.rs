use librestrings::analysis::Regime;
use librestrings::articulation::{label, Articulation, Recent, ARTICULATIONS};
use librestrings::bow::ContactState;
use librestrings::engine::{controller, Applied, Controller};
use librestrings::params::{BowLiftParam, FingeringParam, InstrumentParam, PolyphonyParam};
use librestrings::performer::{BowLift, Fingering, Polyphony};
use librestrings::stage::{Absorption, RoomPreset};
use librestrings::tuning::Group;

#[test]
fn regimes_have_map_symbols() {
    assert_eq!(Regime::Helmholtz.symbol(), 'H');
    assert_eq!(Regime::MultiSlip.symbol(), 'M');
    assert_eq!(Regime::Raucous.symbol(), 'R');
    assert_eq!(Regime::NoSlip.symbol(), '.');
}

#[test]
fn only_a_slip_is_slipping() {
    assert!(ContactState::Slip { positive: true }.is_slipping());
    assert!(ContactState::Slip { positive: false }.is_slipping());
    assert!(!ContactState::Stick.is_slipping());
    assert!(!ContactState::Off.is_slipping());
    assert_eq!(ContactState::default(), ContactState::Off);
}

#[test]
fn rooms_and_absorptions_are_named() {
    assert_eq!(RoomPreset::Studio.name(), "Studio");
    assert_eq!(RoomPreset::ChamberHall.name(), "Chamber hall");
    assert_eq!(RoomPreset::ConcertHall.name(), "Concert hall");
    assert_eq!(RoomPreset::ScoringStage.name(), "Scoring stage");
    assert_eq!(RoomPreset::default(), RoomPreset::ChamberHall);
    assert_eq!(Absorption::Low.name(), "Low");
    assert_eq!(Absorption::Medium.name(), "Medium");
    assert_eq!(Absorption::High.name(), "High");
    assert_eq!(Absorption::default(), Absorption::Medium);
}

#[test]
fn instruments_are_listed_highest_first() {
    for (i, p) in InstrumentParam::ALL.into_iter().enumerate() {
        assert_eq!(p.index(), i);
        assert_eq!(InstrumentParam::at(i + 4), p);
    }
    assert_eq!(InstrumentParam::Cello.index(), 2);
    assert_eq!(InstrumentParam::Bass.name(), "Double bass");
    assert_eq!(InstrumentParam::Violin.name(), "Violin");
}

#[test]
fn modes_convert_both_ways() {
    for b in BowLiftParam::ALL {
        assert_eq!(BowLiftParam::from(BowLift::from(b)), b);
        assert_eq!(BowLiftParam::at(b.index()), b);
    }
    for p in PolyphonyParam::ALL {
        assert_eq!(PolyphonyParam::from(Polyphony::from(p)), p);
    }
    assert_eq!(Fingering::from(FingeringParam::Bridge), Fingering::Bridge);
    assert_eq!(PolyphonyParam::at(5), PolyphonyParam::Divisi);
    assert_eq!(BowLiftParam::OnString.name(), "On string");
    assert_eq!(PolyphonyParam::DoubleStops.name(), "Double stops");
    assert_eq!(FingeringParam::NutAndOpen.name(), "Near the nut & open");
}

#[test]
fn articulations_are_labelled() {
    assert_eq!(label(Articulation::Detache), "Détaché");
    assert_eq!(label(Articulation::Martele), "Martelé");
    assert_eq!(label(Articulation::StringCrossing), "Cross-String Legato");
    assert_eq!(Articulation::from_index(1), Some(Articulation::Detache));
    assert_eq!(Articulation::from_index(-1), None);
    assert_eq!(Articulation::from_index(14), None);
    assert_eq!(Articulation::ALL.len(), 14);
}

#[test]
fn recent_articulations_are_newest_first() {
    let mut r = Recent::new();
    r.record(Articulation::Detache);
    r.record(Articulation::Legato);
    r.record(Articulation::Portamento);
    r.record(Articulation::StringCrossing);
    r.record(Articulation::BowLift);
    assert_eq!(
        r.latest,
        [Some(Articulation::BowLift), Some(Articulation::StringCrossing), Some(Articulation::Portamento)]
    );
    assert_eq!(r.count, 5);
    assert_eq!(r.latest.len(), ARTICULATIONS);
}

#[test]
fn tuning_groups_have_headings() {
    assert_eq!(Group::ALL.len(), 11);
    assert_eq!(Group::Release.name(), "Release and left hand");
    assert_eq!(Group::OnString.name(), "Bow on the string");
    assert_eq!(Group::Strings.name(), "Strings (refitted on release, about 30 ms)");
}

#[test]
fn controllers_play_dynamics_and_vibrato() {
    assert_eq!(controller(11), Controller::Dynamics);
    assert_eq!(controller(1), Controller::Vibrato);
    assert_eq!(controller(123), Controller::AllNotesOff);
    assert_eq!(controller(120), Controller::AllSoundOff);
    assert_eq!(controller(64), Controller::Ignore);
}

#[test]
fn a_mode_acts_only_when_it_changes() {
    let mut a = Applied::new();
    assert!(a.bow_lift(BowLiftParam::OffString));
    assert!(!a.bow_lift(BowLiftParam::OffString));
    assert!(a.bow_lift(BowLiftParam::OnString));
    assert!(a.polyphony(PolyphonyParam::Mono));
    assert!(!a.polyphony(PolyphonyParam::Mono));
    assert!(a.fingering(FingeringParam::Mid));
    assert!(!a.fingering(FingeringParam::Mid));
    assert_eq!(a.bow_lift, Some(BowLiftParam::OnString));
}

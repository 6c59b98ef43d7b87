//! How a bowed string moves in steady state, as a playability map marks it.

use vstd::prelude::*;

verus! {

/// How a bowed string moves in steady state.
#[derive(Clone, Copy, Debug, PartialEq, Eq)]
pub enum Regime {
    /// One slip per period, periodic: the normal bowed tone.
    Helmholtz,
    /// Several slips per period: the "surface" sound below minimum force.
    MultiSlip,
    /// Aperiodic or subharmonic: the crunch above maximum force.
    Raucous,
    /// The bow never lets go (or never grips): no oscillation.
    NoSlip,
}

impl Regime {
    /// The one-character symbol of a regime in a playability map.
    pub open spec fn spec_symbol(self) -> char {
        match self {
            Regime::Helmholtz => 'H',
            Regime::MultiSlip => 'M',
            Regime::Raucous => 'R',
            Regime::NoSlip => '.',
        }
    }

    pub fn symbol(self) -> (c: char)
        ensures
            c == self.spec_symbol(),
    {
        match self {
            Regime::Helmholtz => 'H',
            Regime::MultiSlip => 'M',
            Regime::Raucous => 'R',
            Regime::NoSlip => '.',
        }
    }
}

} // verus!

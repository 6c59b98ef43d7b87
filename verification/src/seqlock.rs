//! Words shared between processes under a seqlock: a writer makes the
//! version odd while it writes and even again, two higher, when it is done;
//! a reader that sees the same even version before and after reading has
//! read one write whole.

use vstd::prelude::*;
use std::sync::atomic::{AtomicU32, Ordering};

verus! {

/// Spins before a reader or writer gives up waiting for a writer that may
/// have died.
pub const SPINS: u32 = 20_000;

/// `N` words under a seqlock. The version is even when no write is under way,
/// and it grows with every write.
pub struct Seqlock<const N: usize> {
    seq: AtomicU32,
    words: [AtomicU32; N],
}

/// Orders the memory accesses around it (`std::sync::atomic::fence`).
///
/// Trusted: calls `std::sync::atomic::fence`, which panics on `Relaxed`, so
/// that order is left out; it has no result to state.
#[verifier::external_body]
fn fence(order: Ordering)
    requires
        !(order is Relaxed),
{
    std::sync::atomic::fence(order)
}

/// Tells the processor it is spinning (`std::hint::spin_loop`).
///
/// Trusted: calls `std::hint::spin_loop`; it has no result to state.
#[verifier::external_body]
fn spin() {
    std::hint::spin_loop()
}

/// `N` atomic words, all 0.
///
/// Trusted: builds the array with `std::array::from_fn` and
/// `AtomicU32::new(0)`; nothing is stated of what they hold, since another
/// process may change them.
#[verifier::external_body]
fn zero_words<const N: usize>() -> (w: [AtomicU32; N]) {
    std::array::from_fn(|_| AtomicU32::new(0))
}

/// A reader's words are one whole write: the version was the same even
/// number before and after. A reader that has spun too long takes what it
/// read.
pub fn settled(before: u32, after: u32, spins: u32) -> (r: bool)
    ensures
        r == ((before == after && before % 2 == 0) || spins > SPINS),
{
    (before == after && before % 2 == 0) || spins > SPINS
}

/// The version a writer starts from when the version it found was odd for
/// too long (a writer that died mid-write): the even number below.
pub fn abandoned_base(s: u32) -> (base: u32)
    ensures
        base % 2 == 0,
        base == s - s % 2,
{
    let base = s & !1u32;
    assert(base % 2 == 0 && base == s - s % 2) by (bit_vector)
        requires
            base == s & !1u32,
    ;
    base
}

impl<const N: usize> Seqlock<N> {
    /// Words all 0, at version 0. vstd gives atomic words no value, so no
    /// clause states this.
    pub fn new() -> (s: Self) {
        Seqlock { seq: AtomicU32::new(0), words: zero_words() }
    }

    /// The version: even when no write is under way. It is read from a word
    /// that other processes write, so no clause states its value.
    pub fn version(&self) -> (v: u32) {
        self.seq.load(Ordering::Acquire)
    }

    /// The words and their version. They are read from words that other
    /// processes write, so no clause states their values.
    pub fn read(&self) -> (r: ([u32; N], u32)) {
        let mut spins: u32 = 0;
        loop
            invariant
                spins <= SPINS + 1,
            decreases SPINS + 1 - spins,
        {
            let before = self.seq.load(Ordering::Acquire);
            let mut words = [0u32; N];
            let mut i: usize = 0;
            while i < N
                decreases N - i,
            {
                words[i] = self.words[i].load(Ordering::Relaxed);
                i = i + 1;
            }
            fence(Ordering::Acquire);
            let after = self.seq.load(Ordering::Relaxed);
            if settled(before, after, spins) {
                return (words, after);
            }
            spins = spins + 1;
            spin();
        }
    }

    /// Writes the words and returns their new version: even, two past the
    /// one the write started from. That version is read from a word that
    /// other processes write, so the contract states only the parity.
    pub fn write(&self, words: [u32; N]) -> (v: u32)
        ensures
            v % 2 == 0,
    {
        let mut spins: u32 = 0;
        let mut base: u32 = 0;
        loop
            invariant_except_break
                spins <= SPINS,
            ensures
                base % 2 == 0,
            decreases SPINS + 1 - spins,
        {
            let s = self.seq.load(Ordering::Relaxed);
            if s % 2 == 0 && self.seq.compare_exchange_weak(s, s + 1, Ordering::Acquire, Ordering::Relaxed).is_ok() {
                base = s;
                break;
            }
            spins = spins + 1;
            if spins > SPINS {
                // A writer died mid-write: take its place.
                base = abandoned_base(s);
                self.seq.store(base + 1, Ordering::Relaxed);
                break;
            }
            spin();
        }
        fence(Ordering::Release);
        let mut i: usize = 0;
        while i < N
            decreases N - i,
        {
            self.words[i].store(words[i], Ordering::Relaxed);
            i = i + 1;
        }
        let v = base.wrapping_add(2);
        assert(v % 2 == 0) by (bit_vector)
            requires
                base % 2 == 0,
                v == base.wrapping_add(2),
        ;
        self.seq.store(v, Ordering::Release);
        v
    }
}

} // verus!

//! The integer random numbers behind the humanizing draws and the bow noise:
//! xorshift32 steps, and Murmur3's finalizer to spread seeds.

use vstd::prelude::*;

verus! {

/// Murmur3's 32-bit finalizer.
pub open spec fn fmix32(h: u32) -> u32 {
    let a = h ^ (h >> 16u32);
    let b = a.wrapping_mul(0x85eb_ca6bu32);
    let c = b ^ (b >> 13u32);
    let d = c.wrapping_mul(0xc2b2_ae35u32);
    d ^ (d >> 16u32)
}

/// Murmur3's finalizer: neighbouring seeds give unrelated values.
pub fn finalize(seed: u32) -> (x: u32)
    ensures
        x == fmix32(seed),
{
    let mut x = seed;
    x = x ^ (x >> 16u32);
    x = x.wrapping_mul(0x85eb_ca6b);
    x = x ^ (x >> 13u32);
    x = x.wrapping_mul(0xc2b2_ae35);
    x ^ (x >> 16u32)
}

/// One step of xorshift32.
pub open spec fn xorshift_step(x: u32) -> u32 {
    let a = x ^ (x << 13u32);
    let b = a ^ (a >> 17u32);
    b ^ (b << 5u32)
}

/// The next state of a xorshift32 generator (the draws are taken from its
/// top 24 bits).
pub fn xorshift(state: u32) -> (next: u32)
    ensures
        next == xorshift_step(state),
{
    let mut x = state;
    x = x ^ (x << 13u32);
    x = x ^ (x >> 17u32);
    x ^ (x << 5u32)
}

/// A xorshift generator never reaches 0 from another state, so a state that
/// starts nonzero draws forever.
pub proof fn lemma_xorshift_nonzero(x: u32)
    requires
        x != 0,
    ensures
        xorshift_step(x) != 0,
{
    let a = x ^ (x << 13u32);
    let b = a ^ (a >> 17u32);
    let c = b ^ (b << 5u32);
    assert(x != 0 ==> a != 0) by (bit_vector)
        requires
            a == x ^ (x << 13u32),
    ;
    assert(a != 0 ==> b != 0) by (bit_vector)
        requires
            b == a ^ (a >> 17u32),
    ;
    assert(b != 0 ==> c != 0) by (bit_vector)
        requires
            c == b ^ (b << 5u32),
    ;
}

/// The first state of a bow noise generator drawn from `seed`: its seed
/// spread by the finalizer, never 0.
pub fn noise_seed(seed: u32) -> (state: u32)
    ensures
        state == (if fmix32(seed) == 0 {
            1
        } else {
            fmix32(seed)
        }),
        state != 0,
{
    let x = finalize(seed);
    if x == 0 {
        1
    } else {
        x
    }
}

/// Most bow contacts on one string.
pub const MAX_CONTACTS: usize = 4;

/// The noise seed of contact `i` of a string whose bow noise starts from
/// `seed`: each contact draws its own.
pub fn contact_seed(seed: u32, i: usize) -> (s: u32)
    requires
        i < MAX_CONTACTS,
    ensures
        s == (seed * MAX_CONTACTS + i) % 0x1_0000_0000,
{
    let s = seed.wrapping_mul(MAX_CONTACTS as u32).wrapping_add(i as u32);
    assert(s == (seed * MAX_CONTACTS + i) % 0x1_0000_0000) by (nonlinear_arith)
        requires
            s == (((seed * 4) % 0x1_0000_0000) + i) % 0x1_0000_0000,
            i < 4,
    ;
    s
}

/// The jitter seed of the seat of player `i` on the stage: never 0. The
/// index is taken by its low 32 bits, which must leave room for one more.
pub fn seat_seed(seed: u32, i: usize) -> (s: u32)
    requires
        (i as int) % 0x1_0000_0000 < 0xffff_ffff,
    ensures
        s == (if seed ^ (((i as int) % 0x1_0000_0000 + 1) as u32).wrapping_mul(0x9e37_79b9u32) == 0 {
            1
        } else {
            seed ^ (((i as int) % 0x1_0000_0000 + 1) as u32).wrapping_mul(0x9e37_79b9u32)
        }),
        s != 0,
{
    let wide = i as u64;
    let low = wide as u32;
    assert(low == wide % 0x1_0000_0000) by (bit_vector)
        requires
            low == wide as u32,
    ;
    let x = seed ^ (low + 1).wrapping_mul(0x9e37_79b9);
    if x == 0 {
        1
    } else {
        x
    }
}

} // verus!

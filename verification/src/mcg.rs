//! The generator that the fingerprint table is drawn from: a multiplicative
//! congruential generator with a state of 128 bits. A step multiplies the
//! state by a fixed number, and gives the exclusive or of the two halves of
//! the new state, rotated right by as many bits as its top six bits say.

use vstd::prelude::*;

verus! {

/// The number a step multiplies the state by.
pub const MULTIPLIER: u128 = 0x2360_ED05_1FC6_5DA4_4385_DF64_9FCC_F645;

/// The state after a step from `state`.
pub open spec fn step(state: u128) -> u128 {
    state.wrapping_mul(MULTIPLIER)
}

/// `x` rotated right by `r` bits, for `r` below 64.
pub open spec fn rotr(x: u64, r: u64) -> u64 {
    if r == 0 {
        x
    } else {
        (x >> r) | (x << ((64 - r) as u64))
    }
}

/// The number that the generator gives in the state `state`.
pub open spec fn out(state: u128) -> u64 {
    let rot = (state >> 122) as u64;
    let hi = (state >> 64) as u64;
    let lo = (state & 0xffff_ffff_ffff_ffff) as u64;
    rotr(hi ^ lo, rot)
}

/// The state of a generator started from `seed` after `k` steps.
pub open spec fn state_at(seed: u128, k: nat) -> u128
    decreases k,
{
    if k == 0 {
        seed | 1
    } else {
        step(state_at(seed, (k - 1) as nat))
    }
}

/// The generator.
pub struct Mcg {
    state: u128,
}

impl Mcg {
    /// The state.
    pub closed spec fn state(&self) -> u128 {
        self.state
    }

    /// A generator started from `seed`: its state is the seed with the
    /// lowest bit set.
    pub fn new(seed: u128) -> (r: Mcg)
        ensures
            r.state() == seed | 1,
            r.state() == state_at(seed, 0),
    {
        Mcg { state: seed | 1 }
    }

    /// Makes a step and gives the number of the new state.
    pub fn next_u64(&mut self) -> (r: u64)
        ensures
            final(self).state() == step(old(self).state()),
            r == out(final(self).state()),
    {
        self.state = self.state.wrapping_mul(MULTIPLIER);
        let s = self.state;
        assert((s >> 122) < 64 && (s >> 64) <= 0xffff_ffff_ffff_ffff && (s & 0xffff_ffff_ffff_ffff)
            <= 0xffff_ffff_ffff_ffff) by (bit_vector);
        let rot = (s >> 122) as u64;
        let hi = (s >> 64) as u64;
        let lo = (s & 0xffff_ffff_ffff_ffff) as u64;
        let xsl = hi ^ lo;
        if rot == 0 {
            xsl
        } else {
            (xsl >> rot) | (xsl << (64 - rot))
        }
    }
}

} // verus!

//! A fingerprint of a set of keys: every key gets a code when it is first
//! seen, and the fingerprint is the exclusive or of the codes of the keys
//! that were flipped in an odd number of times.

use std::collections::HashMap;
use vstd::prelude::*;

verus! {

/// The standard generator of the `rand` crate. Nothing is known of its
/// state.
#[verifier::external_type_specification]
#[verifier::external_body]
pub struct ExStdRng(rand::rngs::StdRng);

/// `rand::random` at 32 bytes: a seed from the thread's generator. Nothing
/// is claimed of it.
#[verifier::external_body]
fn random_seed() -> [u8; 32] {
    rand::random()
}

/// `rand::SeedableRng::from_seed` for `StdRng`: a generator started from
/// `seed`. Nothing is claimed of it.
#[verifier::external_body]
fn rng_from_seed(seed: [u8; 32]) -> rand::rngs::StdRng {
    rand::SeedableRng::from_seed(seed)
}

/// `rand::Rng::gen_range` over all of `i64`: the next code. The range is
/// not empty, so the call returns; nothing is claimed of the number.
#[verifier::external_body]
fn gen_code(rng: &mut rand::rngs::StdRng) -> i64 {
    rand::Rng::gen_range(rng, i64::MIN..=i64::MAX)
}

/// The fingerprint and the codes given out so far.
pub struct ZobristHashSet {
    v: i64,
    x_to_hash: HashMap<u64, i64>,
    rng: rand::rngs::StdRng,
}

impl ZobristHashSet {
    /// The fingerprint.
    pub closed spec fn value(&self) -> i64 {
        self.v
    }

    /// The code of each key seen so far.
    pub closed spec fn codes(&self) -> Map<u64, i64> {
        self.x_to_hash@
    }

    /// An empty set: fingerprint 0, no key seen.
    pub fn new() -> (r: Self)
        ensures
            r.value() == 0,
            r.codes() == Map::<u64, i64>::empty(),
    {
        let seed = random_seed();
        let rng = rng_from_seed(seed);
        ZobristHashSet { v: 0, x_to_hash: HashMap::new(), rng }
    }

    /// `new` is this set after key `x` was flipped: the fingerprint has
    /// changed by the code of `x`, which is new if `x` had none, and the
    /// codes of the other keys are as they were.
    pub open spec fn flips(&self, new: &Self, x: u64) -> bool {
        &&& new.codes().dom() == self.codes().dom().insert(x)
        &&& forall|k: u64|
            self.codes().dom().contains(k) ==> #[trigger] new.codes()[k] == self.codes()[k]
        &&& new.value() == self.value() ^ new.codes()[x]
    }

    /// Flips key `x` in or out: the fingerprint changes by the code of `x`.
    /// A key seen for the first time gets its code now; the codes of the
    /// other keys stay.
    pub fn flip(&mut self, x: u64)
        ensures
            old(self).flips(final(self), x),
    {
        let known = self.x_to_hash.get(&x);
        let code = match known {
            Some(c) => *c,
            None => {
                let c = gen_code(&mut self.rng);
                self.x_to_hash.insert(x, c);
                c
            },
        };
        self.v = self.v ^ code;
        proof {
            assert(self.codes().dom() =~= old(self).codes().dom().insert(x));
        }
    }

    /// Sets the fingerprint back to 0. The codes stay.
    pub fn init(&mut self)
        ensures
            final(self).value() == 0,
            final(self).codes() == old(self).codes(),
    {
        self.v = 0;
    }

    /// The fingerprint.
    pub fn get(&self) -> (r: i64)
        ensures
            r == self.value(),
    {
        self.v
    }
}

/// Flipping a code into the fingerprint 0 gives the code.
pub proof fn flip_from_zero(c: i64)
    ensures
        0i64 ^ c == c,
{
    assert(0i64 ^ c == c) by (bit_vector);
}

/// Flipping two codes in and then out again, in any order, leaves a
/// fingerprint as it was.
pub proof fn flip_both_twice(v: i64, a: i64, b: i64)
    ensures
        (((v ^ a) ^ b) ^ b) ^ a == v,
        (((v ^ a) ^ b) ^ a) ^ b == v,
{
    assert((((v ^ a) ^ b) ^ b) ^ a == v) by (bit_vector);
    assert((((v ^ a) ^ b) ^ a) ^ b == v) by (bit_vector);
}

/// Flipping the same code in twice leaves a fingerprint as it was.
pub proof fn flip_twice(v: i64, c: i64)
    ensures
        (v ^ c) ^ c == v,
{
    assert((v ^ c) ^ c == v) by (bit_vector);
}

} // verus!

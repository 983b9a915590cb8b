//! The pseudo-random numbers that break ties between candidates.

use vstd::prelude::*;

verus! {

/// The seed a fresh generator starts from.
pub const SEED: u64 = 88172645463325252;

/// The state that follows `seed`: one round of xorshift with shifts 7 and 9.
pub open spec fn next_spec(seed: u64) -> u64 {
    let a = seed ^ (seed << 7);
    a ^ (a >> 9)
}

/// Advances `seed` by one round and returns the new state.
pub fn next(seed: &mut u64) -> (r: u64)
    ensures
        *final(seed) == next_spec(*old(seed)),
        r == *final(seed),
{
    let a: u64 = *seed ^ (*seed << 7);
    let b: u64 = a ^ (a >> 9);
    *seed = b;
    b
}

} // verus!

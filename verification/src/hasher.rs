//! A hasher for keys that are fingerprints already: it hands back the
//! number it was given.

use vstd::prelude::*;

verus! {

/// Keeps the last number written to it.
#[derive(Default)]
pub struct NopHasher {
    hash: u64,
}

impl NopHasher {
    /// The number that `finish` gives.
    pub closed spec fn held(&self) -> u64 {
        self.hash
    }

    /// Takes `n` as the hash.
    pub fn write_u64(&mut self, n: u64)
        ensures
            final(self).held() == n,
    {
        self.hash = n;
    }

    /// The number written last.
    pub fn finish(&self) -> (r: u64)
        ensures
            r == self.held(),
    {
        self.hash
    }
}

} // verus!

//! Shutdown coordination: a one-shot token that hands out the shutdown
//! signal at most once, so the final drain of the aggregation engine runs
//! exactly once.

use vstd::prelude::*;

verus! {

/// A take-once shutdown token. `take` reports `true` exactly on the first
/// call; every later call reports `false`.
pub struct ShutdownOnce {
    taken: bool,
}

impl ShutdownOnce {
    /// Whether the signal has already been taken.
    pub closed spec fn is_taken(&self) -> bool {
        self.taken
    }

    pub fn new() -> (r: Self)
        ensures
            !r.is_taken(),
    {
        ShutdownOnce { taken: false }
    }

    /// Consume the signal. Returns `true` exactly once over the token's life.
    pub fn take(&mut self) -> (r: bool)
        ensures
            final(self).is_taken(),
            r == !old(self).is_taken(),
    {
        let was = self.taken;
        self.taken = true;
        !was
    }
}

} // verus!

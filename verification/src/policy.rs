//! The quota attached to a single API key.

use vstd::prelude::*;

verus! {

/// A quota: at most `count` uses per rolling window of `per` milliseconds.
#[derive(Clone, Copy)]
pub struct RateLimitPolicy {
    /// The number of times an API key can be used within the window.
    pub count: usize,
    /// The length of the rolling window, in milliseconds.
    pub per: i64,
}

impl RateLimitPolicy {
    /// A policy is valid when it allows at least one use and its window
    /// has positive length.
    pub open spec fn valid(self) -> bool {
        self.count >= 1 && self.per >= 1
    }

    /// Returns a rate-limit policy allowing `count` uses per `per` milliseconds.
    ///
    /// A `count` of zero or a window without positive length is a caller
    /// error, ruled out up front rather than given some arbitrary meaning.
    pub fn new(count: usize, per: i64) -> (r: Self)
        requires
            count >= 1,
            per >= 1,
        ensures
            r.count == count,
            r.per == per,
            r.valid(),
    {
        Self { count, per }
    }
}

} // verus!

//! A pool of interchangeable API keys, each governed by its own
//! sliding-window rate limit.
//!
//! A caller asks the pool for any currently usable key; the pool scans its
//! keys in insertion order and returns the identifier of the first key whose
//! quota admits one more use right now, recording that use in the same step.
//! Each key individually respects a quota of at most `count` uses per rolling
//! window of `per` milliseconds: every recorded use expires on its own,
//! `per` milliseconds after it happened.

mod clock;
pub mod key;
pub mod policy;
pub mod pool;

pub use key::APIKey;
pub use policy::RateLimitPolicy;
pub use pool::APIKeyPool;

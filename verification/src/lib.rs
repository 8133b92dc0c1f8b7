//! Delay-aware cache simulation: a discrete-event simulator that accounts for
//! coalesced in-flight misses, together with recency-based (LRU) and
//! delay-aware (LRU-MAD) eviction policies, a k-way set-associative dispatcher,
//! trace heuristics, a binary trace codec, and trace-line parsers.
use vstd::prelude::*;

pub mod cache;
pub mod cdn;
pub mod codec;
pub mod heuristics;
pub mod msg;
pub mod parse;
pub mod lru;
pub mod lru_mad;
pub mod simulator;

verus! {

/// Identity of a cached object.
pub type RequestId = u64;

/// A timestamp or duration in nanoseconds.
pub type TimeUnit = u64;

/// One trace event: the object `key` is requested at `timestamp` nanoseconds.
#[derive(Debug, Eq, PartialEq, Clone, Copy, Structural)]
pub struct RequestEvent<T> {
    pub key: T,
    pub timestamp: TimeUnit,
}

} // verus!

//! The arrival-event data model shared by the correlator, the resolver and
//! the statistics aggregator.

use vstd::prelude::*;

verus! {

/// One observation, by one feed, that a given block (identified by its
/// ordering key) exists.  Immutable once constructed.
pub struct ArrivalEvent {
    /// Monotonically increasing identifier of the block (its slot).
    pub ordering_key: u64,
    /// Milliseconds since the epoch at which the block's producer claims to
    /// have created it; absent when the feed cannot supply it.
    pub claimed_production_time: Option<i64>,
    /// Wall-clock milliseconds since the epoch at which this process learned
    /// of the block from this feed.
    pub observed_time: i64,
    /// The feed that produced the observation.
    pub source_id: String,
}

/// One scalar latency measurement bound for the aggregator.
pub struct LatencySample {
    pub value_ms: i64,
    pub source_id: String,
    pub ordering_key: u64,
    pub observed_at: i64,
}

/// Why an engine component could not be constructed.  Misconfiguration is
/// fatal at startup and never a runtime concern.
#[derive(Clone, Copy, PartialEq, Eq, Structural, Debug)]
pub enum ConfigError {
    /// No sources were configured.
    NoSources,
    /// Two configured sources share an identifier.
    DuplicateSource,
    /// The retention window is zero or negative.
    NonPositiveRetention,
    /// The plausibility ceiling for latency samples is zero or negative.
    NonPositiveMaxPlausible,
}

/// A diagnostic counter grows by one until it sticks at its maximum.
pub open spec fn bump(c: u64) -> u64 {
    if c < u64::MAX {
        (c + 1) as u64
    } else {
        c
    }
}

/// The value of `x` forced into the `i64` range: differences of arbitrary
/// `i64` timestamps can exceed the type, and such a value is pinned to the
/// nearer bound rather than wrapped.
pub open spec fn clip_i64(x: int) -> int {
    if x > i64::MAX as int {
        i64::MAX as int
    } else if x < i64::MIN as int {
        i64::MIN as int
    } else {
        x
    }
}

/// Forces a mathematical value held in an `i128` into the `i64` range.
pub fn clip_i128_to_i64(x: i128) -> (r: i64)
    ensures
        r as int == clip_i64(x as int),
{
    if x > i64::MAX as i128 {
        i64::MAX
    } else if x < i64::MIN as i128 {
        i64::MIN
    } else {
        x as i64
    }
}

/// The propagation latency a single arrival event witnesses: how long after
/// the claimed production time this process observed the block.  Absent when
/// the event carries no production-time claim.  A difference beyond the
/// `i64` range is pinned to the nearer bound.
pub fn propagation_latency_ms(event: &ArrivalEvent) -> (r: Option<i64>)
    ensures
        match r {
            Some(v) => event.claimed_production_time matches Some(c) && v as int == clip_i64(
                event.observed_time - c,
            ),
            None => event.claimed_production_time is None,
        },
{
    match event.claimed_production_time {
        Some(c) => Some(clip_i128_to_i64(event.observed_time as i128 - c as i128)),
        None => None,
    }
}

} // verus!

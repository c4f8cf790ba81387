//! The time source a run works against.
//!
//! A run works at one fixed timestamp: the moment the provider was built.
//! Timestamps are microseconds since the Unix epoch.

use vstd::prelude::*;

verus! {

/// A source for the single run timestamp.
pub trait TimeProvider: Sized {
    /// The run timestamp the provider hands out.
    spec fn start(&self) -> i64;

    /// The timestamp at which the current run began.
    fn naive_utc_start(&self) -> (r: i64)
        ensures
            r == self.start(),
    ;
}

/// Relies on chrono's `Utc::now`, read out through
/// `DateTime::timestamp_micros`; the value depends on the wall clock, so
/// nothing is assumed of it.
#[verifier::external_body]
fn now_utc_micros() -> i64 {
    chrono::Utc::now().timestamp_micros()
}

/// Hands out the wall-clock time at which it was created.
pub struct CoreTimeProvider {
    start: i64,
}

impl CoreTimeProvider {
    pub fn new() -> (r: Self) {
        Self { start: now_utc_micros() }
    }
}

impl TimeProvider for CoreTimeProvider {
    closed spec fn start(&self) -> i64 {
        self.start
    }

    fn naive_utc_start(&self) -> (r: i64) {
        self.start
    }
}

/// Hands out a timestamp chosen by its caller; the test double of the time
/// source.
pub struct FixedTimeProvider {
    start: i64,
}

impl FixedTimeProvider {
    pub fn new(start: i64) -> (r: Self)
        ensures
            r.start() == start,
    {
        Self { start }
    }
}

impl TimeProvider for FixedTimeProvider {
    closed spec fn start(&self) -> i64 {
        self.start
    }

    fn naive_utc_start(&self) -> (r: i64) {
        self.start
    }
}

} // verus!

//! What one request came to.

use crate::address::Address;
use crate::error::DnsError;
use vstd::prelude::*;

verus! {

/// The number of nanoseconds in a millisecond.
pub const NANOS_PER_MILLI: u64 = 1_000_000;

/// What one request came to: the time it took, in nanoseconds, or a failure
/// of whatever cause.
#[derive(Clone, Copy, Debug, PartialEq, Eq, Structural)]
pub enum Outcome {
    Success(u64),
    Failed,
}

/// One request: the server it went to, and what it came to.
#[derive(Clone, Copy, Debug, PartialEq, Eq, Structural)]
pub struct Measurement {
    pub server: Address,
    pub outcome: Outcome,
}

/// A time in whole milliseconds: what is left of a millisecond is dropped.
pub open spec fn millis(nanos: u64) -> u64 {
    nanos / NANOS_PER_MILLI
}

/// The outcome that stands for the result of one measurement: the time that
/// was measured, or a failure, whatever the error.
pub open spec fn outcome_of(measured: Result<u64, DnsError>) -> Outcome {
    match measured {
        Ok(nanos) => Outcome::Success(nanos),
        Err(_) => Outcome::Failed,
    }
}

impl Outcome {
    /// Turns the result of one measurement into its outcome. The cause of a
    /// failure is dropped.
    pub fn from_result(measured: Result<u64, DnsError>) -> (outcome: Outcome)
        ensures
            outcome == outcome_of(measured),
    {
        match measured {
            Ok(nanos) => Outcome::Success(nanos),
            Err(_) => Outcome::Failed,
        }
    }

    /// The measured time in whole milliseconds, if there is one.
    pub fn latency_millis(&self) -> (latency: Option<u64>)
        ensures
            latency == match *self {
                Outcome::Success(nanos) => Some(millis(nanos)),
                Outcome::Failed => None,
            },
    {
        match *self {
            Outcome::Success(nanos) => Some(nanos / NANOS_PER_MILLI),
            Outcome::Failed => None,
        }
    }
}

} // verus!

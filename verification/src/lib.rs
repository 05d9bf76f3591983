//! A deterministic discrete-event simulator for distributed systems.
//!
//! Simulated nodes communicate over a lossy, latency-inducing virtual
//! network.  The crate holds the simulation logic itself — address
//! parsing, the reachability topology, datagram buffers, port
//! accounting, the logical clock with its timer queue, the delivery
//! event queue, the cooperative task scheduler, and the drivers that
//! compose them — with the behaviour of each operation stated in its
//! contract.  Randomness (delivery delay and packet loss) comes from a
//! seeded generator of the `rand` crate behind narrow trusted wrappers,
//! so that a fixed seed yields a reproducible run.

pub mod addr;
pub mod addr6;
pub mod addr_laws;
pub mod datagram;
pub mod entropy;
pub mod events;
pub mod net;
pub mod ports;
pub mod runtime;
pub mod sim;
pub mod timers;
mod seq_util;
pub mod topology;

use vstd::prelude::*;

verus! {

/// A logical point in time, or a span of time, in nanoseconds.
///
/// The simulator has no wall clock: every node carries a logical
/// timestamp that only its time driver advances.
#[derive(Clone, Copy, PartialEq, Eq, Structural, Debug)]
pub struct Timestamp {
    pub nanos: u64,
}

pub const NANOS_PER_MILLI: u64 = 1000000;

pub const NANOS_PER_SEC: u64 = 1000000000;

impl Timestamp {
    pub fn from_nanos(nanos: u64) -> (r: Timestamp)
        ensures
            r.nanos == nanos,
    {
        Timestamp { nanos }
    }

    pub fn from_millis(millis: u64) -> (r: Timestamp)
        requires
            millis * NANOS_PER_MILLI <= u64::MAX,
        ensures
            r.nanos == millis * NANOS_PER_MILLI,
    {
        Timestamp { nanos: millis * NANOS_PER_MILLI }
    }

    pub fn from_secs(secs: u64) -> (r: Timestamp)
        requires
            secs * NANOS_PER_SEC <= u64::MAX,
        ensures
            r.nanos == secs * NANOS_PER_SEC,
    {
        Timestamp { nanos: secs * NANOS_PER_SEC }
    }

    pub fn zero() -> (r: Timestamp)
        ensures
            r.nanos == 0,
    {
        Timestamp { nanos: 0 }
    }

    /// Whether this timestamp is no later than `other`.
    pub fn le(&self, other: &Timestamp) -> (r: bool)
        ensures
            r == (self.nanos <= other.nanos),
    {
        self.nanos <= other.nanos
    }
}

/// The user-input failures of the simulator, mirroring the kinds of
/// I/O errors a real network stack reports.
#[derive(Clone, Copy, PartialEq, Eq, Structural, Debug)]
pub enum SimError {
    /// A name needed resolution (no DNS here), or a multicast,
    /// unspecified or otherwise unusable address was given.
    InvalidInput,
    /// A bind collided with an already-bound address, or no bindable
    /// address was available.
    AddrInUse,
    /// Resolution of a send target yielded no addresses.
    AddrNotAvailable,
}

impl SimError {
    /// A human-readable description of the error kind.  The value
    /// carries only the kind: the wording of a site-specific failure
    /// (a name that would need resolution, say) belongs to the site
    /// that reports it.
    pub fn message(&self) -> (r: &'static str)
        ensures
            *self == SimError::InvalidInput ==> r@ == "invalid input"@,
            *self == SimError::AddrInUse ==> r@ == "address already in use"@,
            *self == SimError::AddrNotAvailable ==> r@ == "address is not available"@,
    {
        match self {
            SimError::InvalidInput => "invalid input",
            SimError::AddrInUse => "address already in use",
            SimError::AddrNotAvailable => "address is not available",
        }
    }
}

} // verus!

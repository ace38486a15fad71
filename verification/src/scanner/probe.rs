use crate::types::ServerStatus;
use vstd::prelude::*;

verus! {

/// Result of a single probe attempt.
#[derive(Debug)]
pub struct ProbeResult {
    /// The IPv4 address probed, as its 32-bit value.
    pub addr: u32,
    pub port: u16,
    pub status: ServerStatus,
    /// Round-trip time of the status exchange, in nanoseconds.
    pub latency_nanos: u128,
}

} // verus!

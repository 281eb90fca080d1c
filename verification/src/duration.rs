//! A non-negative span of time with nanosecond resolution.

use vstd::prelude::*;

verus! {

pub const NANOS_PER_SEC: u32 = 1_000_000_000;

/// A non-negative elapsed time span: whole seconds plus a sub-second
/// remainder in nanoseconds. Well-formed values keep `nanos` strictly
/// below one second.
#[derive(Clone, Copy, Debug, PartialEq, Eq, Structural)]
pub struct Duration {
    pub secs: u64,
    pub nanos: u32,
}

impl Duration {
    /// The span as a single mathematical count of nanoseconds.
    pub open spec fn total_nanos(self) -> int {
        self.secs * (NANOS_PER_SEC as int) + self.nanos
    }

    /// A well-formed span carries less than a full second in `nanos`.
    pub open spec fn wf(self) -> bool {
        self.nanos < NANOS_PER_SEC
    }

    /// A span of exactly `secs` whole seconds.
    pub fn from_secs(secs: u64) -> (r: Duration)
        ensures
            r.wf(),
            r.secs == secs,
            r.nanos == 0,
            r.total_nanos() == secs * (NANOS_PER_SEC as int),
    {
        Duration { secs, nanos: 0 }
    }
}

} // verus!

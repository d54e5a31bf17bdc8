//! The time allowed for one connection attempt.

use vstd::prelude::*;

verus! {

/// Nanoseconds in one second.
pub const NANOS_PER_SEC: u32 = 1_000_000_000;

/// A positive span of time: whole seconds, and nanoseconds below one second.
#[derive(Clone, Copy, Debug, PartialEq, Eq, Structural)]
pub struct Timeout {
    pub secs: u64,
    pub nanos: u32,
}

impl Timeout {
    /// The nanoseconds stay below one second, and the span is not zero.
    pub open spec fn wf(self) -> bool {
        self.nanos < NANOS_PER_SEC && (self.secs > 0 || self.nanos > 0)
    }

    /// A timeout of `secs` seconds and `nanos` nanoseconds, if that is a
    /// positive span with `nanos` below one second.
    pub fn new(secs: u64, nanos: u32) -> (timeout: Option<Timeout>)
        ensures
            timeout == if (Timeout { secs, nanos }).wf() {
                Some(Timeout { secs, nanos })
            } else {
                None
            },
    {
        if nanos < NANOS_PER_SEC && (secs > 0 || nanos > 0) {
            Some(Timeout { secs, nanos })
        } else {
            None
        }
    }
}

} // verus!

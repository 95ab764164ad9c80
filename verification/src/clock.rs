//! Points in time, as the index records them.

use vstd::prelude::*;

verus! {

/// A point in time: whole seconds since the Unix epoch and the nanoseconds
/// within that second.
#[derive(Clone, Copy, Debug, PartialEq, Eq, Structural)]
pub struct Timestamp {
    pub secs: i64,
    pub nanos: u32,
}

/// Calls `chrono::Utc::now` and reads the result with `timestamp` and
/// `timestamp_subsec_nanos`. The value is the machine's clock; the contract
/// states the one thing that holds of every value `Utc::now` returns: it
/// makes the time from a whole number of seconds and a fraction of a second,
/// so the nanoseconds stay below one second. `Utc::now` does not return where
/// the clock stands before the Unix epoch.
#[verifier::external_body]
pub(crate) fn utc_now() -> (t: Timestamp)
    ensures
        t.within_second(),
{
    let now = chrono::Utc::now();
    Timestamp { secs: now.timestamp(), nanos: now.timestamp_subsec_nanos() }
}

impl Timestamp {
    /// `self` is strictly earlier than `other`.
    pub open spec fn earlier(self, other: Timestamp) -> bool {
        self.secs < other.secs || (self.secs == other.secs && self.nanos < other.nanos)
    }

    /// The nanoseconds are a fraction of the second that `secs` counts, not a
    /// second or more.
    pub open spec fn within_second(self) -> bool {
        self.nanos < 1_000_000_000
    }

    /// The current time, as whole seconds and the fraction of a second
    /// beyond them.
    pub fn now() -> (t: Timestamp)
        ensures
            t.within_second(),
    {
        utc_now()
    }

    /// Whether `self` is strictly earlier than `other`.
    pub fn is_earlier(&self, other: &Timestamp) -> (r: bool)
        ensures
            r == self.earlier(*other),
    {
        self.secs < other.secs || (self.secs == other.secs && self.nanos < other.nanos)
    }
}

} // verus!

use vstd::prelude::*;

verus! {

/// A point in time, as whole seconds and nanoseconds since the Unix epoch.
#[derive(Clone, Copy, Debug, PartialEq, Eq, Structural)]
pub struct Timestamp {
    pub secs: u64,
    pub nanos: u32,
}

/// `a` is no later than `b`.
pub open spec fn not_after(a: Timestamp, b: Timestamp) -> bool {
    a.secs < b.secs || (a.secs == b.secs && a.nanos <= b.nanos)
}

/// The later of two timestamps.
pub open spec fn latest(a: Timestamp, b: Timestamp) -> Timestamp {
    if not_after(a, b) {
        b
    } else {
        a
    }
}

impl Timestamp {
    pub fn new(secs: u64, nanos: u32) -> (r: Timestamp)
        ensures
            r.secs == secs,
            r.nanos == nanos,
    {
        Timestamp { secs, nanos }
    }

    /// The later of `self` and `other`.
    pub fn max(self, other: Timestamp) -> (r: Timestamp)
        ensures
            r == latest(self, other),
    {
        if self.secs < other.secs || (self.secs == other.secs && self.nanos <= other.nanos) {
            other
        } else {
            self
        }
    }

    /// Relies on `std::time::SystemTime::now`, read as the time elapsed since
    /// `UNIX_EPOCH`; a clock set before the epoch reads as the epoch itself.
    /// `Duration::subsec_nanos` is always below one billion.
    #[verifier::external_body]
    pub(crate) fn now() -> (r: Timestamp)
        ensures
            r.nanos < 1_000_000_000,
    {
        match std::time::SystemTime::now().duration_since(std::time::UNIX_EPOCH) {
            Ok(d) => Timestamp { secs: d.as_secs(), nanos: d.subsec_nanos() },
            Err(_) => Timestamp { secs: 0, nanos: 0 },
        }
    }
}

} // verus!

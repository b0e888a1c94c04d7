use vstd::prelude::*;

verus! {

/// A UTC instant: whole seconds since the Unix epoch, and the nanoseconds
/// elapsed within that second.
///
/// Instants are ordered by seconds first, then by nanoseconds. A leap second
/// is carried as a nanosecond count of a billion or more, which keeps that
/// order intact.
#[derive(Clone, Copy, Debug, PartialEq, Eq, Structural)]
pub struct Timestamp {
    pub secs: i64,
    pub nanos: u32,
}

impl Timestamp {
    /// `self` is the same instant as `other` or a later one.
    pub open spec fn spec_not_before(self, other: Timestamp) -> bool {
        self.secs > other.secs || (self.secs == other.secs && self.nanos >= other.nanos)
    }

    pub fn new(secs: i64, nanos: u32) -> (r: Timestamp)
        ensures
            r.secs == secs,
            r.nanos == nanos,
    {
        Timestamp { secs, nanos }
    }

    /// Whether `self` is the same instant as `other` or a later one.
    pub fn not_before(&self, other: &Timestamp) -> (r: bool)
        ensures
            r == self.spec_not_before(*other),
    {
        self.secs > other.secs || (self.secs == other.secs && self.nanos >= other.nanos)
    }

    /// The instant `secs` seconds before `self`, or `None` where that is
    /// not representable.
    pub fn minus_seconds(&self, secs: i64) -> (r: Option<Timestamp>)
        ensures
            match r {
                Some(t) => t.secs == self.secs - secs && t.nanos == self.nanos,
                None => !(i64::MIN <= self.secs - secs <= i64::MAX),
            },
    {
        let diff: i128 = self.secs as i128 - secs as i128;
        if diff < i64::MIN as i128 || diff > i64::MAX as i128 {
            None
        } else {
            Some(Timestamp { secs: diff as i64, nanos: self.nanos })
        }
    }
}

} // verus!

//! Points in time and spans of time, as whole seconds and nanoseconds.

use vstd::prelude::*;

verus! {

pub const NANOS_PER_SEC: u32 = 1_000_000_000;

/// A point in time, counted from the Unix epoch.
#[derive(Clone, Copy, Debug, PartialEq, Eq, Structural)]
pub struct Timestamp {
    pub secs: u64,
    pub nanos: u32,
}

/// A length of time, such as a time to live.
#[derive(Clone, Copy, Debug, PartialEq, Eq, Structural)]
pub struct Span {
    pub secs: u64,
    pub nanos: u32,
}

impl Timestamp {
    /// The epoch itself.
    pub fn epoch() -> (t: Self)
        ensures
            t == (Timestamp { secs: 0, nanos: 0 }),
    {
        Timestamp { secs: 0, nanos: 0 }
    }

    /// Nanoseconds since the epoch.
    pub open spec fn total(self) -> int {
        self.secs as int * 1_000_000_000 + self.nanos as int
    }

    pub fn new(secs: u64, nanos: u32) -> (t: Self)
        ensures
            t == (Timestamp { secs, nanos }),
    {
        Timestamp { secs, nanos }
    }

    /// Nanoseconds since the epoch, as a machine integer.
    pub fn total_nanos(&self) -> (n: u128)
        ensures
            n == self.total(),
    {
        self.secs as u128 * 1_000_000_000u128 + self.nanos as u128
    }

    /// Whether `self` lies strictly later than `other`.
    pub fn is_after(&self, other: &Timestamp) -> (b: bool)
        ensures
            b == (self.total() > other.total()),
    {
        self.total_nanos() > other.total_nanos()
    }

    /// The latest point that can be represented.
    pub open spec fn latest() -> Timestamp {
        Timestamp { secs: u64::MAX, nanos: u32::MAX }
    }

    /// `self` moved forward by `span`, or the latest point where that would
    /// leave the representable range.
    pub open spec fn plus_spec(self, span: Span) -> Timestamp {
        let sum = self.total() + span.total();
        if sum > Self::latest().total() {
            Self::latest()
        } else if sum / 1_000_000_000 > u64::MAX {
            Timestamp { secs: u64::MAX, nanos: (sum - u64::MAX * 1_000_000_000) as u32 }
        } else {
            Timestamp { secs: (sum / 1_000_000_000) as u64, nanos: (sum % 1_000_000_000) as u32 }
        }
    }

    /// Moves a point in time forward, saturating at the latest point.
    pub fn plus(&self, span: &Span) -> (t: Self)
        ensures
            t == self.plus_spec(*span),
            t.total() == if self.total() + span.total() > Self::latest().total() {
                Self::latest().total()
            } else {
                self.total() + span.total()
            },
    {
        let sum: u128 = self.total_nanos() + span.total_nanos();
        let top: u128 = u64::MAX as u128 * 1_000_000_000u128;
        let limit: u128 = top + u32::MAX as u128;
        if sum > limit {
            Timestamp { secs: u64::MAX, nanos: u32::MAX }
        } else if sum / 1_000_000_000u128 > u64::MAX as u128 {
            let rest: u128 = sum - top;
            Timestamp { secs: u64::MAX, nanos: rest as u32 }
        } else {
            let secs: u128 = sum / 1_000_000_000u128;
            let nanos: u128 = sum % 1_000_000_000u128;
            Timestamp { secs: secs as u64, nanos: nanos as u32 }
        }
    }

    /// The time left from `now` until `self`, if `self` is not yet past.
    pub open spec fn remaining_spec(self, now: Timestamp) -> Option<Span> {
        let left = self.total() - now.total();
        if left < 0 {
            None
        } else if left / 1_000_000_000 > u64::MAX {
            Some(Span { secs: u64::MAX, nanos: (left - u64::MAX * 1_000_000_000) as u32 })
        } else {
            Some(Span { secs: (left / 1_000_000_000) as u64, nanos: (left % 1_000_000_000) as u32 })
        }
    }

    /// The time left from `now` until `self`: `None` once `self` is past.
    pub fn remaining(&self, now: &Timestamp) -> (r: Option<Span>)
        ensures
            r == self.remaining_spec(*now),
            r is Some <==> self.total() >= now.total(),
            r matches Some(s) ==> s.total() == self.total() - now.total(),
    {
        let a: u128 = self.total_nanos();
        let b: u128 = now.total_nanos();
        let top: u128 = u64::MAX as u128 * 1_000_000_000u128;
        if a < b {
            None
        } else if (a - b) / 1_000_000_000u128 > u64::MAX as u128 {
            let rest: u128 = a - b - top;
            Some(Span { secs: u64::MAX, nanos: rest as u32 })
        } else {
            let left: u128 = a - b;
            let secs: u128 = left / 1_000_000_000u128;
            let nanos: u128 = left % 1_000_000_000u128;
            Some(Span { secs: secs as u64, nanos: nanos as u32 })
        }
    }
}

impl Span {
    /// The span in nanoseconds.
    pub open spec fn total(self) -> int {
        self.secs as int * 1_000_000_000 + self.nanos as int
    }

    pub fn new(secs: u64, nanos: u32) -> (s: Self)
        ensures
            s == (Span { secs, nanos }),
    {
        Span { secs, nanos }
    }

    /// A span of so many milliseconds.
    pub fn from_millis(millis: u64) -> (s: Self)
        ensures
            s.total() == millis as int * 1_000_000,
    {
        let rest: u64 = millis % 1000;
        let nanos: u64 = rest * 1_000_000;
        Span { secs: millis / 1000, nanos: nanos as u32 }
    }

    /// The span in nanoseconds, as a machine integer.
    pub fn total_nanos(&self) -> (n: u128)
        ensures
            n == self.total(),
    {
        self.secs as u128 * 1_000_000_000u128 + self.nanos as u128
    }
}

/// Reads the system clock through `std::time::SystemTime::now` and
/// `duration_since(UNIX_EPOCH)`. Nothing is promised of the reading: two
/// calls may go backwards, and a clock set before the epoch reads as the
/// epoch.
#[verifier::external_body]
pub(crate) fn now() -> (t: Timestamp) {
    match std::time::SystemTime::now().duration_since(std::time::UNIX_EPOCH) {
        Ok(d) => Timestamp { secs: d.as_secs(), nanos: d.subsec_nanos() },
        Err(_) => Timestamp { secs: 0, nanos: 0 },
    }
}

/// Splits a `std::time::Duration` into `as_secs` and `subsec_nanos`. The
/// fractional part is below one second, as the standard library documents.
#[verifier::external_body]
pub(crate) fn span_of(d: core::time::Duration) -> (s: Span)
    ensures
        s.nanos < NANOS_PER_SEC,
{
    Span { secs: d.as_secs(), nanos: d.subsec_nanos() }
}

} // verus!

//! Instants and offsets, as plain numbers.

use vstd::prelude::*;

verus! {

/// An instant in UTC: whole seconds since the Unix epoch, and nanoseconds
/// into that second.
#[derive(Clone, Copy, Debug, PartialEq, Eq, Structural)]
pub struct Timestamp {
    pub secs: i64,
    pub nanos: i32,
}

impl Timestamp {
    /// `self` is earlier than `other`.
    pub open spec fn earlier(self, other: Timestamp) -> bool {
        self.secs < other.secs || (self.secs == other.secs && self.nanos < other.nanos)
    }

    /// `self` is not later than `other`.
    pub open spec fn at_or_earlier(self, other: Timestamp) -> bool {
        !other.earlier(self)
    }

    /// Nanoseconds since the epoch.
    pub open spec fn instant(self) -> int {
        self.secs * 1_000_000_000 + self.nanos
    }

    /// The instant `secs` seconds after the epoch.
    pub fn from_secs(secs: i64) -> (r: Timestamp)
        ensures
            r == (Timestamp { secs, nanos: 0 }),
    {
        Timestamp { secs, nanos: 0 }
    }

    /// Whether `self` is earlier than `other`.
    pub fn is_earlier(&self, other: &Timestamp) -> (r: bool)
        ensures
            r == self.earlier(*other),
    {
        self.secs < other.secs || (self.secs == other.secs && self.nanos < other.nanos)
    }

    /// Whether `self` is not later than `other`.
    pub fn is_at_or_earlier(&self, other: &Timestamp) -> (r: bool)
        ensures
            r == self.at_or_earlier(*other),
    {
        !other.is_earlier(self)
    }
}

/// A non-negative length of time.
#[derive(Clone, Copy, Debug, PartialEq, Eq, Structural)]
pub struct Offset {
    pub secs: u64,
    pub nanos: u32,
}

impl Offset {
    /// The length in nanoseconds.
    pub open spec fn length(self) -> int {
        self.secs * 1_000_000_000 + self.nanos
    }

    /// No time at all.
    pub fn zero() -> (r: Offset)
        ensures
            r == (Offset { secs: 0, nanos: 0 }),
    {
        Offset { secs: 0, nanos: 0 }
    }

    /// A whole number of seconds.
    pub fn from_secs(secs: u64) -> (r: Offset)
        ensures
            r == (Offset { secs, nanos: 0 }),
    {
        Offset { secs, nanos: 0 }
    }
}

} // verus!

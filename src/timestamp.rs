//! Points in time and the ingest watermark.

use vstd::prelude::*;

verus! {

/// A point in time: whole seconds since 1970-01-01T00:00:00 and the
/// sub-second part in nanoseconds.
#[derive(Clone, Copy, Debug, PartialEq, Eq, Structural)]
pub struct Timestamp {
    pub secs: i64,
    pub nanos: u32,
}

/// Seconds from 1970-01-01T00:00:00 to 2000-01-01T00:00:00.
pub const START_OF_2000_SECS: i64 = 946_684_800;

impl Timestamp {
    /// Chronological order: seconds first, then the sub-second part.
    pub open spec fn no_later_than(self, other: Timestamp) -> bool {
        self.secs < other.secs || (self.secs == other.secs && self.nanos <= other.nanos)
    }

    /// The later of two points in time.
    pub open spec fn later_spec(self, other: Timestamp) -> Timestamp {
        if self.no_later_than(other) {
            other
        } else {
            self
        }
    }

    pub fn is_no_later_than(&self, other: &Timestamp) -> (r: bool)
        ensures
            r == self.no_later_than(*other),
    {
        self.secs < other.secs || (self.secs == other.secs && self.nanos <= other.nanos)
    }

    pub fn later(self, other: Timestamp) -> (r: Timestamp)
        ensures
            r == self.later_spec(other),
    {
        if self.is_no_later_than(&other) {
            other
        } else {
            self
        }
    }
}

/// The cursor value used when none has been stored yet: 2000-01-01T00:00:00.
pub open spec fn default_watermark_spec() -> Timestamp {
    Timestamp { secs: START_OF_2000_SECS, nanos: 0 }
}

/// The last-processed change time of the incremental ingest.
#[derive(Clone, Copy, Debug, PartialEq, Eq, Structural)]
pub struct Watermark {
    pub value: Timestamp,
}

impl Watermark {
    /// The cursor as read from storage: the stored value, or the fixed
    /// default when nothing has been stored.
    pub fn from_stored(stored: Option<Timestamp>) -> (w: Watermark)
        ensures
            w.value == match stored {
                Some(t) => t,
                None => default_watermark_spec(),
            },
    {
        match stored {
            Some(t) => Watermark { value: t },
            None => Watermark { value: Timestamp { secs: START_OF_2000_SECS, nanos: 0 } },
        }
    }

    pub fn get(&self) -> (r: Timestamp)
        ensures
            r == self.value,
    {
        self.value
    }

    /// Moves the cursor to `t`, unless it already stands later than `t`.
    pub fn advance(&mut self, t: Timestamp)
        ensures
            final(self).value == old(self).value.later_spec(t),
            old(self).value.no_later_than(final(self).value),
            t.no_later_than(final(self).value),
    {
        self.value = self.value.later(t);
    }
}

/// Advancing never moves the cursor back: after `advance(t)` the cursor is
/// no earlier than before and no earlier than `t`, whatever `t` is.
pub proof fn lemma_advance_never_decreases(w: Watermark, t: Timestamp)
    ensures
        w.value.no_later_than(w.value.later_spec(t)),
        t.no_later_than(w.value.later_spec(t)),
        t.no_later_than(w.value) ==> w.value.later_spec(t) == w.value,
{
}

} // verus!

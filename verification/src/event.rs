//! Events and the errors that reject them.

use vstd::prelude::*;

verus! {

/// Why an input was turned down.
#[derive(Clone, Copy, Debug, PartialEq, Eq, Structural)]
pub enum LayoutError {
    /// A flat buffer whose length is not a whole number of event records.
    MalformedInput,
    /// An event whose start is not strictly before its end.
    InvalidInterval,
}

/// A half-open time interval `[start, end)` with an identifier.
#[derive(Clone, Copy, Debug, PartialEq, Eq, Structural)]
pub struct Event {
    pub id: u64,
    pub start: u64,
    pub end: u64,
}

impl Event {
    /// The event covers a non-empty stretch of time.
    pub open spec fn is_valid(self) -> bool {
        self.start < self.end
    }

    /// The event does not end before it starts; an instant (`start == end`) qualifies.
    pub open spec fn is_span(self) -> bool {
        self.start <= self.end
    }

    /// Half-open overlap: an event that ends exactly when another begins does
    /// not overlap it.
    pub open spec fn overlaps(self, other: Event) -> bool {
        self.start < other.end && other.start < self.end
    }

    /// Builds an event, refusing an interval that is empty or reversed.
    pub fn new(id: u64, start: u64, end: u64) -> (made: Result<Event, LayoutError>)
        ensures
            start < end ==> made == Ok::<Event, LayoutError>(Event { id, start, end }),
            start >= end ==> made == Err::<Event, LayoutError>(LayoutError::InvalidInterval),
    {
        if start >= end {
            return Err(LayoutError::InvalidInterval);
        }
        Ok(Event { id, start, end })
    }
}

/// Every event of the sequence is a span.
pub open spec fn all_spans(events: Seq<Event>) -> bool {
    forall|i: int| 0 <= i < events.len() ==> (#[trigger] events[i]).is_span()
}

/// Every event of the sequence is valid.
pub open spec fn all_valid(events: Seq<Event>) -> bool {
    forall|i: int| 0 <= i < events.len() ==> (#[trigger] events[i]).is_valid()
}

} // verus!

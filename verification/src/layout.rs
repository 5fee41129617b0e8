//! The result of laying out a group.

use vstd::prelude::*;
use crate::event::Event;

verus! {

/// Where one event sits inside its group.
///
/// `top`, `height` and `bottom` are lengths of time: from the group's start
/// to the event's start, from the event's start to its end, and from the
/// event's end to the group's end. Each of them over the group's span is the
/// event's fraction of the group; together they make up the whole span.
/// A group of one instant has the span zero: all three lengths are zero
/// then, and so are the fractions to be taken.
#[derive(Clone, Copy, Debug, PartialEq, Eq, Structural)]
pub struct EventLayout {
    pub top: u64,
    pub bottom: u64,
    pub height: u64,
    pub column: usize,
    pub event: Event,
}

/// A laid-out group: its bounds, the number of its columns, and its events
/// column by column, each column in the order in which it was filled.
#[derive(Clone, Debug)]
pub struct LayoutGroup {
    pub start: u64,
    pub end: u64,
    pub column_count: usize,
    pub items: Vec<EventLayout>,
}

/// A laid-out group as a mathematical value.
pub struct LayoutGroupView {
    pub start: u64,
    pub end: u64,
    pub column_count: usize,
    pub items: Seq<EventLayout>,
}

impl View for LayoutGroup {
    type V = LayoutGroupView;

    /// The laid-out group as a mathematical value.
    open spec fn view(&self) -> LayoutGroupView {
        LayoutGroupView {
            start: self.start,
            end: self.end,
            column_count: self.column_count,
            items: self.items@,
        }
    }
}

/// The place of `event` in column `column` of a group from `start` to `end`.
pub open spec fn seat(event: Event, column: usize, start: u64, end: u64) -> EventLayout {
    EventLayout {
        top: (event.start - start) as u64,
        bottom: (end - event.end) as u64,
        height: (event.end - event.start) as u64,
        column,
        event,
    }
}

impl LayoutGroupView {
    /// The events of the group, in the order of its items.
    pub open spec fn events(self) -> Seq<Event> {
        Seq::new(self.items.len(), |k: int| self.items[k].event)
    }

    /// Every item holds the lengths from the group's start to the event's
    /// start, from there to the event's end, and from there to the group's
    /// end.
    pub open spec fn seats_exact(self) -> bool {
        forall|k: int|
            0 <= k < self.items.len() ==> #[trigger] self.items[k] == seat(
                self.items[k].event,
                self.items[k].column,
                self.start,
                self.end,
            ) && self.start <= self.items[k].event.start <= self.items[k].event.end <= self.end
    }

    /// The bounds are the earliest start and the latest end among the events.
    pub open spec fn bounds_met(self) -> bool {
        &&& exists|k: int| 0 <= k < self.items.len() && (#[trigger] self.items[k]).event.start == self.start
        &&& exists|k: int| 0 <= k < self.items.len() && (#[trigger] self.items[k]).event.end == self.end
    }

    /// The items come column by column, and no column is empty.
    pub open spec fn column_major(self) -> bool {
        &&& self.column_count > 0
        &&& forall|a: int, b: int|
            0 <= a <= b < self.items.len() ==> (#[trigger] self.items[a]).column <= (
            #[trigger] self.items[b]).column
        &&& forall|c: int| 0 <= c < self.column_count ==> #[trigger] self.occupies(c)
    }

    /// Some item sits in column `c`.
    pub open spec fn occupies(self, c: int) -> bool {
        exists|k: int| 0 <= k < self.items.len() && (#[trigger] self.items[k]).column == c
    }

    /// The three lengths of every item make up the group's span.
    pub open spec fn fractions_sum(self) -> bool {
        forall|k: int|
            0 <= k < self.items.len() ==> (#[trigger] self.items[k]).top + self.items[k].height
                + self.items[k].bottom == self.end - self.start
    }

    /// No two items of one column overlap.
    pub open spec fn columns_clear(self) -> bool {
        forall|a: int, b: int|
            0 <= a < b < self.items.len() && (#[trigger] self.items[a]).column == (
            #[trigger] self.items[b]).column ==> !self.items[a].event.overlaps(
                self.items[b].event,
            )
    }

    /// Of two items in one column, the earlier one ends before the later one starts.
    pub open spec fn columns_ordered(self) -> bool {
        forall|a: int, b: int|
            0 <= a < b < self.items.len() && (#[trigger] self.items[a]).column == (
            #[trigger] self.items[b]).column ==> self.items[a].event.end
                <= self.items[b].event.start
    }

    /// Every item names one of the group's columns.
    pub open spec fn columns_in_range(self) -> bool {
        forall|k: int|
            0 <= k < self.items.len() ==> (#[trigger] self.items[k]).column < self.column_count
    }
}

/// The views of a sequence of laid-out groups.
pub open spec fn layout_views(groups: Seq<LayoutGroup>) -> Seq<LayoutGroupView> {
    Seq::new(groups.len(), |g: int| groups[g]@)
}

} // verus!

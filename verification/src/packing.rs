//! The mathematical model of a group and of the two ways to pack it.

use vstd::prelude::*;
use crate::event::Event;
use crate::layout::{seat, EventLayout, LayoutGroupView};
use crate::rect::{carve, first_fit, vacancies, FreeRect};

verus! {

/// How a group chooses the column of a new event.
///
/// On valid events, which end after they start, both policies choose the
/// same columns (`agreement::lemma_policies_agree`), and no packing gets by
/// with fewer (`fewest::lemma_fewest_columns`). An instant may find room
/// under `RectangleReuse` in a gap that `GreedyAppend` does not look at.
#[derive(Clone, Copy, Debug, PartialEq, Eq, Structural)]
pub enum PackingPolicy {
    /// First fit among the tracked vacant stretches of all columns; when
    /// none fits, the stretches are computed afresh and tried once more.
    RectangleReuse,
    /// The first column whose last event has ended by the new event's start.
    GreedyAppend,
}

/// The columns with `event` appended to column `c`.
pub open spec fn place(columns: Seq<Seq<Event>>, c: int, event: Event) -> Seq<Seq<Event>> {
    columns.update(c, columns[c].push(event))
}

/// Column `c` has ended by the start of `event`.
pub open spec fn is_open_for(columns: Seq<Seq<Event>>, c: int, event: Event) -> bool {
    columns[c].len() > 0 && columns[c].last().end <= event.start
}

/// `c` is the first column that has ended by the start of `event`.
pub open spec fn is_first_open(columns: Seq<Seq<Event>>, event: Event, c: int) -> bool {
    &&& 0 <= c < columns.len()
    &&& is_open_for(columns, c, event)
    &&& forall|b: int| 0 <= b < c ==> !is_open_for(columns, b, event)
}

/// The first column that has ended by the start of `event`, if there is one.
pub open spec fn first_open(columns: Seq<Seq<Event>>, event: Event) -> Option<int> {
    if exists|c: int| is_first_open(columns, event, c) {
        Some(choose|c: int| is_first_open(columns, event, c))
    } else {
        None
    }
}

/// `after` is `before` with `event` appended to one column or alone in a new one.
pub open spec fn grows_by(before: Seq<Seq<Event>>, after: Seq<Seq<Event>>, event: Event) -> bool {
    ||| after == before.push(seq![event])
    ||| exists|c: int| 0 <= c < before.len() && after == #[trigger] place(before, c, event)
}

/// Every event is a span, and each column lists its events by start.
pub open spec fn columns_tidy(columns: Seq<Seq<Event>>) -> bool {
    &&& columns.len() <= usize::MAX
    &&& forall|c: int| 0 <= c < columns.len() ==> (#[trigger] columns[c]).len() > 0
    &&& forall|c: int, i: int|
        0 <= c < columns.len() && 0 <= i < columns[c].len() ==> (#[trigger] columns[c][i]).is_span()
    &&& forall|c: int, i: int, j: int|
        0 <= c < columns.len() && 0 <= i < j < columns[c].len() ==> (
        #[trigger] columns[c][i]).start <= (#[trigger] columns[c][j]).start
}

/// No two events of one column overlap.
pub open spec fn columns_clear(columns: Seq<Seq<Event>>) -> bool {
    forall|c: int, i: int, j: int|
        0 <= c < columns.len() && 0 <= i < j < columns[c].len() ==> !(
        #[trigger] columns[c][i]).overlaps(#[trigger] columns[c][j])
}

/// In every column each event ends before the next one starts.
pub open spec fn columns_chained(columns: Seq<Seq<Event>>) -> bool {
    forall|c: int, i: int, j: int|
        0 <= c < columns.len() && 0 <= i < j < columns[c].len() ==> (
        #[trigger] columns[c][i]).end <= (#[trigger] columns[c][j]).start
}

/// Every stretch is open, lies in a column that exists, shares no time with
/// an event of its column, and none with another stretch of its column.
pub open spec fn rects_sound(columns: Seq<Seq<Event>>, rects: Seq<FreeRect>) -> bool {
    &&& forall|k: int|
        0 <= k < rects.len() ==> (#[trigger] rects[k]).is_open() && rects[k].column_index
            < columns.len()
    &&& forall|k: int, i: int|
        0 <= k < rects.len() && 0 <= i < columns[rects[k].column_index as int].len()
            ==> rects[k].clear_of(#[trigger] columns[rects[k].column_index as int][i])
    &&& forall|a: int, b: int|
        0 <= a < b < rects.len() && (#[trigger] rects[a]).column_index == (
        #[trigger] rects[b]).column_index ==> rects[a].apart(rects[b])
}

/// A group as a mathematical value: its bounds, its columns, the vacant
/// stretches it keeps track of, and the way it packs.
pub struct GroupView {
    pub start: u64,
    pub end: u64,
    pub columns: Seq<Seq<Event>>,
    pub free: Seq<FreeRect>,
    pub policy: PackingPolicy,
}

impl GroupView {
    /// The group without events. Its bounds are the neutral values of
    /// minimum and maximum, so it overlaps nothing.
    pub open spec fn empty(policy: PackingPolicy) -> GroupView {
        GroupView {
            start: u64::MAX,
            end: 0,
            columns: Seq::empty(),
            free: Seq::empty(),
            policy,
        }
    }

    /// The events of the group, column by column.
    pub open spec fn members(self) -> Seq<Event> {
        self.columns.flatten()
    }

    /// The span of the group overlaps `event`.
    pub open spec fn overlaps(self, event: Event) -> bool {
        self.start < event.end && event.start < self.end
    }

    /// Every member is a valid event.
    pub open spec fn members_valid(self) -> bool {
        forall|c: int, i: int|
            0 <= c < self.columns.len() && 0 <= i < self.columns[c].len() ==> (
            #[trigger] self.columns[c][i]).is_valid()
    }

    /// Every member has started by `time`.
    pub open spec fn started_by(self, time: u64) -> bool {
        forall|c: int, i: int|
            0 <= c < self.columns.len() && 0 <= i < self.columns[c].len() ==> (
            #[trigger] self.columns[c][i]).start <= time
    }

    /// `event` may join: it is a span and starts no earlier than any member.
    pub open spec fn admits(self, event: Event) -> bool {
        event.is_span() && self.started_by(event.start)
    }

    /// The bounds enclose every member.
    pub open spec fn bounds_enclose(self) -> bool {
        forall|c: int, i: int|
            0 <= c < self.columns.len() && 0 <= i < self.columns[c].len() ==> self.start <= (
            #[trigger] self.columns[c][i]).start && self.columns[c][i].end <= self.end
    }

    /// The bounds are the earliest start and the latest end among the members.
    pub open spec fn bounds_met(self) -> bool {
        if self.columns.len() == 0 {
            self.start == u64::MAX && self.end == 0
        } else {
            &&& exists|c: int, i: int|
                0 <= c < self.columns.len() && 0 <= i < self.columns[c].len() && (
                #[trigger] self.columns[c][i]).start == self.start
            &&& exists|c: int, i: int|
                0 <= c < self.columns.len() && 0 <= i < self.columns[c].len() && (
                #[trigger] self.columns[c][i]).end == self.end
        }
    }

    /// What holds of every group that was built by adding admitted events
    /// to an empty one.
    pub open spec fn wf(self) -> bool {
        &&& columns_tidy(self.columns)
        &&& columns_clear(self.columns)
        &&& self.bounds_enclose()
        &&& self.bounds_met()
        &&& rects_sound(self.columns, self.free)
        &&& self.policy == PackingPolicy::GreedyAppend ==> self.free.len() == 0 && columns_chained(
            self.columns,
        )
    }

    /// The start of the group once `event` has joined: the earlier of the two starts.
    pub open spec fn start_with(self, event: Event) -> u64 {
        if event.start < self.start {
            event.start
        } else {
            self.start
        }
    }

    /// The end of the group once `event` has joined: the later of the two ends.
    pub open spec fn end_with(self, event: Event) -> u64 {
        if event.end > self.end {
            event.end
        } else {
            self.end
        }
    }

    /// The group with `event` in the column of stretch `k` of `rects`, which
    /// become the tracked stretches, less the room of `event`.
    pub open spec fn settle(self, rects: Seq<FreeRect>, k: int, event: Event) -> GroupView {
        GroupView {
            start: self.start_with(event),
            end: self.end_with(event),
            columns: place(self.columns, rects[k].column_index as int, event),
            free: carve(rects, k, event),
            policy: self.policy,
        }
    }

    /// The group with `event` alone in a new column.
    pub open spec fn open_column(self, event: Event) -> GroupView {
        GroupView {
            start: self.start_with(event),
            end: self.end_with(event),
            columns: self.columns.push(seq![event]),
            free: self.free,
            policy: self.policy,
        }
    }

    /// First fit with reuse. The event goes into the first tracked stretch
    /// that holds it. If none does, the stretches of all columns are computed
    /// afresh, within the bounds stretched to the event, and the event goes
    /// into the first of those that holds it; they are then the tracked ones.
    /// If none of those does either, the event opens a new column and the
    /// tracked stretches stay as they were.
    pub open spec fn add_reusing(self, event: Event) -> GroupView {
        match first_fit(self.free, event) {
            Some(k) => self.settle(self.free, k, event),
            None => {
                let fresh = vacancies(self.columns, self.start_with(event), self.end_with(event));
                match first_fit(fresh, event) {
                    Some(k) => self.settle(fresh, k, event),
                    None => self.open_column(event),
                }
            },
        }
    }

    /// Greedy append. The event goes behind the last event of the first
    /// column that has ended by its start; if there is none, it opens a new
    /// column. No vacant stretch is tracked.
    pub open spec fn add_appending(self, event: Event) -> GroupView {
        GroupView {
            start: self.start_with(event),
            end: self.end_with(event),
            columns: match first_open(self.columns, event) {
                Some(c) => place(self.columns, c, event),
                None => self.columns.push(seq![event]),
            },
            free: Seq::empty(),
            policy: self.policy,
        }
    }

    /// The group after `event` has joined it, under the group's policy.
    pub open spec fn add(self, event: Event) -> GroupView {
        match self.policy {
            PackingPolicy::RectangleReuse => self.add_reusing(event),
            PackingPolicy::GreedyAppend => self.add_appending(event),
        }
    }

    /// The places of the members, column by column.
    pub open spec fn seats(self) -> Seq<Seq<EventLayout>> {
        Seq::new(
            self.columns.len(),
            |c: int|
                Seq::new(
                    self.columns[c].len(),
                    |i: int| seat(self.columns[c][i], c as usize, self.start, self.end),
                ),
        )
    }

    /// The layout of the group: its bounds, the number of its columns, and
    /// the places of its members in column-major order.
    pub open spec fn layout(self) -> LayoutGroupView {
        LayoutGroupView {
            start: self.start,
            end: self.end,
            column_count: self.columns.len() as usize,
            items: self.seats().flatten(),
        }
    }
}

} // verus!

//! A group of overlapping events, packed into columns as the events arrive.

use vstd::prelude::*;
use crate::event::Event;
use crate::invariants::{
    lemma_add_shape, lemma_add_started, lemma_add_wf, lemma_empty_wf, lemma_vacancies_sound,
};
use crate::layout::{EventLayout, LayoutGroup};
use crate::packing::{grows_by, is_first_open, is_open_for, place, GroupView, PackingPolicy};
use crate::rect::{carve_out, column_views, find_fit, vacant_rects, FreeRect};

verus! {

/// A cluster of events under construction.
///
/// Events join in sweep order. The group keeps its bounds, its columns, and,
/// under `PackingPolicy::RectangleReuse`, the vacant stretches it knows of.
#[derive(Debug)]
pub struct Group {
    start: u64,
    end: u64,
    columns_of_events: Vec<Vec<Event>>,
    free_rects: Vec<FreeRect>,
    policy: PackingPolicy,
}

impl View for Group {
    type V = GroupView;

    /// The group as a mathematical value.
    closed spec fn view(&self) -> GroupView {
        GroupView {
            start: self.start,
            end: self.end,
            columns: column_views(self.columns_of_events@),
            free: self.free_rects@,
            policy: self.policy,
        }
    }
}

impl Group {
    /// An empty group that packs by first fit with reuse.
    pub fn new() -> (group: Group)
        ensures
            group@ == GroupView::empty(PackingPolicy::RectangleReuse),
            group@.wf(),
    {
        Group::with_policy(PackingPolicy::RectangleReuse)
    }

    /// An empty group that packs by `policy`.
    pub fn with_policy(policy: PackingPolicy) -> (group: Group)
        ensures
            group@ == GroupView::empty(policy),
            group@.wf(),
    {
        let group = Group {
            start: u64::MAX,
            end: 0,
            columns_of_events: Vec::new(),
            free_rects: Vec::new(),
            policy,
        };
        proof {
            lemma_empty_wf(policy);
            assert(group@.columns =~= Seq::<Seq<Event>>::empty());
        }
        group
    }

    /// The earliest start among the members.
    pub fn start(&self) -> (start: u64)
        ensures
            start == self@.start,
    {
        self.start
    }

    /// The latest end among the members.
    pub fn end(&self) -> (end: u64)
        ensures
            end == self@.end,
    {
        self.end
    }

    /// The number of columns.
    pub fn column_count(&self) -> (count: usize)
        ensures
            count == self@.columns.len(),
    {
        self.columns_of_events.len()
    }

    /// The columns, each in the order in which it was filled.
    pub fn columns(&self) -> (columns: &Vec<Vec<Event>>)
        ensures
            column_views(columns@) == self@.columns,
    {
        &self.columns_of_events
    }

    /// The vacant stretches that the group keeps track of.
    pub fn free_rects(&self) -> (rects: &Vec<FreeRect>)
        ensures
            rects@ == self@.free,
    {
        &self.free_rects
    }

    /// The way the group packs.
    pub fn policy(&self) -> (policy: PackingPolicy)
        ensures
            policy == self@.policy,
    {
        self.policy
    }

    /// Whether the span of the group overlaps `event`.
    pub fn is_overlap(&self, event: &Event) -> (overlap: bool)
        ensures
            overlap == self@.overlaps(*event),
    {
        self.start < event.end && event.start < self.end
    }

    /// Appends `event` to column `c`.
    fn put(&mut self, c: usize, event: Event)
        requires
            c < old(self)@.columns.len(),
        ensures
            final(self)@.columns == place(old(self)@.columns, c as int, event),
            final(self)@.start == old(self)@.start,
            final(self)@.end == old(self)@.end,
            final(self)@.free == old(self)@.free,
            final(self)@.policy == old(self)@.policy,
    {
        self.columns_of_events[c].push(event);
        assert(self@.columns =~= place(old(self)@.columns, c as int, event));
    }

    /// Opens a new column that holds `event` alone.
    fn open(&mut self, event: Event)
        ensures
            final(self)@.columns == old(self)@.columns.push(seq![event]),
            final(self)@.start == old(self)@.start,
            final(self)@.end == old(self)@.end,
            final(self)@.free == old(self)@.free,
            final(self)@.policy == old(self)@.policy,
    {
        let mut column: Vec<Event> = Vec::new();
        column.push(event);
        assert(column@ =~= seq![event]);
        self.columns_of_events.push(column);
        assert(self@.columns =~= old(self)@.columns.push(seq![event]));
    }

    /// Stretches the bounds to take in `event`.
    fn stretch_to(&mut self, event: &Event)
        ensures
            final(self)@.start == old(self)@.start_with(*event),
            final(self)@.end == old(self)@.end_with(*event),
            final(self)@.columns == old(self)@.columns,
            final(self)@.free == old(self)@.free,
            final(self)@.policy == old(self)@.policy,
    {
        if event.start < self.start {
            self.start = event.start;
        }
        if event.end > self.end {
            self.end = event.end;
        }
    }

    /// Places `event` by first fit with reuse.
    fn add_reusing(&mut self, event: Event)
        requires
            old(self)@.wf(),
        ensures
            final(self)@ == old(self)@.add_reusing(event),
    {
        match find_fit(&self.free_rects, &event) {
            Some(k) => {
                let c = self.free_rects[k].column_index;
                assert(self@.free[k as int].is_open());
                self.put(c, event);
                carve_out(&mut self.free_rects, k, &event);
            },
            None => {
                let lo = if event.start < self.start {
                    event.start
                } else {
                    self.start
                };
                let hi = if event.end > self.end {
                    event.end
                } else {
                    self.end
                };
                let mut fresh = vacant_rects(&self.columns_of_events, lo, hi);
                proof {
                    lemma_vacancies_sound(self@.columns, lo, hi);
                }
                match find_fit(&fresh, &event) {
                    Some(k) => {
                        let c = fresh[k].column_index;
                        assert(fresh@[k as int].is_open());
                        self.put(c, event);
                        carve_out(&mut fresh, k, &event);
                        self.free_rects = fresh;
                    },
                    None => {
                        self.open(event);
                    },
                }
            },
        }
        self.stretch_to(&event);
    }

    /// Finds the first column that has ended by the start of `event`.
    fn find_open(&self, event: &Event) -> (found: Option<usize>)
        ensures
            match found {
                Some(c) => is_first_open(self@.columns, *event, c as int),
                None => forall|b: int|
                    0 <= b < self@.columns.len() ==> !is_open_for(self@.columns, b, *event),
            },
    {
        let mut c: usize = 0;
        while c < self.columns_of_events.len()
            invariant
                c <= self.columns_of_events.len(),
                forall|b: int| 0 <= b < c ==> !is_open_for(self@.columns, b, *event),
            decreases self.columns_of_events.len() - c,
        {
            let column = &self.columns_of_events[c];
            assert(self@.columns[c as int] == column@);
            if column.len() > 0 && column[column.len() - 1].end <= event.start {
                return Some(c);
            }
            c += 1;
        }
        None
    }

    /// Places `event` by greedy append.
    fn add_appending(&mut self, event: Event)
        ensures
            final(self)@ == old(self)@.add_appending(event),
    {
        match self.find_open(&event) {
            Some(c) => {
                proof {
                    let chosen = choose|b: int| is_first_open(self@.columns, event, b);
                    assert(chosen == c);
                }
                self.put(c, event);
            },
            None => {
                self.open(event);
            },
        }
        self.free_rects = Vec::new();
        self.stretch_to(&event);
    }

    /// The layout of the group as it stands.
    pub fn calc_layout(&self) -> (laid: LayoutGroup)
        requires
            self@.wf(),
        ensures
            laid@ == self@.layout(),
    {
        let ghost seats = self@.seats();
        let mut items: Vec<EventLayout> = Vec::new();
        let mut c: usize = 0;
        while c < self.columns_of_events.len()
            invariant
                self@.wf(),
                seats == self@.seats(),
                c <= self.columns_of_events.len(),
                items@ == seats.take(c as int).flatten(),
            decreases self.columns_of_events.len() - c,
        {
            let column = &self.columns_of_events[c];
            let ghost base = items@;
            assert(self@.columns[c as int] == column@);
            let mut i: usize = 0;
            while i < column.len()
                invariant
                    self@.wf(),
                    seats == self@.seats(),
                    c < self.columns_of_events.len(),
                    self@.columns[c as int] == column@,
                    i <= column.len(),
                    items@ == base + seats[c as int].take(i as int),
                decreases column.len() - i,
            {
                let event = column[i];
                assert(self@.columns[c as int][i as int].is_span());
                items.push(
                    EventLayout {
                        top: event.start - self.start,
                        bottom: self.end - event.end,
                        height: event.end - event.start,
                        column: c,
                        event,
                    },
                );
                i += 1;
                assert(items@ =~= base + seats[c as int].take(i as int));
            }
            proof {
                assert(seats[c as int].take(i as int) =~= seats[c as int]);
                assert(seats.take(c + 1) =~= seats.take(c as int).push(seats[c as int]));
                seats.take(c as int).lemma_flatten_push(seats[c as int]);
            }
            c += 1;
        }
        assert(seats.take(c as int) =~= seats);
        LayoutGroup {
            start: self.start,
            end: self.end,
            column_count: self.columns_of_events.len(),
            items,
        }
    }

    /// Adds `event` to the group: it takes a column under the group's
    /// policy, behind the events that the column holds or alone in a new
    /// one, and the bounds stretch to take it in. Nothing else changes place.
    pub fn add(&mut self, event: Event)
        requires
            old(self)@.wf(),
            old(self)@.admits(event),
        ensures
            final(self)@ == old(self)@.add(event),
            final(self)@.wf(),
            final(self)@.start == old(self)@.start_with(event),
            final(self)@.end == old(self)@.end_with(event),
            grows_by(old(self)@.columns, final(self)@.columns, event),
            final(self)@.started_by(event.start),
    {
        match self.policy {
            PackingPolicy::RectangleReuse => self.add_reusing(event),
            PackingPolicy::GreedyAppend => self.add_appending(event),
        }
        proof {
            assert(self@.columns.len() == self.columns_of_events.len());
            lemma_add_wf(old(self)@, event);
            lemma_add_shape(old(self)@, event);
            lemma_add_started(old(self)@, event);
        }
    }
}

} // verus!

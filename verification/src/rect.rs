//! Vacant stretches of columns, and the first-fit search among them.

use vstd::prelude::*;
use crate::event::Event;

verus! {

/// A vacant stretch `[start, end)` of one column of a group.
#[derive(Clone, Copy, Debug, PartialEq, Eq, Structural)]
pub struct FreeRect {
    pub start: u64,
    pub end: u64,
    pub column_index: usize,
}

/// The vacancy from `from` to `to` in a column, if there is any room between them.
pub open spec fn stretch(from: u64, to: u64, column_index: usize) -> Seq<FreeRect> {
    if from < to {
        seq![FreeRect { start: from, end: to, column_index }]
    } else {
        Seq::empty()
    }
}

impl FreeRect {
    /// The stretch is not empty.
    pub open spec fn is_open(self) -> bool {
        self.start < self.end
    }

    /// The stretch contains the whole of `event`.
    pub open spec fn holds(self, event: Event) -> bool {
        self.start <= event.start && event.end <= self.end
    }

    /// The stretch and `event` share no time.
    pub open spec fn clear_of(self, event: Event) -> bool {
        event.end <= self.start || self.end <= event.start
    }

    /// The two stretches share no time.
    pub open spec fn apart(self, other: FreeRect) -> bool {
        self.end <= other.start || other.end <= self.start
    }

    /// What stays vacant of the stretch once `event` sits in it: the part
    /// before the event and the part after it, as far as they are not empty.
    pub open spec fn remainders(self, event: Event) -> Seq<FreeRect> {
        stretch(self.start, event.start, self.column_index) + stretch(
            event.end,
            self.end,
            self.column_index,
        )
    }

    /// Whether the stretch contains the whole of `event`.
    pub fn fits(&self, event: &Event) -> (yes: bool)
        ensures
            yes == self.holds(*event),
    {
        self.start <= event.start && event.end <= self.end
    }
}

/// `k` is the first stretch of `rects`, in list order, that holds `event`.
pub open spec fn is_first_fit(rects: Seq<FreeRect>, event: Event, k: int) -> bool {
    &&& 0 <= k < rects.len()
    &&& rects[k].holds(event)
    &&& forall|j: int| 0 <= j < k ==> !(#[trigger] rects[j]).holds(event)
}

/// The first stretch of `rects` that holds `event`, if any does.
pub open spec fn first_fit(rects: Seq<FreeRect>, event: Event) -> Option<int> {
    if exists|k: int| is_first_fit(rects, event, k) {
        Some(choose|k: int| is_first_fit(rects, event, k))
    } else {
        None
    }
}

/// Finds the first stretch of `rects` that holds `event`.
pub fn find_fit(rects: &Vec<FreeRect>, event: &Event) -> (found: Option<usize>)
    ensures
        match found {
            Some(k) => first_fit(rects@, *event) == Some(k as int) && is_first_fit(
                rects@,
                *event,
                k as int,
            ),
            None => first_fit(rects@, *event).is_none() && forall|j: int|
                0 <= j < rects.len() ==> !(#[trigger] rects@[j]).holds(*event),
        },
{
    let mut k: usize = 0;
    while k < rects.len()
        invariant
            k <= rects.len(),
            forall|j: int| 0 <= j < k ==> !(#[trigger] rects@[j]).holds(*event),
        decreases rects.len() - k,
    {
        if rects[k].fits(event) {
            proof {
                assert(is_first_fit(rects@, *event, k as int));
                let chosen = choose|c: int| is_first_fit(rects@, *event, c);
                assert(chosen == k);
            }
            return Some(k);
        }
        k += 1;
    }
    None
}

/// The list of stretches after `event` has taken its place in stretch `k`:
/// that stretch gives way to what remains of it, in place.
pub open spec fn carve(rects: Seq<FreeRect>, k: int, event: Event) -> Seq<FreeRect> {
    rects.subrange(0, k) + rects[k].remainders(event) + rects.subrange(k + 1, rects.len() as int)
}

/// Takes the room of `event` out of stretch `k`.
pub fn carve_out(rects: &mut Vec<FreeRect>, k: usize, event: &Event)
    requires
        k < old(rects).len(),
        old(rects)@[k as int].holds(*event),
    ensures
        final(rects)@ == carve(old(rects)@, k as int, *event),
{
    let rect = rects[k];
    let before = FreeRect { start: rect.start, end: event.start, column_index: rect.column_index };
    let after = FreeRect { start: event.end, end: rect.end, column_index: rect.column_index };
    if event.start == rect.start && event.end == rect.end {
        rects.remove(k);
    } else if event.start == rect.start {
        rects[k] = after;
    } else if event.end == rect.end {
        rects[k] = before;
    } else {
        rects[k] = before;
        rects.insert(k + 1, after);
    }
    assert(rects@ =~= carve(old(rects)@, k as int, *event));
}

/// The columns of a group as sequences of events.
pub open spec fn column_views(columns: Seq<Vec<Event>>) -> Seq<Seq<Event>> {
    Seq::new(columns.len(), |c: int| columns[c]@)
}

/// How far the first `n` events of a column reach, counted from `lo`: the
/// latest end among them, and `lo` where none ends later.
pub open spec fn covered(column: Seq<Event>, lo: u64, n: int) -> u64
    decreases n,
{
    if n <= 0 {
        lo
    } else if column[n - 1].end > covered(column, lo, n - 1) {
        column[n - 1].end
    } else {
        covered(column, lo, n - 1)
    }
}

/// The gaps in front of each of the first `n` events of a column: from where
/// the events before it reach, up to its start.
pub open spec fn gaps_within(column: Seq<Event>, column_index: usize, lo: u64, n: int) -> Seq<
    FreeRect,
>
    decreases n,
{
    if n <= 0 {
        Seq::empty()
    } else {
        gaps_within(column, column_index, lo, n - 1) + stretch(
            covered(column, lo, n - 1),
            column[n - 1].start,
            column_index,
        )
    }
}

/// The vacant stretches of one column between `lo` and `hi`: the gaps in
/// front of its events, then the room behind the last of them.
pub open spec fn column_gaps(column: Seq<Event>, column_index: usize, lo: u64, hi: u64) -> Seq<
    FreeRect,
> {
    gaps_within(column, column_index, lo, column.len() as int) + stretch(
        covered(column, lo, column.len() as int),
        hi,
        column_index,
    )
}

/// The vacant stretches of each column between `lo` and `hi`.
pub open spec fn gaps_by_column(columns: Seq<Seq<Event>>, lo: u64, hi: u64) -> Seq<Seq<FreeRect>> {
    Seq::new(columns.len(), |c: int| column_gaps(columns[c], c as usize, lo, hi))
}

/// All vacant stretches between `lo` and `hi`, column by column.
pub open spec fn vacancies(columns: Seq<Seq<Event>>, lo: u64, hi: u64) -> Seq<FreeRect> {
    gaps_by_column(columns, lo, hi).flatten()
}

/// Scans every column for its vacant stretches between `lo` and `hi`.
pub fn vacant_rects(columns: &Vec<Vec<Event>>, lo: u64, hi: u64) -> (rects: Vec<FreeRect>)
    ensures
        rects@ == vacancies(column_views(columns@), lo, hi),
{
    let ghost by_column = gaps_by_column(column_views(columns@), lo, hi);
    let mut rects: Vec<FreeRect> = Vec::new();
    let mut c: usize = 0;
    while c < columns.len()
        invariant
            c <= columns.len(),
            by_column == gaps_by_column(column_views(columns@), lo, hi),
            rects@ == by_column.take(c as int).flatten(),
        decreases columns.len() - c,
    {
        let column = &columns[c];
        let ghost base = rects@;
        let mut reach: u64 = lo;
        let mut i: usize = 0;
        while i < column.len()
            invariant
                i <= column.len(),
                reach == covered(column@, lo, i as int),
                rects@ == base + gaps_within(column@, c, lo, i as int),
            decreases column.len() - i,
        {
            let event = column[i];
            if reach < event.start {
                rects.push(FreeRect { start: reach, end: event.start, column_index: c });
            }
            if event.end > reach {
                reach = event.end;
            }
            i += 1;
            assert(rects@ =~= base + gaps_within(column@, c, lo, i as int));
        }
        if reach < hi {
            rects.push(FreeRect { start: reach, end: hi, column_index: c });
        }
        proof {
            assert(rects@ =~= base + column_gaps(column@, c, lo, hi));
            assert(by_column[c as int] == column_gaps(column@, c, lo, hi));
            assert(by_column.take(c + 1) =~= by_column.take(c as int).push(by_column[c as int]));
            by_column.take(c as int).lemma_flatten_push(by_column[c as int]);
        }
        c += 1;
    }
    assert(by_column.take(c as int) =~= by_column);
    rects
}

} // verus!

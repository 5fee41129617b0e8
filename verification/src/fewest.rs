//! On valid events no packing gets by with fewer columns.
//!
//! A new column opens only when every column holds an event that is still
//! under way when the new event starts. So at that instant as many events are
//! under way as there are columns, and any two of them overlap: however
//! they are packed, each of them needs a column of its own.

use vstd::prelude::*;
use crate::agreement::lemma_policies_agree;
use crate::event::{all_valid, Event};
use crate::invariants::lemma_empty_wf;
use crate::laws::{lemma_groups_shaped, lemma_sweep_valid, lemma_swept_keeps, lemma_valid_spans};
use crate::layout::LayoutGroupView;
use crate::order::{lemma_swept_permutes, swept};
use crate::packing::{first_open, is_first_open, is_open_for, GroupView, PackingPolicy};
use crate::seqs::{lemma_flatten_index, offset};
use crate::sweep::{clusters, layouts, lemma_front, lemma_sweep_wf, starts_ascend, sweep};

verus! {

/// The event is under way at `time`.
pub open spec fn under_way(event: Event, time: u64) -> bool {
    event.start <= time < event.end
}

/// Some event of the column is under way at `time`.
pub open spec fn is_busy(column: Seq<Event>, time: u64) -> bool {
    exists|i: int| 0 <= i < column.len() && under_way(#[trigger] column[i], time)
}

/// Every column is busy at `time`.
pub open spec fn all_busy(columns: Seq<Seq<Event>>, time: u64) -> bool {
    forall|c: int| 0 <= c < columns.len() ==> is_busy(#[trigger] columns[c], time)
}

/// There is an instant at which every column is busy.
pub open spec fn is_crowded(columns: Seq<Seq<Event>>) -> bool {
    exists|time: u64| all_busy(columns, time)
}

/// Some item of column `c` of the layout is under way at `time`.
pub open spec fn busy_in(laid: LayoutGroupView, c: int, time: u64) -> bool {
    exists|k: int|
        0 <= k < laid.items.len() && (#[trigger] laid.items[k]).column == c && under_way(
            laid.items[k].event,
            time,
        )
}

/// At `time` every column of the layout has an item under way.
pub open spec fn crowded_at(laid: LayoutGroupView, time: u64) -> bool {
    forall|c: int| 0 <= c < laid.column_count ==> #[trigger] busy_in(laid, c, time)
}

/// `columns` gives every item of the layout a column below `count`, and no
/// column to two items that overlap.
pub open spec fn is_packing(laid: LayoutGroupView, columns: Seq<int>, count: int) -> bool {
    &&& columns.len() == laid.items.len()
    &&& forall|k: int| 0 <= k < columns.len() ==> 0 <= #[trigger] columns[k] < count
    &&& forall|a: int, b: int|
        0 <= a < columns.len() && 0 <= b < columns.len() && a != b && laid.items[a].event.overlaps(
            laid.items[b].event,
        ) ==> #[trigger] columns[a] != #[trigger] columns[b]
}

/// A column that holds an event stays busy when an event joins it.
proof fn lemma_busy_after_push(column: Seq<Event>, event: Event, time: u64)
    requires
        is_busy(column, time),
    ensures
        is_busy(column.push(event), time),
{
    let i = choose|i: int| 0 <= i < column.len() && under_way(#[trigger] column[i], time);
    assert(column.push(event)[i] == column[i]);
}

/// Greedy append keeps a group of valid events crowded: where the event
/// finds a column, at the instant of before; where it opens one, at its start.
proof fn lemma_appending_crowded(group: GroupView, event: Event)
    requires
        group.wf(),
        group.members_valid(),
        group.admits(event),
        event.is_valid(),
        is_crowded(group.columns),
    ensures
        is_crowded(group.add_appending(event).columns),
{
    let columns = group.columns;
    let grown = group.add_appending(event).columns;
    match first_open(columns, event) {
        Some(c) => {
            assert(is_first_open(columns, event, c));
            let time = choose|time: u64| all_busy(columns, time);
            assert forall|b: int| 0 <= b < grown.len() implies is_busy(
                #[trigger] grown[b],
                time,
            ) by {
                assert(is_busy(columns[b], time));
                if b == c {
                    lemma_busy_after_push(columns[c], event, time);
                }
            }
            assert(all_busy(grown, time));
        },
        None => {
            let time = event.start;
            assert forall|b: int| 0 <= b < grown.len() implies is_busy(
                #[trigger] grown[b],
                time,
            ) by {
                if b < columns.len() {
                    assert(grown[b] == columns[b]);
                    assert(columns[b].len() > 0);
                    if is_open_for(columns, b, event) {
                        lemma_some_open(columns, event, b);
                    }
                    let last = columns[b].len() - 1;
                    assert(under_way(columns[b][last], time));
                } else {
                    assert(under_way(grown[b][0], time));
                }
            }
            assert(all_busy(grown, time));
        },
    }
}

/// Where some column has ended by the start of an event, there is a first
/// one that has.
proof fn lemma_some_open(columns: Seq<Seq<Event>>, event: Event, c: int)
    requires
        0 <= c < columns.len(),
        is_open_for(columns, c, event),
    ensures
        exists|b: int| is_first_open(columns, event, b),
    decreases c,
{
    if exists|b: int| 0 <= b < c && is_open_for(columns, b, event) {
        let b = choose|b: int| 0 <= b < c && is_open_for(columns, b, event);
        lemma_some_open(columns, event, b);
    } else {
        assert(is_first_open(columns, event, c));
    }
}

/// A sweep with greedy append over valid events in ascending order of start
/// builds crowded groups.
proof fn lemma_sweep_crowded(sorted: Seq<Event>)
    requires
        all_valid(sorted),
        starts_ascend(sorted),
        sorted.len() <= usize::MAX,
    ensures
        forall|g: int|
            0 <= g < sweep(sorted, PackingPolicy::GreedyAppend).len() ==> is_crowded(
                (#[trigger] sweep(sorted, PackingPolicy::GreedyAppend)[g]).columns,
            ),
    decreases sorted.len(),
{
    let greedy = PackingPolicy::GreedyAppend;
    lemma_valid_spans(sorted);
    if sorted.len() > 0 {
        let front = sorted.drop_last();
        let event = sorted.last();
        let before = sweep(front, greedy);
        let after = sweep(sorted, greedy);
        lemma_front(sorted);
        lemma_valid_spans(front);
        lemma_sweep_crowded(front);
        lemma_sweep_wf(front, greedy);
        lemma_sweep_valid(front, greedy);
        if before.len() > 0 && before.last().overlaps(event) {
            let latest = before.last();
            assert(latest.admits(event));
            lemma_appending_crowded(latest, event);
            assert forall|g: int| 0 <= g < after.len() implies is_crowded(
                (#[trigger] after[g]).columns,
            ) by {
                if g < before.len() - 1 {
                    assert(after[g] == before[g]);
                }
            }
        } else {
            let fresh = GroupView::empty(greedy);
            lemma_empty_wf(greedy);
            assert(all_busy(fresh.columns, 0));
            lemma_appending_crowded(fresh, event);
            assert forall|g: int| 0 <= g < after.len() implies is_crowded(
                (#[trigger] after[g]).columns,
            ) by {
                if g < before.len() {
                    assert(after[g] == before[g]);
                }
            }
        }
    }
}

/// Crowded: in every layout of valid events there is an instant at which
/// every column has an item under way.
pub proof fn lemma_layout_crowded(events: Seq<Event>, policy: PackingPolicy, g: int) -> (time: u64)
    requires
        all_valid(events),
        events.len() <= usize::MAX,
        0 <= g < layouts(events, policy).len(),
    ensures
        crowded_at(layouts(events, policy)[g], time),
{
    let greedy = PackingPolicy::GreedyAppend;
    lemma_policies_agree(events);
    assert(layouts(events, policy) == layouts(events, greedy)) by {
        if policy == PackingPolicy::RectangleReuse {
        }
    }
    lemma_swept_permutes(events);
    lemma_swept_keeps(events);
    lemma_sweep_crowded(swept(events));
    lemma_valid_spans(swept(events));
    lemma_sweep_wf(swept(events), greedy);
    let group = clusters(events, greedy)[g];
    let laid = layouts(events, greedy)[g];
    let seats = group.seats();
    let time = choose|time: u64| all_busy(group.columns, time);
    assert forall|c: int| 0 <= c < laid.column_count implies #[trigger] busy_in(laid, c, time) by {
        assert(is_busy(group.columns[c], time));
        let i = choose|i: int|
            0 <= i < group.columns[c].len() && under_way(#[trigger] group.columns[c][i], time);
        lemma_flatten_index(seats, c, i);
        let k = offset(seats, c) + i;
        assert(laid.items[k].column == c);
        assert(laid.items[k].event == group.columns[c][i]);
    }
    time
}

/// Values that differ from one another, all of them from zero up to
/// `bound`, are no more than `bound`.
proof fn lemma_pigeonhole(values: Seq<int>, bound: int)
    requires
        0 <= bound,
        forall|i: int| 0 <= i < values.len() ==> 0 <= #[trigger] values[i] < bound,
        forall|i: int, j: int|
            0 <= i < j < values.len() ==> #[trigger] values[i] != #[trigger] values[j],
    ensures
        values.len() <= bound,
    decreases bound,
{
    if values.len() > 0 {
        assert(0 <= values[0] < bound);
        let top = bound - 1;
        if exists|i: int| 0 <= i < values.len() && #[trigger] values[i] == top {
            let at = choose|i: int| 0 <= i < values.len() && #[trigger] values[i] == top;
            let rest = values.remove(at);
            assert(rest.len() == values.len() - 1);
            assert forall|i: int| 0 <= i < rest.len() implies 0 <= #[trigger] rest[i] < top by {
                if i < at {
                    assert(rest[i] == values[i]);
                } else {
                    assert(rest[i] == values[i + 1]);
                }
            }
            assert forall|i: int, j: int| 0 <= i < j < rest.len() implies #[trigger] rest[i]
                != #[trigger] rest[j] by {
                let from_i = if i < at {
                    i
                } else {
                    i + 1
                };
                let from_j = if j < at {
                    j
                } else {
                    j + 1
                };
                assert(rest[i] == values[from_i]);
                assert(rest[j] == values[from_j]);
            }
            lemma_pigeonhole(rest, top);
        } else {
            assert forall|i: int| 0 <= i < values.len() implies 0 <= #[trigger] values[i] < top by {}
            lemma_pigeonhole(values, top);
        }
    }
}

/// Fewest columns: no packing of the events of a layout of valid events
/// gets by with fewer columns than the layout has.
pub proof fn lemma_fewest_columns(
    events: Seq<Event>,
    policy: PackingPolicy,
    g: int,
    columns: Seq<int>,
    count: int,
)
    requires
        all_valid(events),
        events.len() <= usize::MAX,
        0 <= g < layouts(events, policy).len(),
        is_packing(layouts(events, policy)[g], columns, count),
    ensures
        layouts(events, policy)[g].column_count <= count,
{
    let laid = layouts(events, policy)[g];
    let time = lemma_layout_crowded(events, policy, g);
    lemma_valid_spans(events);
    lemma_groups_shaped(events, policy);
    assert(busy_in(laid, 0, time));
    let pick = |c: int|
        choose|k: int|
            0 <= k < laid.items.len() && (#[trigger] laid.items[k]).column == c && under_way(
                laid.items[k].event,
                time,
            );
    let taken = Seq::new(laid.column_count as nat, |c: int| columns[pick(c)]);
    assert forall|c: int| 0 <= c < taken.len() implies 0 <= #[trigger] taken[c] < count by {
        assert(busy_in(laid, c, time));
    }
    assert forall|a: int, b: int| 0 <= a < b < taken.len() implies #[trigger] taken[a]
        != #[trigger] taken[b] by {
        assert(busy_in(laid, a, time));
        assert(busy_in(laid, b, time));
        assert(laid.items[pick(a)].event.overlaps(laid.items[pick(b)].event));
    }
    assert(0 <= taken[0] < count);
    lemma_pigeonhole(taken, count);
}

} // verus!

//! On valid events the two packing policies choose the same columns.
//!
//! Events arrive in ascending order of start, and a valid event ends after
//! it starts. So a vacant stretch can take a new event only if it is the room
//! behind the last event of its column: a gap further up ends before the
//! new event does. First fit among such stretches, taken column by column,
//! finds the first column that has ended by the start of the event, which
//! is the choice of greedy append.

use vstd::prelude::*;
use crate::event::{all_valid, Event};
use crate::invariants::{
    lemma_carve_origin, lemma_column_gaps, lemma_empty_wf, lemma_vacancies_sound, origin,
};
use crate::laws::{lemma_sweep_valid, lemma_swept_keeps, lemma_valid_spans};
use crate::order::{lemma_swept_permutes, swept};
use crate::packing::{
    columns_chained, columns_tidy, first_open, is_first_open, is_open_for, place, rects_sound,
    GroupView, PackingPolicy,
};
use crate::rect::{
    carve, column_gaps, covered, first_fit, gaps_by_column, gaps_within, is_first_fit, stretch,
    vacancies, FreeRect,
};
use crate::seqs::{
    lemma_flatten_index, lemma_flatten_locate, lemma_offset_grows, lemma_offset_step, offset,
};
use crate::sweep::{layouts, lemma_front, lemma_sweep_wf, starts_ascend, sweep};

verus! {

/// The stretch is the room behind the last event of its column, up to `stale`.
pub open spec fn is_live(columns: Seq<Seq<Event>>, stale: u64, rect: FreeRect) -> bool {
    rect.end == stale && rect.start == columns[rect.column_index as int].last().end
}

/// The stretch ends before the last event of its column starts.
pub open spec fn is_dead(columns: Seq<Seq<Event>>, rect: FreeRect) -> bool {
    rect.end <= columns[rect.column_index as int].last().start
}

/// Some stretch of `rects` is the room behind the last event of column `c`.
pub open spec fn has_live(columns: Seq<Seq<Event>>, rects: Seq<FreeRect>, stale: u64, c: int) -> bool {
    exists|k: int|
        0 <= k < rects.len() && (#[trigger] rects[k]).column_index == c && is_live(
            columns,
            stale,
            rects[k],
        )
}

/// The stretches are what is left of a scan of the first `seen` columns up
/// to `stale`: they stand column by column; each of them is the room behind
/// its column or ends before the last event of its column starts; and each
/// of those columns has its room among them, unless it reaches `stale`.
pub open spec fn tracked_ok(
    columns: Seq<Seq<Event>>,
    rects: Seq<FreeRect>,
    stale: u64,
    seen: int,
) -> bool {
    &&& 0 <= seen <= columns.len()
    &&& forall|k: int|
        0 <= k < rects.len() ==> (#[trigger] rects[k]).column_index < seen && (is_live(
            columns,
            stale,
            rects[k],
        ) || is_dead(columns, rects[k]))
    &&& forall|a: int, b: int|
        0 <= a <= b < rects.len() ==> (#[trigger] rects[a]).column_index <= (
        #[trigger] rects[b]).column_index
    &&& forall|c: int|
        0 <= c < seen ==> (#[trigger] columns[c]).last().end >= stale || has_live(
            columns,
            rects,
            stale,
            c,
        )
}

/// Every event of the columns has started by `time`.
pub open spec fn all_started_by(columns: Seq<Seq<Event>>, time: u64) -> bool {
    forall|c: int, i: int|
        0 <= c < columns.len() && 0 <= i < columns[c].len() ==> (#[trigger] columns[c][i]).start
            <= time
}

/// The first stretch that holds a valid event lies in the first column that
/// has ended by the start of the event.
proof fn lemma_fit_is_first_open(
    columns: Seq<Seq<Event>>,
    rects: Seq<FreeRect>,
    stale: u64,
    seen: int,
    event: Event,
    k: int,
)
    requires
        columns_tidy(columns),
        tracked_ok(columns, rects, stale, seen),
        all_started_by(columns, event.start),
        event.is_valid(),
        is_first_fit(rects, event, k),
    ensures
        is_first_open(columns, event, rects[k].column_index as int),
        is_live(columns, stale, rects[k]),
{
    let c = rects[k].column_index as int;
    assert(columns[c].len() > 0);
    assert(columns[c][columns[c].len() - 1].start <= event.start);
    assert(is_live(columns, stale, rects[k]));
    assert forall|b: int| 0 <= b < c implies !is_open_for(columns, b, event) by {
        assert(columns[b].len() > 0);
        if columns[b].last().end < stale {
            assert(has_live(columns, rects, stale, b));
            let j = choose|j: int|
                0 <= j < rects.len() && (#[trigger] rects[j]).column_index == b && is_live(
                    columns,
                    stale,
                    rects[j],
                );
            if k <= j {
                assert(rects[k].column_index <= rects[j].column_index);
            }
            assert(!rects[j].holds(event));
        }
    }
}

/// Where no stretch of a scan of all columns holds a valid event that ends
/// by the end of the scan, no column has ended by the start of the event.
proof fn lemma_no_fit_none_open(
    columns: Seq<Seq<Event>>,
    rects: Seq<FreeRect>,
    stale: u64,
    event: Event,
)
    requires
        columns_tidy(columns),
        tracked_ok(columns, rects, stale, columns.len() as int),
        event.is_valid(),
        event.end <= stale,
        forall|j: int| 0 <= j < rects.len() ==> !(#[trigger] rects[j]).holds(event),
    ensures
        forall|c: int| 0 <= c < columns.len() ==> !is_open_for(columns, c, event),
        first_open(columns, event).is_none(),
{
    assert forall|c: int| 0 <= c < columns.len() implies !is_open_for(columns, c, event) by {
        assert(columns[c].len() > 0);
        if columns[c].last().end < stale {
            assert(has_live(columns, rects, stale, c));
            let j = choose|j: int|
                0 <= j < rects.len() && (#[trigger] rects[j]).column_index == c && is_live(
                    columns,
                    stale,
                    rects[j],
                );
            assert(!rects[j].holds(event));
        }
    }
}

/// Events that lie one behind the other, from `lo` on, reach as far as the
/// last of them ends.
proof fn lemma_covered_of_chain(column: Seq<Event>, lo: u64, n: int)
    requires
        1 <= n <= column.len(),
        forall|i: int| 0 <= i < column.len() ==> (#[trigger] column[i]).is_span(),
        forall|i: int, j: int|
            0 <= i < j < column.len() ==> (#[trigger] column[i]).end <= (#[trigger] column[j]).start,
        lo <= column[0].start,
    ensures
        covered(column, lo, n) == column[n - 1].end,
    decreases n,
{
    assert(column[n - 1].is_span());
    if n > 1 {
        lemma_covered_of_chain(column, lo, n - 1);
        assert(column[n - 2].end <= column[n - 1].start);
    } else {
        assert(covered(column, lo, 0) == lo);
    }
}

/// The gaps in front of the events of a column end before the last event
/// of the column starts.
proof fn lemma_gaps_within_dead(column: Seq<Event>, column_index: usize, lo: u64, n: int)
    requires
        0 <= n <= column.len(),
        forall|i: int, j: int|
            0 <= i < j < column.len() ==> (#[trigger] column[i]).start <= (
            #[trigger] column[j]).start,
    ensures
        forall|t: int|
            0 <= t < gaps_within(column, column_index, lo, n).len() ==> (#[trigger] gaps_within(
                column,
                column_index,
                lo,
                n,
            )[t]).end <= column.last().start,
    decreases n,
{
    if n > 0 {
        lemma_gaps_within_dead(column, column_index, lo, n - 1);
        let earlier = gaps_within(column, column_index, lo, n - 1);
        let gaps = gaps_within(column, column_index, lo, n);
        assert forall|t: int| 0 <= t < gaps.len() implies (#[trigger] gaps[t]).end
            <= column.last().start by {
            if t < earlier.len() {
                assert(gaps[t] == earlier[t]);
            } else if n - 1 < column.len() - 1 {
                assert(column[n - 1].start <= column[column.len() - 1].start);
            }
        }
    }
}

/// Of the vacant stretches of a column of events that lie one behind the
/// other, the last one is the room behind the column, if there is any up to
/// `hi`; every other one ends before the last event starts.
proof fn lemma_column_kinds(column: Seq<Event>, column_index: usize, lo: u64, hi: u64)
    requires
        column.len() > 0,
        forall|i: int| 0 <= i < column.len() ==> (#[trigger] column[i]).is_span(),
        forall|i: int, j: int|
            0 <= i < j < column.len() ==> (#[trigger] column[i]).end <= (#[trigger] column[j]).start,
        lo <= column[0].start,
    ensures
        forall|t: int|
            0 <= t < column_gaps(column, column_index, lo, hi).len() ==> {
                let gap = #[trigger] column_gaps(column, column_index, lo, hi)[t];
                &&& gap.column_index == column_index
                &&& (gap.end == hi && gap.start == column.last().end) || gap.end
                    <= column.last().start
            },
        column.last().end < hi ==> column_gaps(column, column_index, lo, hi).len() > 0 && column_gaps(
            column,
            column_index,
            lo,
            hi,
        ).last() == (FreeRect { start: column.last().end, end: hi, column_index }),
{
    let n = column.len() as int;
    assert forall|i: int, j: int| 0 <= i < j < column.len() implies (#[trigger] column[i]).start <= (
    #[trigger] column[j]).start by {
        assert(column[i].is_span());
        assert(column[i].end <= column[j].start);
    }
    lemma_column_gaps(column, column_index, lo, hi);
    lemma_gaps_within_dead(column, column_index, lo, n);
    lemma_covered_of_chain(column, lo, n);
    let inner = gaps_within(column, column_index, lo, n);
    let gaps = column_gaps(column, column_index, lo, hi);
    assert forall|t: int| 0 <= t < gaps.len() implies {
        let gap = #[trigger] gaps[t];
        &&& gap.column_index == column_index
        &&& (gap.end == hi && gap.start == column.last().end) || gap.end <= column.last().start
    } by {
        if t < inner.len() {
            assert(gaps[t] == inner[t]);
        }
    }
}

/// A scan of all columns of events that lie one behind the other, from
/// before their first events up to `hi`, leaves stretches as `tracked_ok`
/// describes them.
proof fn lemma_fresh_ok(columns: Seq<Seq<Event>>, lo: u64, hi: u64)
    requires
        columns_tidy(columns),
        columns_chained(columns),
        forall|c: int| 0 <= c < columns.len() ==> lo <= (#[trigger] columns[c])[0].start,
    ensures
        tracked_ok(columns, vacancies(columns, lo, hi), hi, columns.len() as int),
{
    let parts = gaps_by_column(columns, lo, hi);
    let rects = vacancies(columns, lo, hi);
    assert forall|c: int| 0 <= c < columns.len() implies {
        &&& forall|t: int|
            0 <= t < (#[trigger] parts[c]).len() ==> {
                let gap = #[trigger] parts[c][t];
                &&& gap.column_index == c
                &&& (gap.end == hi && gap.start == columns[c].last().end) || gap.end
                    <= columns[c].last().start
            }
        &&& columns[c].last().end < hi ==> parts[c].len() > 0 && parts[c].last() == (FreeRect {
            start: columns[c].last().end,
            end: hi,
            column_index: c as usize,
        })
    } by {
        assert(columns[c].len() > 0);
        assert forall|i: int| 0 <= i < columns[c].len() implies (
        #[trigger] columns[c][i]).is_span() by {}
        assert forall|i: int, j: int| 0 <= i < j < columns[c].len() implies (
        #[trigger] columns[c][i]).end <= (#[trigger] columns[c][j]).start by {}
        lemma_column_kinds(columns[c], c as usize, lo, hi);
    }
    assert forall|k: int| 0 <= k < rects.len() implies (#[trigger] rects[k]).column_index
        < columns.len() && (is_live(columns, hi, rects[k]) || is_dead(columns, rects[k])) by {
        let at = lemma_flatten_locate(parts, k);
        assert(rects[k] == parts[at.0][at.1]);
    }
    assert forall|a: int, b: int| 0 <= a <= b < rects.len() implies (
    #[trigger] rects[a]).column_index <= (#[trigger] rects[b]).column_index by {
        let at_a = lemma_flatten_locate(parts, a);
        let at_b = lemma_flatten_locate(parts, b);
        assert(rects[a] == parts[at_a.0][at_a.1]);
        assert(rects[b] == parts[at_b.0][at_b.1]);
        if at_a.0 > at_b.0 {
            lemma_offset_grows(parts, at_b.0 + 1, at_a.0);
            lemma_offset_step(parts, at_b.0);
        }
    }
    assert forall|c: int| 0 <= c < columns.len() implies (#[trigger] columns[c]).last().end >= hi
        || has_live(columns, rects, hi, c) by {
        if columns[c].last().end < hi {
            let t = parts[c].len() - 1;
            lemma_flatten_index(parts, c, t);
            let k = offset(parts, c) + t;
            assert(rects[k] == parts[c][t]);
            assert(rects[k].column_index == c);
            assert(is_live(columns, hi, rects[k]));
        }
    }
}

/// Taking the room of a valid event out of the first stretch that holds it
/// leaves stretches as `tracked_ok` describes them, for the columns with the
/// event placed.
proof fn lemma_carve_ok(
    columns: Seq<Seq<Event>>,
    rects: Seq<FreeRect>,
    stale: u64,
    seen: int,
    event: Event,
    k: int,
)
    requires
        columns_tidy(columns),
        rects_sound(columns, rects),
        tracked_ok(columns, rects, stale, seen),
        all_started_by(columns, event.start),
        event.is_valid(),
        is_first_fit(rects, event, k),
    ensures
        tracked_ok(
            place(columns, rects[k].column_index as int, event),
            carve(rects, k, event),
            stale,
            seen,
        ),
{
    let c = rects[k].column_index as int;
    let placed = place(columns, c, event);
    let carved = carve(rects, k, event);
    let kept = rects[k].remainders(event);
    let before = stretch(rects[k].start, event.start, rects[k].column_index);
    let after = stretch(event.end, rects[k].end, rects[k].column_index);
    lemma_fit_is_first_open(columns, rects, stale, seen, event, k);
    assert(rects[k].is_open());
    assert(columns[c].len() > 0);
    assert(columns[c][columns[c].len() - 1].start <= event.start);
    assert(placed[c].last() == event);
    assert forall|b: int| 0 <= b < columns.len() && b != c implies placed[b] == columns[b] by {}
    assert forall|t: int| 0 <= t < carved.len() implies (#[trigger] carved[t]).column_index < seen
        && (is_live(placed, stale, carved[t]) || is_dead(placed, carved[t])) by {
        lemma_carve_origin(rects, k, event, t);
        let o = origin(rects, k, event, t);
        assert(rects[o].column_index < seen);
        if o != k && rects[o].column_index == c {
            assert(rects[o].is_open());
            if o < k {
                assert(rects[o].apart(rects[k]));
            } else {
                assert(rects[k].apart(rects[o]));
            }
        }
    }
    assert forall|a: int, b: int| 0 <= a <= b < carved.len() implies (
    #[trigger] carved[a]).column_index <= (#[trigger] carved[b]).column_index by {
        lemma_carve_origin(rects, k, event, a);
        lemma_carve_origin(rects, k, event, b);
        let oa = origin(rects, k, event, a);
        let ob = origin(rects, k, event, b);
        assert(rects[oa].column_index <= rects[ob].column_index);
    }
    assert(kept == before + after);
    assert forall|b: int| 0 <= b < seen implies (#[trigger] placed[b]).last().end >= stale
        || has_live(placed, carved, stale, b) by {
        if b == c {
            if event.end < stale {
                let t = k + before.len();
                assert(carved[t] == kept[before.len() as int]);
                assert(kept[before.len() as int] == after[0]);
                assert(carved[t].column_index == c);
                assert(is_live(placed, stale, carved[t]));
            }
        } else {
            assert(columns[b].last().end >= stale || has_live(columns, rects, stale, b));
            if columns[b].last().end < stale {
                let j = choose|j: int|
                    0 <= j < rects.len() && (#[trigger] rects[j]).column_index == b && is_live(
                        columns,
                        stale,
                        rects[j],
                    );
                let t = if j < k {
                    j
                } else {
                    j + kept.len() - 1
                };
                lemma_carve_origin(rects, k, event, t);
                assert(carved[t] == rects[j]);
                assert(is_live(placed, stale, carved[t]));
            }
        }
    }
}

/// A new column leaves the stretches as `tracked_ok` describes them.
proof fn lemma_open_ok(
    columns: Seq<Seq<Event>>,
    rects: Seq<FreeRect>,
    stale: u64,
    seen: int,
    event: Event,
)
    requires
        tracked_ok(columns, rects, stale, seen),
    ensures
        tracked_ok(columns.push(seq![event]), rects, stale, seen),
{
    let opened = columns.push(seq![event]);
    assert forall|b: int| 0 <= b < columns.len() implies opened[b] == columns[b] by {}
    assert forall|b: int| 0 <= b < seen implies (#[trigger] opened[b]).last().end >= stale
        || has_live(opened, rects, stale, b) by {
        assert(columns[b].last().end >= stale || has_live(columns, rects, stale, b));
        if columns[b].last().end < stale {
            let j = choose|j: int|
                0 <= j < rects.len() && (#[trigger] rects[j]).column_index == b && is_live(
                    columns,
                    stale,
                    rects[j],
                );
            assert(is_live(opened, stale, rects[j]));
        }
    }
}

/// In a well-formed group of valid members each column's events lie one
/// behind the other.
pub proof fn lemma_valid_columns_chained(group: GroupView)
    requires
        group.wf(),
        group.members_valid(),
    ensures
        columns_chained(group.columns),
{
    let columns = group.columns;
    assert forall|c: int, i: int, j: int|
        0 <= c < columns.len() && 0 <= i < j < columns[c].len() implies (
    #[trigger] columns[c][i]).end <= (#[trigger] columns[c][j]).start by {
        assert(columns[c][j].is_valid());
        assert(columns[c][i].start <= columns[c][j].start);
        assert(!columns[c][i].overlaps(columns[c][j]));
    }
}

/// One step: a valid event that joins a group of valid members takes the
/// same column under first fit with reuse as under greedy append.
pub proof fn lemma_step_agrees(group: GroupView, event: Event, stale: u64, seen: int) -> (next: (
    u64,
    int,
))
    requires
        group.wf(),
        group.members_valid(),
        group.admits(event),
        event.is_valid(),
        tracked_ok(group.columns, group.free, stale, seen),
    ensures
        group.add_reusing(event).columns == group.add_appending(event).columns,
        tracked_ok(
            group.add_reusing(event).columns,
            group.add_reusing(event).free,
            next.0,
            next.1,
        ),
{
    let columns = group.columns;
    lemma_valid_columns_chained(group);
    assert(all_started_by(columns, event.start));
    match first_fit(group.free, event) {
        Some(k) => {
            assert(is_first_fit(group.free, event, k));
            lemma_fit_is_first_open(columns, group.free, stale, seen, event, k);
            let c = group.free[k].column_index as int;
            let chosen = choose|b: int| is_first_open(columns, event, b);
            assert(chosen == c);
            lemma_carve_ok(columns, group.free, stale, seen, event, k);
            (stale, seen)
        },
        None => {
            let lo = group.start_with(event);
            let hi = group.end_with(event);
            let fresh = vacancies(columns, lo, hi);
            assert forall|c: int| 0 <= c < columns.len() implies lo <= (
            #[trigger] columns[c])[0].start by {
                assert(columns[c].len() > 0);
                assert(group.start <= columns[c][0].start);
            }
            lemma_fresh_ok(columns, lo, hi);
            lemma_vacancies_sound(columns, lo, hi);
            match first_fit(fresh, event) {
                Some(k) => {
                    assert(is_first_fit(fresh, event, k));
                    lemma_fit_is_first_open(columns, fresh, hi, columns.len() as int, event, k);
                    let c = fresh[k].column_index as int;
                    let chosen = choose|b: int| is_first_open(columns, event, b);
                    assert(chosen == c);
                    lemma_carve_ok(columns, fresh, hi, columns.len() as int, event, k);
                    (hi, columns.len() as int)
                },
                None => {
                    assert forall|j: int| 0 <= j < fresh.len() implies !(
                    #[trigger] fresh[j]).holds(event) by {
                        if fresh[j].holds(event) {
                            lemma_some_fit(fresh, event, j);
                        }
                    }
                    lemma_no_fit_none_open(columns, fresh, hi, event);
                    lemma_open_ok(columns, group.free, stale, seen, event);
                    (stale, seen)
                },
            }
        },
    }
}

/// Where some stretch holds an event, there is a first one that does.
proof fn lemma_some_fit(rects: Seq<FreeRect>, event: Event, j: int)
    requires
        0 <= j < rects.len(),
        rects[j].holds(event),
    ensures
        exists|k: int| is_first_fit(rects, event, k),
    decreases j,
{
    if exists|i: int| 0 <= i < j && (#[trigger] rects[i]).holds(event) {
        let i = choose|i: int| 0 <= i < j && (#[trigger] rects[i]).holds(event);
        lemma_some_fit(rects, event, i);
    } else {
        assert(is_first_fit(rects, event, j));
    }
}

/// Two groups hold the same events in the same columns within the same bounds.
pub open spec fn same_packing(one: GroupView, other: GroupView) -> bool {
    one.start == other.start && one.end == other.end && one.columns == other.columns
}

/// Sweeps over valid events in ascending order of start build the same
/// groups with the same columns under both policies.
proof fn lemma_sweeps_agree(sorted: Seq<Event>) -> (tail: (u64, int))
    requires
        all_valid(sorted),
        starts_ascend(sorted),
        sorted.len() <= usize::MAX,
    ensures
        sweep(sorted, PackingPolicy::RectangleReuse).len() == sweep(
            sorted,
            PackingPolicy::GreedyAppend,
        ).len(),
        forall|g: int|
            0 <= g < sweep(sorted, PackingPolicy::RectangleReuse).len() ==> same_packing(
                #[trigger] sweep(sorted, PackingPolicy::RectangleReuse)[g],
                sweep(sorted, PackingPolicy::GreedyAppend)[g],
            ),
        sorted.len() > 0 ==> tracked_ok(
            sweep(sorted, PackingPolicy::RectangleReuse).last().columns,
            sweep(sorted, PackingPolicy::RectangleReuse).last().free,
            tail.0,
            tail.1,
        ),
    decreases sorted.len(),
{
    let reuse = PackingPolicy::RectangleReuse;
    let greedy = PackingPolicy::GreedyAppend;
    lemma_valid_spans(sorted);
    if sorted.len() == 0 {
        (0, 0)
    } else {
        let front = sorted.drop_last();
        let event = sorted.last();
        lemma_front(sorted);
        lemma_valid_spans(front);
        let before_tail = lemma_sweeps_agree(front);
        lemma_sweep_wf(front, reuse);
        lemma_sweep_wf(front, greedy);
        lemma_sweep_valid(front, reuse);
        let before_r = sweep(front, reuse);
        let before_g = sweep(front, greedy);
        let after_r = sweep(sorted, reuse);
        let after_g = sweep(sorted, greedy);
        let m = before_r.len() as int;
        if m > 0 {
            assert(same_packing(before_r[m - 1], before_g[m - 1]));
        }
        if m > 0 && before_r.last().overlaps(event) {
            let latest = before_r.last();
            assert(latest.admits(event));
            let next = lemma_step_agrees(latest, event, before_tail.0, before_tail.1);
            assert(after_r[m - 1] == latest.add(event));
            assert(after_g[m - 1] == before_g.last().add(event));
            assert forall|g: int| 0 <= g < after_r.len() implies same_packing(
                #[trigger] after_r[g],
                after_g[g],
            ) by {
                if g < m - 1 {
                    assert(after_r[g] == before_r[g]);
                    assert(after_g[g] == before_g[g]);
                    assert(same_packing(before_r[g], before_g[g]));
                }
            }
            next
        } else {
            let fresh = GroupView::empty(reuse);
            lemma_empty_wf(reuse);
            assert(fresh.admits(event));
            assert(tracked_ok(fresh.columns, fresh.free, 0, 0));
            let next = lemma_step_agrees(fresh, event, 0, 0);
            assert(after_r[m] == fresh.add(event));
            assert(after_g[m] == GroupView::empty(greedy).add(event));
            assert forall|g: int| 0 <= g < after_r.len() implies same_packing(
                #[trigger] after_r[g],
                after_g[g],
            ) by {
                if g < m {
                    assert(after_r[g] == before_r[g]);
                    assert(after_g[g] == before_g[g]);
                    assert(same_packing(before_r[g], before_g[g]));
                }
            }
            next
        }
    }
}

/// Groups with the same packing have the same layout.
proof fn lemma_same_layout(one: GroupView, other: GroupView)
    requires
        same_packing(one, other),
    ensures
        one.layout() == other.layout(),
{
    assert(one.seats() =~~= other.seats());
}

/// Agreement: valid events are laid out alike under both policies.
pub proof fn lemma_policies_agree(events: Seq<Event>)
    requires
        all_valid(events),
        events.len() <= usize::MAX,
    ensures
        layouts(events, PackingPolicy::RectangleReuse) == layouts(
            events,
            PackingPolicy::GreedyAppend,
        ),
{
    lemma_swept_permutes(events);
    lemma_swept_keeps(events);
    let tail = lemma_sweeps_agree(swept(events));
    let one = layouts(events, PackingPolicy::RectangleReuse);
    let other = layouts(events, PackingPolicy::GreedyAppend);
    assert forall|g: int| 0 <= g < one.len() implies one[g] == other[g] by {
        lemma_same_layout(
            sweep(swept(events), PackingPolicy::RectangleReuse)[g],
            sweep(swept(events), PackingPolicy::GreedyAppend)[g],
        );
    }
    assert(one =~= other);
}

} // verus!

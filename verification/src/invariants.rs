//! Why adding an admitted event to a well-formed group leaves it well-formed.

use vstd::prelude::*;
use crate::event::Event;
use crate::packing::{
    columns_chained, columns_clear, columns_tidy, first_open, grows_by, is_first_open, place,
    rects_sound, GroupView, PackingPolicy,
};
use crate::rect::{
    carve, column_gaps, covered, first_fit, gaps_by_column, gaps_within, is_first_fit, stretch,
    vacancies, FreeRect,
};
use crate::seqs::{lemma_flatten_extend, lemma_flatten_locate, lemma_flatten_open};

verus! {

/// What the first `n` events of a column cover includes each of their ends.
proof fn lemma_covered_reaches(column: Seq<Event>, lo: u64, n: int)
    requires
        0 <= n <= column.len(),
    ensures
        lo <= covered(column, lo, n),
        forall|i: int| 0 <= i < n ==> (#[trigger] column[i]).end <= covered(column, lo, n),
    decreases n,
{
    if n > 0 {
        lemma_covered_reaches(column, lo, n - 1);
    }
}

/// The gaps in front of the first `n` events of a column are open, lie one
/// behind the other, end within what those events cover, and share no time
/// with any event of the column.
proof fn lemma_gaps_within(column: Seq<Event>, column_index: usize, lo: u64, n: int)
    requires
        0 <= n <= column.len(),
        forall|i: int| 0 <= i < column.len() ==> (#[trigger] column[i]).is_span(),
        forall|i: int, j: int|
            0 <= i < j < column.len() ==> (#[trigger] column[i]).start <= (
            #[trigger] column[j]).start,
    ensures
        forall|k: int|
            0 <= k < gaps_within(column, column_index, lo, n).len() ==> {
                let gap = #[trigger] gaps_within(column, column_index, lo, n)[k];
                gap.is_open() && gap.column_index == column_index && gap.end <= covered(
                    column,
                    lo,
                    n,
                )
            },
        forall|k: int, i: int|
            0 <= k < gaps_within(column, column_index, lo, n).len() && 0 <= i < column.len() ==> (
            #[trigger] gaps_within(column, column_index, lo, n)[k]).clear_of(#[trigger] column[i]),
        forall|a: int, b: int|
            0 <= a < b < gaps_within(column, column_index, lo, n).len() ==> (
            #[trigger] gaps_within(column, column_index, lo, n)[a]).end <= (
            #[trigger] gaps_within(column, column_index, lo, n)[b]).start,
    decreases n,
{
    if n > 0 {
        lemma_gaps_within(column, column_index, lo, n - 1);
        lemma_covered_reaches(column, lo, n - 1);
        let earlier = gaps_within(column, column_index, lo, n - 1);
        let reach = covered(column, lo, n - 1);
        let added = stretch(reach, column[n - 1].start, column_index);
        let gaps = gaps_within(column, column_index, lo, n);
        assert(gaps == earlier + added);
        assert(column[n - 1].is_span());
        assert forall|k: int, i: int| 0 <= k < gaps.len() && 0 <= i < column.len() implies (
        #[trigger] gaps[k]).clear_of(#[trigger] column[i]) by {
            if k < earlier.len() {
                assert(gaps[k] == earlier[k]);
            } else {
                if i < n - 1 {
                    assert(column[i].end <= reach);
                } else if i > n - 1 {
                    assert(column[n - 1].start <= column[i].start);
                }
            }
        }
        assert forall|a: int, b: int| 0 <= a < b < gaps.len() implies (#[trigger] gaps[a]).end <= (
        #[trigger] gaps[b]).start by {
            assert(gaps[a] == earlier[a]);
            if b < earlier.len() {
                assert(gaps[b] == earlier[b]);
            }
        }
        assert forall|k: int| 0 <= k < gaps.len() implies {
            let gap = #[trigger] gaps[k];
            gap.is_open() && gap.column_index == column_index && gap.end <= covered(column, lo, n)
        } by {
            if k < earlier.len() {
                assert(gaps[k] == earlier[k]);
            }
        }
    }
}

/// The vacant stretches of a column are open, lie one behind the other, and
/// share no time with any event of the column.
pub proof fn lemma_column_gaps(column: Seq<Event>, column_index: usize, lo: u64, hi: u64)
    requires
        forall|i: int| 0 <= i < column.len() ==> (#[trigger] column[i]).is_span(),
        forall|i: int, j: int|
            0 <= i < j < column.len() ==> (#[trigger] column[i]).start <= (
            #[trigger] column[j]).start,
    ensures
        forall|k: int|
            0 <= k < column_gaps(column, column_index, lo, hi).len() ==> {
                let gap = #[trigger] column_gaps(column, column_index, lo, hi)[k];
                gap.is_open() && gap.column_index == column_index
            },
        forall|k: int, i: int|
            0 <= k < column_gaps(column, column_index, lo, hi).len() && 0 <= i < column.len() ==> (
            #[trigger] column_gaps(column, column_index, lo, hi)[k]).clear_of(
                #[trigger] column[i],
            ),
        forall|a: int, b: int|
            0 <= a < b < column_gaps(column, column_index, lo, hi).len() ==> (
            #[trigger] column_gaps(column, column_index, lo, hi)[a]).end <= (
            #[trigger] column_gaps(column, column_index, lo, hi)[b]).start,
{
    let n = column.len() as int;
    lemma_gaps_within(column, column_index, lo, n);
    lemma_covered_reaches(column, lo, n);
    let inner = gaps_within(column, column_index, lo, n);
    let gaps = column_gaps(column, column_index, lo, hi);
    assert forall|k: int, i: int| 0 <= k < gaps.len() && 0 <= i < column.len() implies (
    #[trigger] gaps[k]).clear_of(#[trigger] column[i]) by {
        if k < inner.len() {
            assert(gaps[k] == inner[k]);
        } else {
            assert(column[i].end <= covered(column, lo, n));
        }
    }
    assert forall|a: int, b: int| 0 <= a < b < gaps.len() implies (#[trigger] gaps[a]).end <= (
    #[trigger] gaps[b]).start by {
        assert(gaps[a] == inner[a]);
        if b < inner.len() {
            assert(gaps[b] == inner[b]);
        }
    }
    assert forall|k: int| 0 <= k < gaps.len() implies {
        let gap = #[trigger] gaps[k];
        gap.is_open() && gap.column_index == column_index
    } by {
        if k < inner.len() {
            assert(gaps[k] == inner[k]);
        }
    }
}

/// The stretches that a fresh scan of tidy columns finds are sound.
pub proof fn lemma_vacancies_sound(columns: Seq<Seq<Event>>, lo: u64, hi: u64)
    requires
        columns_tidy(columns),
    ensures
        rects_sound(columns, vacancies(columns, lo, hi)),
{
    let parts = gaps_by_column(columns, lo, hi);
    let rects = vacancies(columns, lo, hi);
    assert forall|k: int| 0 <= k < rects.len() implies (#[trigger] rects[k]).is_open()
        && rects[k].column_index < columns.len() by {
        let at = lemma_flatten_locate(parts, k);
        assert(columns[at.0].len() > 0);
        lemma_column_gaps(columns[at.0], at.0 as usize, lo, hi);
        assert(rects[k] == column_gaps(columns[at.0], at.0 as usize, lo, hi)[at.1]);
    }
    assert forall|k: int, i: int|
        0 <= k < rects.len() && 0 <= i < columns[rects[k].column_index as int].len()
        implies rects[k].clear_of(#[trigger] columns[rects[k].column_index as int][i]) by {
        let at = lemma_flatten_locate(parts, k);
        assert(columns[at.0].len() > 0);
        lemma_column_gaps(columns[at.0], at.0 as usize, lo, hi);
        assert(rects[k] == column_gaps(columns[at.0], at.0 as usize, lo, hi)[at.1]);
    }
    assert forall|a: int, b: int|
        0 <= a < b < rects.len() && (#[trigger] rects[a]).column_index == (
        #[trigger] rects[b]).column_index implies rects[a].apart(rects[b]) by {
        let at_a = lemma_flatten_locate(parts, a);
        let at_b = lemma_flatten_locate(parts, b);
        assert(columns[at_a.0].len() > 0);
        assert(columns[at_b.0].len() > 0);
        lemma_column_gaps(columns[at_a.0], at_a.0 as usize, lo, hi);
        lemma_column_gaps(columns[at_b.0], at_b.0 as usize, lo, hi);
        assert(rects[a] == column_gaps(columns[at_a.0], at_a.0 as usize, lo, hi)[at_a.1]);
        assert(rects[b] == column_gaps(columns[at_b.0], at_b.0 as usize, lo, hi)[at_b.1]);
        assert(at_a.0 == at_b.0);
    }
}

/// The stretch of `rects` that stretch `t` of the carved list comes from.
pub open spec fn origin(rects: Seq<FreeRect>, k: int, event: Event, t: int) -> int {
    let kept = rects[k].remainders(event).len();
    if t < k {
        t
    } else if t < k + kept {
        k
    } else {
        t - kept + 1
    }
}

/// Each stretch of a carved list lies inside the stretch it comes from:
/// it is that stretch, or one of the two parts that remain of the carved
/// stretch around the event.
pub proof fn lemma_carve_origin(rects: Seq<FreeRect>, k: int, event: Event, t: int)
    requires
        0 <= k < rects.len(),
        rects[k].holds(event),
        rects[k].is_open(),
        event.is_span(),
        0 <= t < carve(rects, k, event).len(),
    ensures
        0 <= origin(rects, k, event, t) < rects.len(),
        ({
            let from = rects[origin(rects, k, event, t)];
            let piece = carve(rects, k, event)[t];
            &&& piece.column_index == from.column_index
            &&& from.start <= piece.start
            &&& piece.end <= from.end
            &&& from.is_open() ==> piece.is_open()
            &&& origin(rects, k, event, t) == k ==> piece.clear_of(event)
            &&& origin(rects, k, event, t) == k && t > k ==> event.end <= piece.start
            &&& origin(rects, k, event, t) == k && t + 1 < k + rects[k].remainders(event).len()
                ==> piece.end <= event.start
            &&& origin(rects, k, event, t) != k ==> piece == from
            &&& origin(rects, k, event, t) == k ==> {
                ||| piece.start == from.start && piece.end == event.start
                ||| piece.start == event.end && piece.end == from.end
            }
        }),
{
    let kept = rects[k].remainders(event);
    let carved = carve(rects, k, event);
    let before = stretch(rects[k].start, event.start, rects[k].column_index);
    let after = stretch(event.end, rects[k].end, rects[k].column_index);
    assert(kept == before + after);
    if t < k {
        assert(carved[t] == rects[t]);
    } else if t < k + kept.len() {
        assert(carved[t] == kept[t - k]);
        if t - k < before.len() {
            assert(kept[t - k] == before[t - k]);
        } else {
            assert(kept[t - k] == after[t - k - before.len()]);
        }
    } else {
        assert(carved[t] == rects[t - kept.len() + 1]);
    }
}

/// Carving the room of an event out of a stretch that holds it keeps the
/// stretches sound for the columns with the event placed, and the event
/// overlaps no event of its column.
pub proof fn lemma_carve_sound(
    columns: Seq<Seq<Event>>,
    rects: Seq<FreeRect>,
    k: int,
    event: Event,
)
    requires
        rects_sound(columns, rects),
        0 <= k < rects.len(),
        rects[k].holds(event),
        event.is_span(),
    ensures
        rects_sound(
            place(columns, rects[k].column_index as int, event),
            carve(rects, k, event),
        ),
        forall|i: int|
            0 <= i < columns[rects[k].column_index as int].len() ==> !(
            #[trigger] columns[rects[k].column_index as int][i]).overlaps(event),
{
    let c = rects[k].column_index as int;
    let placed = place(columns, c, event);
    let carved = carve(rects, k, event);
    assert forall|i: int| 0 <= i < columns[c].len() implies !(#[trigger] columns[c][i]).overlaps(
        event,
    ) by {
        assert(rects[k].clear_of(columns[rects[k].column_index as int][i]));
    }
    assert forall|t: int| 0 <= t < carved.len() implies (#[trigger] carved[t]).is_open()
        && carved[t].column_index < placed.len() by {
        lemma_carve_origin(rects, k, event, t);
        assert(rects[origin(rects, k, event, t)].is_open());
    }
    assert forall|t: int, i: int|
        0 <= t < carved.len() && 0 <= i < placed[carved[t].column_index as int].len()
        implies carved[t].clear_of(#[trigger] placed[carved[t].column_index as int][i]) by {
        lemma_carve_origin(rects, k, event, t);
        let o = origin(rects, k, event, t);
        let col = carved[t].column_index as int;
        assert(rects[o].is_open());
        if col == c && i == columns[c].len() {
            assert(placed[col][i] == event);
            if o != k {
                if o < k {
                    assert(rects[o].apart(rects[k]));
                } else {
                    assert(rects[k].apart(rects[o]));
                }
            }
        } else {
            assert(placed[col][i] == columns[col][i]);
            assert(rects[o].clear_of(columns[rects[o].column_index as int][i]));
        }
    }
    assert forall|a: int, b: int|
        0 <= a < b < carved.len() && (#[trigger] carved[a]).column_index == (
        #[trigger] carved[b]).column_index implies carved[a].apart(carved[b]) by {
        lemma_carve_origin(rects, k, event, a);
        lemma_carve_origin(rects, k, event, b);
        let oa = origin(rects, k, event, a);
        let ob = origin(rects, k, event, b);
        if oa < ob {
            assert(rects[oa].apart(rects[ob]));
        }
    }
}

/// Stretches that are sound for some columns stay sound when a new column opens.
pub proof fn lemma_open_sound(columns: Seq<Seq<Event>>, rects: Seq<FreeRect>, event: Event)
    requires
        rects_sound(columns, rects),
    ensures
        rects_sound(columns.push(seq![event]), rects),
{
    let opened = columns.push(seq![event]);
    assert forall|k: int, i: int|
        0 <= k < rects.len() && 0 <= i < opened[rects[k].column_index as int].len()
        implies rects[k].clear_of(#[trigger] opened[rects[k].column_index as int][i]) by {
        assert(rects[k].is_open());
        assert(opened[rects[k].column_index as int] == columns[rects[k].column_index as int]);
        assert(rects[k].clear_of(columns[rects[k].column_index as int][i]));
    }
}

/// Appending an admitted event to a column whose events it does not overlap
/// keeps the columns tidy and clear, and the stretched bounds are right.
proof fn lemma_placed(g: GroupView, h: GroupView, c: int, event: Event)
    requires
        columns_tidy(g.columns),
        columns_clear(g.columns),
        g.bounds_enclose(),
        g.bounds_met(),
        g.admits(event),
        0 <= c < g.columns.len(),
        forall|i: int| 0 <= i < g.columns[c].len() ==> !(#[trigger] g.columns[c][i]).overlaps(event),
        h.columns == place(g.columns, c, event),
        h.start == g.start_with(event),
        h.end == g.end_with(event),
    ensures
        columns_tidy(h.columns),
        columns_clear(h.columns),
        h.bounds_enclose(),
        h.bounds_met(),
{
    let n = g.columns[c].len() as int;
    assert(h.columns[c][n] == event);
    assert forall|b: int, i: int|
        0 <= b < h.columns.len() && 0 <= i < h.columns[b].len() implies (
    #[trigger] h.columns[b][i]).is_span() && h.start <= h.columns[b][i].start
        && h.columns[b][i].end <= h.end by {
        if !(b == c && i == n) {
            assert(h.columns[b][i] == g.columns[b][i]);
        }
    }
    assert forall|b: int, i: int, j: int|
        0 <= b < h.columns.len() && 0 <= i < j < h.columns[b].len() implies (
    #[trigger] h.columns[b][i]).start <= (#[trigger] h.columns[b][j]).start && !h.columns[b][i].overlaps(
        h.columns[b][j],
    ) by {
        assert(h.columns[b][i] == g.columns[b][i]);
        if !(b == c && j == n) {
            assert(h.columns[b][j] == g.columns[b][j]);
        }
    }
    assert forall|b: int| 0 <= b < h.columns.len() implies (#[trigger] h.columns[b]).len() > 0 by {
        assert(g.columns[b].len() > 0);
    }
    let (cs, is) = choose|cs: int, is: int|
        0 <= cs < g.columns.len() && 0 <= is < g.columns[cs].len() && (
        #[trigger] g.columns[cs][is]).start == g.start;
    let (ce, ie) = choose|ce: int, ie: int|
        0 <= ce < g.columns.len() && 0 <= ie < g.columns[ce].len() && (
        #[trigger] g.columns[ce][ie]).end == g.end;
    assert(h.columns[cs][is] == g.columns[cs][is]);
    assert(h.columns[ce][ie] == g.columns[ce][ie]);
    if event.start < g.start {
        assert(h.columns[c][n].start == h.start);
    } else {
        assert(h.columns[cs][is].start == h.start);
    }
    if event.end > g.end {
        assert(h.columns[c][n].end == h.end);
    } else {
        assert(h.columns[ce][ie].end == h.end);
    }
}

/// Opening a new column for an admitted event keeps the columns tidy and
/// clear, and the stretched bounds are right.
proof fn lemma_opened(g: GroupView, h: GroupView, event: Event)
    requires
        columns_tidy(g.columns),
        columns_clear(g.columns),
        g.bounds_enclose(),
        g.bounds_met(),
        g.admits(event),
        g.columns.len() < usize::MAX,
        h.columns == g.columns.push(seq![event]),
        h.start == g.start_with(event),
        h.end == g.end_with(event),
    ensures
        columns_tidy(h.columns),
        columns_clear(h.columns),
        h.bounds_enclose(),
        h.bounds_met(),
{
    let c = g.columns.len() as int;
    assert(h.columns[c][0] == event);
    assert forall|b: int, i: int|
        0 <= b < h.columns.len() && 0 <= i < h.columns[b].len() implies (
    #[trigger] h.columns[b][i]).is_span() && h.start <= h.columns[b][i].start
        && h.columns[b][i].end <= h.end by {
        if b < c {
            assert(h.columns[b][i] == g.columns[b][i]);
        }
    }
    assert forall|b: int, i: int, j: int|
        0 <= b < h.columns.len() && 0 <= i < j < h.columns[b].len() implies (
    #[trigger] h.columns[b][i]).start <= (#[trigger] h.columns[b][j]).start && !h.columns[b][i].overlaps(
        h.columns[b][j],
    ) by {
        assert(h.columns[b][i] == g.columns[b][i]);
        assert(h.columns[b][j] == g.columns[b][j]);
    }
    assert forall|b: int| 0 <= b < h.columns.len() implies (#[trigger] h.columns[b]).len() > 0 by {
        if b < c {
            assert(g.columns[b].len() > 0);
        }
    }
    if c > 0 {
        let (cs, is) = choose|cs: int, is: int|
            0 <= cs < g.columns.len() && 0 <= is < g.columns[cs].len() && (
            #[trigger] g.columns[cs][is]).start == g.start;
        let (ce, ie) = choose|ce: int, ie: int|
            0 <= ce < g.columns.len() && 0 <= ie < g.columns[ce].len() && (
            #[trigger] g.columns[ce][ie]).end == g.end;
        assert(h.columns[cs][is] == g.columns[cs][is]);
        assert(h.columns[ce][ie] == g.columns[ce][ie]);
        if event.start >= g.start {
            assert(h.columns[cs][is].start == h.start);
        }
        if event.end <= g.end {
            assert(h.columns[ce][ie].end == h.end);
        }
    }
    if event.start < g.start || c == 0 {
        assert(h.columns[c][0].start == h.start);
    }
    if event.end > g.end || c == 0 {
        assert(h.columns[c][0].end == h.end);
    }
}

/// Appending an event behind a column that has ended by its start keeps
/// every column chained, and the event overlaps no event of that column.
proof fn lemma_appended_chained(columns: Seq<Seq<Event>>, c: int, event: Event)
    requires
        columns_tidy(columns),
        columns_chained(columns),
        0 <= c < columns.len(),
        columns[c].last().end <= event.start,
    ensures
        columns_chained(place(columns, c, event)),
        forall|i: int| 0 <= i < columns[c].len() ==> !(#[trigger] columns[c][i]).overlaps(event),
{
    let grown = place(columns, c, event);
    let n = columns[c].len() as int;
    assert(columns[c].len() > 0);
    assert forall|i: int| 0 <= i < n implies (#[trigger] columns[c][i]).end <= event.start by {
        if i < n - 1 {
            assert(columns[c][i].end <= columns[c][n - 1].start);
            assert(columns[c][n - 1].is_span());
        }
    }
    assert forall|b: int, i: int, j: int|
        0 <= b < grown.len() && 0 <= i < j < grown[b].len() implies (#[trigger] grown[b][i]).end <= (
    #[trigger] grown[b][j]).start by {
        assert(grown[b][i] == columns[b][i]);
        if b == c && j == n {
            assert(columns[c][i].end <= event.start);
        } else {
            assert(grown[b][j] == columns[b][j]);
        }
    }
}

/// Opening a new column keeps every column chained.
proof fn lemma_opened_chained(columns: Seq<Seq<Event>>, event: Event)
    requires
        columns_chained(columns),
    ensures
        columns_chained(columns.push(seq![event])),
{
    let grown = columns.push(seq![event]);
    assert forall|b: int, i: int, j: int|
        0 <= b < grown.len() && 0 <= i < j < grown[b].len() implies (#[trigger] grown[b][i]).end <= (
    #[trigger] grown[b][j]).start by {
        assert(grown[b][i] == columns[b][i]);
        assert(grown[b][j] == columns[b][j]);
    }
}

/// No stretch at all is sound for any columns.
proof fn lemma_no_rects_sound(columns: Seq<Seq<Event>>)
    ensures
        rects_sound(columns, Seq::empty()),
{
}

/// The empty group is well-formed.
pub proof fn lemma_empty_wf(policy: PackingPolicy)
    ensures
        GroupView::empty(policy).wf(),
{
}

/// Adding an admitted event to a well-formed group leaves it well-formed,
/// as long as the columns can still be counted.
pub proof fn lemma_add_wf(g: GroupView, event: Event)
    requires
        g.wf(),
        g.admits(event),
        g.add(event).columns.len() <= usize::MAX,
    ensures
        g.add(event).wf(),
{
    let h = g.add(event);
    match g.policy {
        PackingPolicy::RectangleReuse => {
            match first_fit(g.free, event) {
                Some(k) => {
                    assert(is_first_fit(g.free, event, k));
                    lemma_carve_sound(g.columns, g.free, k, event);
                    lemma_placed(g, h, g.free[k].column_index as int, event);
                },
                None => {
                    let fresh = vacancies(g.columns, g.start_with(event), g.end_with(event));
                    lemma_vacancies_sound(g.columns, g.start_with(event), g.end_with(event));
                    match first_fit(fresh, event) {
                        Some(k) => {
                            assert(is_first_fit(fresh, event, k));
                            lemma_carve_sound(g.columns, fresh, k, event);
                            lemma_placed(g, h, fresh[k].column_index as int, event);
                        },
                        None => {
                            lemma_open_sound(g.columns, g.free, event);
                            lemma_opened(g, h, event);
                        },
                    }
                },
            }
        },
        PackingPolicy::GreedyAppend => {
            lemma_no_rects_sound(h.columns);
            match first_open(g.columns, event) {
                Some(c) => {
                    assert(is_first_open(g.columns, event, c));
                    lemma_appended_chained(g.columns, c, event);
                    lemma_placed(g, h, c, event);
                },
                None => {
                    lemma_opened_chained(g.columns, event);
                    lemma_opened(g, h, event);
                },
            }
        },
    }
}

/// Adding an event appends it to one column or opens a column for it, and
/// stretches the bounds to it.
pub proof fn lemma_add_shape(g: GroupView, event: Event)
    requires
        g.wf(),
    ensures
        grows_by(g.columns, g.add(event).columns, event),
        g.add(event).start == g.start_with(event),
        g.add(event).end == g.end_with(event),
        g.add(event).policy == g.policy,
{
    let h = g.add(event);
    match g.policy {
        PackingPolicy::RectangleReuse => {
            match first_fit(g.free, event) {
                Some(k) => {
                    assert(is_first_fit(g.free, event, k));
                    assert(h.columns == place(g.columns, g.free[k].column_index as int, event));
                },
                None => {
                    let fresh = vacancies(g.columns, g.start_with(event), g.end_with(event));
                    lemma_vacancies_sound(g.columns, g.start_with(event), g.end_with(event));
                    match first_fit(fresh, event) {
                        Some(k) => {
                            assert(is_first_fit(fresh, event, k));
                            assert(h.columns == place(
                                g.columns,
                                fresh[k].column_index as int,
                                event,
                            ));
                        },
                        None => {},
                    }
                },
            }
        },
        PackingPolicy::GreedyAppend => {
            match first_open(g.columns, event) {
                Some(c) => {
                    assert(is_first_open(g.columns, event, c));
                    assert(h.columns == place(g.columns, c, event));
                },
                None => {},
            }
        },
    }
}

/// Once an admitted event has joined, every member has started by its start.
pub proof fn lemma_add_started(g: GroupView, event: Event)
    requires
        g.wf(),
        g.admits(event),
    ensures
        g.add(event).started_by(event.start),
{
    lemma_add_shape(g, event);
    let h = g.add(event);
    assert forall|c: int, i: int|
        0 <= c < h.columns.len() && 0 <= i < h.columns[c].len() implies (
    #[trigger] h.columns[c][i]).start <= event.start by {
        if h.columns == g.columns.push(seq![event]) {
            if c < g.columns.len() {
                assert(h.columns[c][i] == g.columns[c][i]);
            }
        } else {
            let b = choose|b: int|
                0 <= b < g.columns.len() && h.columns == #[trigger] place(g.columns, b, event);
            if !(c == b && i == g.columns[b].len()) {
                assert(h.columns[c][i] == g.columns[c][i]);
            }
        }
    }
}

/// A valid event that joins valid members leaves all members valid.
pub proof fn lemma_add_valid(g: GroupView, event: Event)
    requires
        g.wf(),
        g.members_valid(),
        event.is_valid(),
    ensures
        g.add(event).members_valid(),
{
    lemma_add_shape(g, event);
    let h = g.add(event);
    assert forall|c: int, i: int|
        0 <= c < h.columns.len() && 0 <= i < h.columns[c].len() implies (
    #[trigger] h.columns[c][i]).is_valid() by {
        if h.columns == g.columns.push(seq![event]) {
            if c < g.columns.len() {
                assert(h.columns[c][i] == g.columns[c][i]);
            }
        } else {
            let b = choose|b: int|
                0 <= b < g.columns.len() && h.columns == #[trigger] place(g.columns, b, event);
            if !(c == b && i == g.columns[b].len()) {
                assert(h.columns[c][i] == g.columns[c][i]);
            }
        }
    }
}

/// Adding an event adds it once to the members of the group, and at most
/// one column.
pub proof fn lemma_add_members(g: GroupView, event: Event)
    requires
        g.wf(),
    ensures
        g.add(event).members().to_multiset() == g.members().to_multiset().insert(event),
        g.columns.len() <= g.add(event).columns.len() <= g.columns.len() + 1,
        g.add(event).columns.len() > 0,
        g.add(event).policy == g.policy,
{
    match g.policy {
        PackingPolicy::RectangleReuse => {
            match first_fit(g.free, event) {
                Some(k) => {
                    assert(is_first_fit(g.free, event, k));
                    lemma_flatten_extend(
                        g.columns,
                        g.free[k].column_index as int,
                        event,
                    );
                },
                None => {
                    let fresh = vacancies(g.columns, g.start_with(event), g.end_with(event));
                    lemma_vacancies_sound(g.columns, g.start_with(event), g.end_with(event));
                    match first_fit(fresh, event) {
                        Some(k) => {
                            assert(is_first_fit(fresh, event, k));
                            lemma_flatten_extend(
                                g.columns,
                                fresh[k].column_index as int,
                                event,
                            );
                        },
                        None => {
                            lemma_flatten_open(g.columns, event);
                        },
                    }
                },
            }
        },
        PackingPolicy::GreedyAppend => {
            match first_open(g.columns, event) {
                Some(c) => {
                    assert(is_first_open(g.columns, event, c));
                    lemma_flatten_extend(g.columns, c, event);
                },
                None => {
                    lemma_flatten_open(g.columns, event);
                },
            }
        },
    }
}

} // verus!

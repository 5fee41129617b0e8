//! What holds of every layout.

use vstd::prelude::*;
use vstd::seq_lib::*;
use crate::event::{all_spans, all_valid, Event};
use crate::invariants::{lemma_add_members, lemma_add_shape, lemma_add_valid, lemma_empty_wf};
use crate::layout::{seat, LayoutGroupView};
use crate::order::{lemma_swept_permutes, lemma_swept_starts_ascend, sweep_order, swept};
use crate::packing::{GroupView, PackingPolicy};
use crate::seqs::{
    lemma_flatten_index, lemma_flatten_locate, lemma_offset_ends, lemma_offset_grows,
    lemma_offset_step, lemma_same_shape, offset,
};
use crate::sweep::{clusters, layouts, lemma_front, lemma_sweep_wf, starts_ascend, sweep};

verus! {

/// The members of all groups, group by group.
pub open spec fn all_members(groups: Seq<GroupView>) -> Seq<Event> {
    Seq::new(groups.len(), |g: int| groups[g].members()).flatten()
}

/// The events of all laid-out groups, group by group.
pub open spec fn all_events(laid: Seq<LayoutGroupView>) -> Seq<Event> {
    Seq::new(laid.len(), |g: int| laid[g].events()).flatten()
}

/// Valid events are spans.
pub proof fn lemma_valid_spans(events: Seq<Event>)
    requires
        all_valid(events),
    ensures
        all_spans(events),
{
    assert forall|i: int| 0 <= i < events.len() implies (#[trigger] events[i]).is_span() by {
        assert(events[i].is_valid());
    }
}

/// Sweeping keeps spans spans and valid events valid, and sorts by start.
pub proof fn lemma_swept_keeps(events: Seq<Event>)
    ensures
        starts_ascend(swept(events)),
        all_spans(events) ==> all_spans(swept(events)),
        all_valid(events) ==> all_valid(swept(events)),
{
    lemma_swept_permutes(events);
    lemma_swept_starts_ascend(events);
    let order = sweep_order(events);
    if all_spans(events) {
        assert forall|i: int| 0 <= i < swept(events).len() implies (#[trigger] swept(
            events,
        )[i]).is_span() by {
            assert(events[order[i]].is_span());
        }
    }
    if all_valid(events) {
        assert forall|i: int| 0 <= i < swept(events).len() implies (#[trigger] swept(
            events,
        )[i]).is_valid() by {
            assert(events[order[i]].is_valid());
        }
    }
}

/// The events of a group's layout are its members, in the same order.
pub proof fn lemma_layout_events(group: GroupView)
    ensures
        group.layout().events() == group.members(),
        group.layout().items.len() == group.members().len(),
{
    let seats = group.seats();
    let columns = group.columns;
    let items = group.layout().items;
    lemma_same_shape(seats, columns, columns.len() as int);
    lemma_offset_ends(seats);
    lemma_offset_ends(columns);
    assert forall|k: int| 0 <= k < items.len() implies group.layout().events()[k]
        == group.members()[k] by {
        let at = lemma_flatten_locate(seats, k);
        lemma_same_shape(seats, columns, at.0);
        lemma_flatten_index(columns, at.0, at.1);
    }
    assert(group.layout().events() =~= group.members());
}

/// A sweep keeps every event it is given, as often as it occurs.
pub proof fn lemma_sweep_conserves(sorted: Seq<Event>, policy: PackingPolicy)
    requires
        all_spans(sorted),
        starts_ascend(sorted),
        sorted.len() <= usize::MAX,
    ensures
        all_members(sweep(sorted, policy)).to_multiset() == sorted.to_multiset(),
    decreases sorted.len(),
{
    broadcast use vstd::multiset::group_multiset_axioms;

    if sorted.len() == 0 {
        assert(all_members(sweep(sorted, policy)) =~= sorted);
    } else {
        let front = sorted.drop_last();
        let event = sorted.last();
        let before = sweep(front, policy);
        let after = sweep(sorted, policy);
        lemma_front(sorted);
        lemma_sweep_conserves(front, policy);
        lemma_sweep_wf(front, policy);
        assert(sorted =~= front.push(event));
        to_multiset_build(front, event);
        let parts_before = Seq::new(before.len(), |g: int| before[g].members());
        let parts_after = Seq::new(after.len(), |g: int| after[g].members());
        if before.len() > 0 && before.last().overlaps(event) {
            let latest = before.last();
            let joined = latest.add(event);
            lemma_add_members(latest, event);
            let rest = parts_before.drop_last();
            assert(parts_before =~= rest.push(latest.members()));
            assert(parts_after =~= rest.push(joined.members()));
            rest.lemma_flatten_push(latest.members());
            rest.lemma_flatten_push(joined.members());
            lemma_multiset_commutative(rest.flatten(), latest.members());
            lemma_multiset_commutative(rest.flatten(), joined.members());
            assert(all_members(after).to_multiset() =~= all_members(before).to_multiset().insert(
                event,
            ));
        } else {
            let fresh = GroupView::empty(policy);
            let opened = fresh.add(event);
            lemma_empty_wf(policy);
            lemma_add_members(fresh, event);
            assert(fresh.members() =~= Seq::<Event>::empty());
            fresh.members().to_multiset_ensures();
            assert(fresh.members().to_multiset() =~= vstd::multiset::Multiset::<Event>::empty());
            assert(parts_after =~= parts_before.push(opened.members()));
            parts_before.lemma_flatten_push(opened.members());
            lemma_multiset_commutative(parts_before.flatten(), opened.members());
            assert(all_members(after).to_multiset() =~= all_members(before).to_multiset().insert(
                event,
            ));
        }
    }
}

/// Conservation: every event of the input appears in the layouts, exactly
/// as often as it occurs in the input.
pub proof fn lemma_events_conserved(events: Seq<Event>, policy: PackingPolicy)
    requires
        all_spans(events),
        events.len() <= usize::MAX,
    ensures
        all_events(layouts(events, policy)).to_multiset() == events.to_multiset(),
        all_members(clusters(events, policy)).to_multiset() == events.to_multiset(),
{
    lemma_swept_permutes(events);
    lemma_swept_keeps(events);
    lemma_sweep_conserves(swept(events), policy);
    let groups = clusters(events, policy);
    let laid = layouts(events, policy);
    assert forall|g: int| 0 <= g < groups.len() implies laid[g].events()
        == groups[g].members() by {
        lemma_layout_events(groups[g]);
    }
    assert(Seq::new(laid.len(), |g: int| laid[g].events()) =~= Seq::new(
        groups.len(),
        |g: int| groups[g].members(),
    ));
}

/// The layout of a well-formed group gives every item its exact lengths,
/// which make up the group's span, and a column that the group has.
pub proof fn lemma_layout_sums(group: GroupView)
    requires
        group.wf(),
    ensures
        group.layout().seats_exact(),
        group.layout().fractions_sum(),
        group.layout().columns_in_range(),
{
    let seats = group.seats();
    let laid = group.layout();
    assert forall|k: int| 0 <= k < laid.items.len() implies #[trigger] laid.items[k] == seat(
        laid.items[k].event,
        laid.items[k].column,
        laid.start,
        laid.end,
    ) && laid.start <= laid.items[k].event.start <= laid.items[k].event.end <= laid.end
        && laid.items[k].top + laid.items[k].height + laid.items[k].bottom == laid.end
        - laid.start && laid.items[k].column < laid.column_count by {
        let at = lemma_flatten_locate(seats, k);
        assert(group.columns[at.0][at.1].is_span());
    }
}

/// The layout of a well-formed group with at least one column has the
/// earliest start and the latest end of its events as its bounds, and lists
/// its items column by column, none of the columns empty.
pub proof fn lemma_layout_shape(group: GroupView)
    requires
        group.wf(),
        group.columns.len() > 0,
    ensures
        group.layout().bounds_met(),
        group.layout().column_major(),
{
    let seats = group.seats();
    let laid = group.layout();
    let (cs, is) = choose|cs: int, is: int|
        0 <= cs < group.columns.len() && 0 <= is < group.columns[cs].len() && (
        #[trigger] group.columns[cs][is]).start == group.start;
    lemma_flatten_index(seats, cs, is);
    assert(laid.items[offset(seats, cs) + is].event.start == laid.start);
    let (ce, ie) = choose|ce: int, ie: int|
        0 <= ce < group.columns.len() && 0 <= ie < group.columns[ce].len() && (
        #[trigger] group.columns[ce][ie]).end == group.end;
    lemma_flatten_index(seats, ce, ie);
    assert(laid.items[offset(seats, ce) + ie].event.end == laid.end);
    assert forall|a: int, b: int| 0 <= a <= b < laid.items.len() implies (
    #[trigger] laid.items[a]).column <= (#[trigger] laid.items[b]).column by {
        let at_a = lemma_flatten_locate(seats, a);
        let at_b = lemma_flatten_locate(seats, b);
        if at_a.0 > at_b.0 {
            lemma_offset_grows(seats, at_b.0 + 1, at_a.0);
            lemma_offset_step(seats, at_b.0);
        }
    }
    assert forall|c: int| 0 <= c < laid.column_count implies #[trigger] laid.occupies(c) by {
        assert(group.columns[c].len() > 0);
        lemma_flatten_index(seats, c, 0);
        assert(laid.items[offset(seats, c) + 0].column == c);
    }
}

/// Fractions: in every layout each item holds the lengths from the group's
/// start to the event's start, from there to the event's end, and from there
/// to the group's end. The three make up the span of the group, so the
/// three fractions make up the whole.
pub proof fn lemma_fractions_sum(events: Seq<Event>, policy: PackingPolicy)
    requires
        all_spans(events),
        events.len() <= usize::MAX,
    ensures
        forall|g: int|
            0 <= g < layouts(events, policy).len() ==> (#[trigger] layouts(
                events,
                policy,
            )[g]).fractions_sum() && layouts(events, policy)[g].seats_exact(),
{
    lemma_swept_permutes(events);
    lemma_swept_keeps(events);
    lemma_sweep_wf(swept(events), policy);
    let groups = clusters(events, policy);
    assert forall|g: int| 0 <= g < layouts(events, policy).len() implies (#[trigger] layouts(
        events,
        policy,
    )[g]).fractions_sum() && layouts(events, policy)[g].seats_exact() by {
        lemma_layout_sums(groups[g]);
    }
}

/// Shape: every layout has at least one item; its bounds are the earliest
/// start and the latest end of its events; its items come column by column,
/// each in one of the group's columns; no column is empty, and no two items
/// of a column overlap.
pub proof fn lemma_groups_shaped(events: Seq<Event>, policy: PackingPolicy)
    requires
        all_spans(events),
        events.len() <= usize::MAX,
    ensures
        forall|g: int|
            0 <= g < layouts(events, policy).len() ==> {
                &&& (#[trigger] layouts(events, policy)[g]).bounds_met()
                &&& layouts(events, policy)[g].column_major()
                &&& layouts(events, policy)[g].columns_in_range()
                &&& layouts(events, policy)[g].columns_clear()
            },
        layouts(events, policy).len() <= events.len(),
{
    lemma_swept_permutes(events);
    lemma_swept_keeps(events);
    lemma_sweep_wf(swept(events), policy);
    let groups = clusters(events, policy);
    assert forall|g: int| 0 <= g < layouts(events, policy).len() implies {
        &&& (#[trigger] layouts(events, policy)[g]).bounds_met()
        &&& layouts(events, policy)[g].column_major()
        &&& layouts(events, policy)[g].columns_in_range()
        &&& layouts(events, policy)[g].columns_clear()
    } by {
        lemma_layout_sums(groups[g]);
        lemma_layout_shape(groups[g]);
        lemma_layout_clear(groups[g]);
    }
}

/// No events, no groups.
pub proof fn lemma_layout_of_nothing(policy: PackingPolicy)
    ensures
        layouts(Seq::empty(), policy) == Seq::<LayoutGroupView>::empty(),
{
    lemma_swept_permutes(Seq::empty());
    assert(swept(Seq::empty()).len() == 0);
    assert(layouts(Seq::empty(), policy) =~= Seq::<LayoutGroupView>::empty());
}

/// A single event is a group of its own: one column, one item, and the
/// bounds of the event.
pub proof fn lemma_layout_of_one(event: Event, policy: PackingPolicy)
    requires
        event.is_span(),
    ensures
        layouts(seq![event], policy) == seq![
            LayoutGroupView {
                start: event.start,
                end: event.end,
                column_count: 1,
                items: seq![seat(event, 0, event.start, event.end)],
            },
        ],
{
    let events = seq![event];
    lemma_swept_permutes(events);
    let order = sweep_order(events);
    assert(order[0] == 0);
    assert(swept(events) =~= events);
    assert(events.drop_last() =~= Seq::<Event>::empty());
    let fresh = GroupView::empty(policy);
    assert(sweep(events.drop_last(), policy) =~= Seq::<GroupView>::empty());
    assert(sweep(events, policy) =~= seq![fresh.add(event)]);
    lemma_empty_wf(policy);
    lemma_add_shape(fresh, event);
    let only = fresh.add(event);
    assert(only.columns =~= seq![seq![event]]);
    let seats = only.seats();
    assert(only.start == event.start && only.end == event.end);
    assert(seats[0] =~= seq![seat(event, 0, event.start, event.end)]);
    assert(seats =~= seq![seq![seat(event, 0, event.start, event.end)]]);
    seats.lemma_flatten_singleton();
    assert(layouts(events, policy) =~= seq![only.layout()]);
}

/// A well-formed group of valid members spans a stretch of time, and it
/// has started by any time by which its members have.
pub proof fn lemma_group_span(group: GroupView, time: u64)
    requires
        group.wf(),
        group.members_valid(),
        group.columns.len() > 0,
    ensures
        group.start < group.end,
        group.started_by(time) ==> group.start <= time,
{
    let (c, i) = choose|c: int, i: int|
        0 <= c < group.columns.len() && 0 <= i < group.columns[c].len() && (
        #[trigger] group.columns[c][i]).start == group.start;
    assert(group.columns[c][i].is_valid());
}

/// A sweep over valid events in ascending order of start builds groups of
/// valid members that lie one behind the other in time.
pub proof fn lemma_sweep_valid(sorted: Seq<Event>, policy: PackingPolicy)
    requires
        all_valid(sorted),
        starts_ascend(sorted),
        sorted.len() <= usize::MAX,
    ensures
        forall|g: int|
            0 <= g < sweep(sorted, policy).len() ==> (#[trigger] sweep(
                sorted,
                policy,
            )[g]).members_valid() && sweep(sorted, policy)[g].start < sweep(sorted, policy)[g].end,
        forall|a: int, b: int|
            0 <= a < b < sweep(sorted, policy).len() ==> (#[trigger] sweep(sorted, policy)[a]).end <= (
            #[trigger] sweep(sorted, policy)[b]).start,
    decreases sorted.len(),
{
    lemma_valid_spans(sorted);
    lemma_sweep_wf(sorted, policy);
    if sorted.len() > 0 {
        let front = sorted.drop_last();
        let event = sorted.last();
        let before = sweep(front, policy);
        let after = sweep(sorted, policy);
        lemma_front(sorted);
        lemma_valid_spans(front);
        lemma_sweep_valid(front, policy);
        lemma_sweep_wf(front, policy);
        if before.len() > 0 {
            lemma_group_span(before.last(), event.start);
        }
        if before.len() > 0 && before.last().overlaps(event) {
            let latest = before.last();
            lemma_add_shape(latest, event);
            lemma_add_valid(latest, event);
            assert(after[before.len() - 1] == latest.add(event));
            assert forall|g: int| 0 <= g < after.len() implies (#[trigger] after[g]).members_valid()
                && after[g].start < after[g].end by {
                if g < before.len() - 1 {
                    assert(after[g] == before[g]);
                }
            }
            assert forall|a: int, b: int| 0 <= a < b < after.len() implies (#[trigger] after[a]).end <= (
            #[trigger] after[b]).start by {
                assert(after[a] == before[a]);
                if b < before.len() - 1 {
                    assert(after[b] == before[b]);
                } else {
                    assert(before[a].end <= before[b].start);
                }
            }
        } else {
            let fresh = GroupView::empty(policy);
            lemma_empty_wf(policy);
            lemma_add_shape(fresh, event);
            lemma_add_valid(fresh, event);
            assert(after[before.len() as int] == fresh.add(event));
            assert forall|g: int| 0 <= g < after.len() implies (#[trigger] after[g]).members_valid()
                && after[g].start < after[g].end by {
                if g < before.len() {
                    assert(after[g] == before[g]);
                }
            }
            assert forall|a: int, b: int| 0 <= a < b < after.len() implies (#[trigger] after[a]).end <= (
            #[trigger] after[b]).start by {
                assert(after[a] == before[a]);
                if b < before.len() {
                    assert(after[b] == before[b]);
                } else if a < before.len() - 1 {
                    assert(before[a].end <= before[before.len() - 1].start);
                }
            }
        }
    }
}

/// In the layout of a well-formed group no two items of one column overlap.
pub proof fn lemma_layout_clear(group: GroupView)
    requires
        group.wf(),
    ensures
        group.layout().columns_clear(),
{
    let seats = group.seats();
    let laid = group.layout();
    assert forall|a: int, b: int|
        0 <= a < b < laid.items.len() && (#[trigger] laid.items[a]).column == (
        #[trigger] laid.items[b]).column implies !laid.items[a].event.overlaps(
        laid.items[b].event,
    ) by {
        let at_a = lemma_flatten_locate(seats, a);
        let at_b = lemma_flatten_locate(seats, b);
        assert(at_a.0 == at_b.0);
        assert(!group.columns[at_a.0][at_a.1].overlaps(group.columns[at_a.0][at_b.1]));
    }
}

/// In the layout of a well-formed group of valid members, of two items in
/// one column the earlier one ends before the later one starts.
pub proof fn lemma_layout_ordered(group: GroupView)
    requires
        group.wf(),
        group.members_valid(),
    ensures
        group.layout().columns_ordered(),
{
    let seats = group.seats();
    let laid = group.layout();
    assert forall|a: int, b: int|
        0 <= a < b < laid.items.len() && (#[trigger] laid.items[a]).column == (
        #[trigger] laid.items[b]).column implies laid.items[a].event.end
        <= laid.items[b].event.start by {
        let at_a = lemma_flatten_locate(seats, a);
        let at_b = lemma_flatten_locate(seats, b);
        assert(at_a.0 == at_b.0);
        let column = group.columns[at_a.0];
        assert(group.columns[at_a.0][at_a.1].is_valid());
        assert(group.columns[at_a.0][at_b.1].is_valid());
        assert(column[at_a.1].start <= column[at_b.1].start);
        assert(!column[at_a.1].overlaps(column[at_b.1]));
    }
}

/// Columns: in every layout of valid events, no two items of one column
/// overlap; the one that comes first ends before the other starts.
pub proof fn lemma_columns_ordered(events: Seq<Event>, policy: PackingPolicy)
    requires
        all_valid(events),
        events.len() <= usize::MAX,
    ensures
        forall|g: int|
            0 <= g < layouts(events, policy).len() ==> (#[trigger] layouts(
                events,
                policy,
            )[g]).columns_ordered(),
{
    lemma_swept_permutes(events);
    lemma_swept_keeps(events);
    lemma_valid_spans(swept(events));
    lemma_sweep_wf(swept(events), policy);
    lemma_sweep_valid(swept(events), policy);
    let groups = clusters(events, policy);
    assert forall|g: int| 0 <= g < layouts(events, policy).len() implies (#[trigger] layouts(
        events,
        policy,
    )[g]).columns_ordered() by {
        lemma_layout_ordered(groups[g]);
    }
}

/// Groups: the layouts of valid events lie one behind the other in time.
/// Each spans a stretch of time, and each ends before the next one starts,
/// so no two overlap and their starts ascend.
pub proof fn lemma_groups_ordered(events: Seq<Event>, policy: PackingPolicy)
    requires
        all_valid(events),
        events.len() <= usize::MAX,
    ensures
        forall|g: int|
            0 <= g < layouts(events, policy).len() ==> (#[trigger] layouts(events, policy)[g]).start
                < layouts(events, policy)[g].end,
        forall|a: int, b: int|
            0 <= a < b < layouts(events, policy).len() ==> (#[trigger] layouts(
                events,
                policy,
            )[a]).end <= (#[trigger] layouts(events, policy)[b]).start,
{
    lemma_swept_permutes(events);
    lemma_swept_keeps(events);
    lemma_sweep_valid(swept(events), policy);
    let groups = clusters(events, policy);
    assert forall|a: int, b: int| 0 <= a < b < layouts(events, policy).len() implies (
    #[trigger] layouts(events, policy)[a]).end <= (#[trigger] layouts(events, policy)[b]).start by {
        assert(groups[a].end <= groups[b].start);
    }
    assert forall|g: int| 0 <= g < layouts(events, policy).len() implies (#[trigger] layouts(
        events,
        policy,
    )[g]).start < layouts(events, policy)[g].end by {
        assert(groups[g].members_valid());
    }
}

} // verus!

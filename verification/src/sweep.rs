//! The sweep that clusters events into groups and lays the groups out.

use vstd::prelude::*;
use crate::event::{all_spans, all_valid, Event};
use crate::group::Group;
use crate::invariants::{lemma_add_members, lemma_add_started, lemma_add_wf, lemma_empty_wf};
use crate::laws::{
    all_events, lemma_columns_ordered, lemma_events_conserved, lemma_fractions_sum,
    lemma_groups_ordered, lemma_groups_shaped,
};
use crate::layout::{layout_views, LayoutGroup, LayoutGroupView};
use crate::order::{
    is_sweep_order, lemma_swept_permutes, lemma_swept_starts_ascend, positions, sweep_order,
    sweep_positions, swept,
};
use crate::packing::{GroupView, PackingPolicy};

verus! {

/// The groups that a sweep over `sorted` builds, front to back: an event
/// joins the latest group if it overlaps that group's span, and starts a new
/// group otherwise.
pub open spec fn sweep(sorted: Seq<Event>, policy: PackingPolicy) -> Seq<GroupView>
    decreases sorted.len(),
{
    if sorted.len() == 0 {
        Seq::empty()
    } else {
        let before = sweep(sorted.drop_last(), policy);
        let event = sorted.last();
        if before.len() > 0 && before.last().overlaps(event) {
            before.update(before.len() - 1, before.last().add(event))
        } else {
            before.push(GroupView::empty(policy).add(event))
        }
    }
}

/// The groups of `events`: the sweep over the events in sweep order.
pub open spec fn clusters(events: Seq<Event>, policy: PackingPolicy) -> Seq<GroupView> {
    sweep(swept(events), policy)
}

/// The layouts of the groups of `events`.
pub open spec fn layouts(events: Seq<Event>, policy: PackingPolicy) -> Seq<LayoutGroupView> {
    Seq::new(clusters(events, policy).len(), |g: int| clusters(events, policy)[g].layout())
}

/// The views of a sequence of groups.
pub open spec fn group_views(groups: Seq<Group>) -> Seq<GroupView> {
    Seq::new(groups.len(), |g: int| groups[g]@)
}

/// No event starts before an earlier one of the sequence.
pub open spec fn starts_ascend(sorted: Seq<Event>) -> bool {
    forall|a: int, b: int|
        0 <= a <= b < sorted.len() ==> (#[trigger] sorted[a]).start <= (#[trigger] sorted[b]).start
}

/// What holds of every event of a sequence, and the order of its starts,
/// holds of the sequence without its last event.
pub proof fn lemma_front(sorted: Seq<Event>)
    requires
        sorted.len() > 0,
    ensures
        starts_ascend(sorted) ==> starts_ascend(sorted.drop_last()) && (sorted.len() > 1
            ==> sorted.drop_last().last().start <= sorted.last().start),
        all_spans(sorted) ==> all_spans(sorted.drop_last()) && sorted.last().is_span(),
        all_valid(sorted) ==> all_valid(sorted.drop_last()) && sorted.last().is_valid(),
{
    let front = sorted.drop_last();
    if starts_ascend(sorted) {
        assert forall|a: int, b: int| 0 <= a <= b < front.len() implies (#[trigger] front[a]).start <= (
        #[trigger] front[b]).start by {
            assert(sorted[a].start <= sorted[b].start);
        }
        if sorted.len() > 1 {
            assert(front.last() == sorted[front.len() - 1]);
            assert(sorted[front.len() - 1].start <= sorted[sorted.len() - 1].start);
        }
    }
    if all_spans(sorted) {
        assert forall|i: int| 0 <= i < front.len() implies (#[trigger] front[i]).is_span() by {
            assert(sorted[i].is_span());
        }
        assert(sorted[sorted.len() - 1].is_span());
    }
    if all_valid(sorted) {
        assert forall|i: int| 0 <= i < front.len() implies (#[trigger] front[i]).is_valid() by {
            assert(sorted[i].is_valid());
        }
        assert(sorted[sorted.len() - 1].is_valid());
    }
}

/// A sweep over spans in ascending order of start builds well-formed groups
/// in which every one has at least one column and no more columns than
/// there are events, and the latest group admits whatever starts no earlier
/// than the last event swept.
pub proof fn lemma_sweep_wf(sorted: Seq<Event>, policy: PackingPolicy)
    requires
        all_spans(sorted),
        starts_ascend(sorted),
        sorted.len() <= usize::MAX,
    ensures
        forall|g: int|
            0 <= g < sweep(sorted, policy).len() ==> {
                let group = #[trigger] sweep(sorted, policy)[g];
                group.wf() && 0 < group.columns.len() <= sorted.len() && group.policy == policy
            },
        sorted.len() > 0 ==> sweep(sorted, policy).len() > 0 && sweep(
            sorted,
            policy,
        ).last().started_by(sorted.last().start),
        sweep(sorted, policy).len() <= sorted.len(),
    decreases sorted.len(),
{
    if sorted.len() > 0 {
        let front = sorted.drop_last();
        let event = sorted.last();
        let before = sweep(front, policy);
        let after = sweep(sorted, policy);
        lemma_front(sorted);
        lemma_sweep_wf(front, policy);
        if before.len() > 0 && before.last().overlaps(event) {
            let latest = before.last();
            assert(latest.admits(event));
            lemma_add_members(latest, event);
            lemma_add_wf(latest, event);
            lemma_add_started(latest, event);
            assert forall|g: int| 0 <= g < after.len() implies {
                let group = #[trigger] after[g];
                group.wf() && 0 < group.columns.len() <= sorted.len() && group.policy == policy
            } by {
                if g < before.len() - 1 {
                    assert(after[g] == before[g]);
                }
            }
        } else {
            let fresh = GroupView::empty(policy);
            lemma_empty_wf(policy);
            assert(fresh.admits(event));
            lemma_add_members(fresh, event);
            lemma_add_wf(fresh, event);
            lemma_add_started(fresh, event);
            assert forall|g: int| 0 <= g < after.len() implies {
                let group = #[trigger] after[g];
                group.wf() && 0 < group.columns.len() <= sorted.len() && group.policy == policy
            } by {
                if g < before.len() {
                    assert(after[g] == before[g]);
                }
            }
        }
    }
}

/// Clusters `events` into groups and packs each group by `policy`.
pub fn group_events(events: &[Event], policy: PackingPolicy) -> (groups: Vec<Group>)
    requires
        all_spans(events@),
    ensures
        group_views(groups@) == clusters(events@, policy),
        forall|g: int| 0 <= g < groups.len() ==> (#[trigger] groups@[g])@.wf(),
{
    let order = sweep_positions(events);
    let ghost sorted = swept(events@);
    proof {
        lemma_swept_permutes(events@);
        lemma_swept_starts_ascend(events@);
        assert forall|i: int| 0 <= i < sorted.len() implies (#[trigger] sorted[i]).is_span() by {
            assert(events@[positions(order@)[i]].is_span());
        }
    }
    let mut groups: Vec<Group> = Vec::new();
    let mut k: usize = 0;
    while k < order.len()
        invariant
            k <= order.len(),
            order.len() == events.len(),
            positions(order@) == sweep_order(events@),
            is_sweep_order(events@, positions(order@)),
            sorted == swept(events@),
            all_spans(sorted),
            starts_ascend(sorted),
            group_views(groups@) == sweep(sorted.take(k as int), policy),
        decreases order.len() - k,
    {
        let ghost done = sorted.take(k as int);
        let ghost next = sorted.take(k + 1);
        assert(positions(order@)[k as int] == order@[k as int]);
        let event = events[order[k]];
        proof {
            assert(event == sorted[k as int]);
            assert(next.drop_last() =~= done);
            assert(next.last() == event);
            assert forall|a: int, b: int| 0 <= a <= b < next.len() implies (#[trigger] next[a]).start
                <= (#[trigger] next[b]).start by {
                assert(sorted[a].start <= sorted[b].start);
            }
            assert forall|i: int| 0 <= i < next.len() implies (#[trigger] next[i]).is_span() by {
                assert(sorted[i].is_span());
            }
            lemma_front(next);
            lemma_sweep_wf(done, policy);
        }
        let n = groups.len();
        let ghost before = group_views(groups@);
        if n > 0 && groups[n - 1].is_overlap(&event) {
            assert(before[n - 1] == groups@[n - 1]@);
            assert(before.last().admits(event));
            groups[n - 1].add(event);
            assert(group_views(groups@) =~= before.update(n - 1, before.last().add(event)));
        } else {
            if n > 0 {
                assert(before[n - 1] == groups@[n - 1]@);
            }
            let mut group = Group::with_policy(policy);
            group.add(event);
            groups.push(group);
            assert(group_views(groups@) =~= before.push(GroupView::empty(policy).add(event)));
        }
        k += 1;
    }
    proof {
        assert(sorted.take(k as int) =~= sorted);
        lemma_sweep_wf(sorted, policy);
        assert forall|g: int| 0 <= g < groups.len() implies (#[trigger] groups@[g])@.wf() by {
            assert(group_views(groups@)[g] == groups@[g]@);
        }
    }
    groups
}

/// The layouts keep every event. Each has the earliest start and the
/// latest end of its events as its bounds, gives every item its exact
/// lengths, which make up the span of the group, and lists its items column
/// by column, no two of a column overlapping. Where all events are valid,
/// the items of a column and the groups themselves lie one behind the other.
pub open spec fn sound_layouts(events: Seq<Event>, laid: Seq<LayoutGroupView>) -> bool {
    &&& all_events(laid).to_multiset() == events.to_multiset()
    &&& laid.len() <= events.len()
    &&& forall|g: int|
        0 <= g < laid.len() ==> {
            &&& (#[trigger] laid[g]).seats_exact()
            &&& laid[g].fractions_sum()
            &&& laid[g].bounds_met()
            &&& laid[g].column_major()
            &&& laid[g].columns_in_range()
            &&& laid[g].columns_clear()
        }
    &&& all_valid(events) ==> {
        &&& forall|g: int|
            0 <= g < laid.len() ==> (#[trigger] laid[g]).columns_ordered() && laid[g].start
                < laid[g].end
        &&& forall|a: int, b: int|
            0 <= a < b < laid.len() ==> (#[trigger] laid[a]).end <= (#[trigger] laid[b]).start
    }
}

/// The layouts of spans are sound.
pub proof fn lemma_layouts_sound(events: Seq<Event>, policy: PackingPolicy)
    requires
        all_spans(events),
        events.len() <= usize::MAX,
    ensures
        sound_layouts(events, layouts(events, policy)),
{
    lemma_events_conserved(events, policy);
    lemma_fractions_sum(events, policy);
    lemma_groups_shaped(events, policy);
    if all_valid(events) {
        lemma_columns_ordered(events, policy);
        lemma_groups_ordered(events, policy);
    }
}

/// Lays out `events` with groups packed by `policy`.
pub fn process_events_with(events: &[Event], policy: PackingPolicy) -> (laid: Vec<LayoutGroup>)
    requires
        all_spans(events@),
    ensures
        layout_views(laid@) == layouts(events@, policy),
        sound_layouts(events@, layout_views(laid@)),
{
    let groups = group_events(events, policy);
    let mut laid: Vec<LayoutGroup> = Vec::new();
    let mut g: usize = 0;
    while g < groups.len()
        invariant
            g <= groups.len(),
            group_views(groups@) == clusters(events@, policy),
            forall|i: int| 0 <= i < groups.len() ==> (#[trigger] groups@[i])@.wf(),
            laid.len() == g,
            forall|i: int| 0 <= i < g ==> (#[trigger] laid@[i])@ == clusters(events@, policy)[i].layout(),
        decreases groups.len() - g,
    {
        assert(group_views(groups@)[g as int] == groups@[g as int]@);
        laid.push(groups[g].calc_layout());
        g += 1;
    }
    proof {
        assert(layout_views(laid@) =~= layouts(events@, policy));
        assert(events@.len() == events.len());
        lemma_layouts_sound(events@, policy);
    }
    laid
}

/// Lays out `events`: clusters them into groups of overlapping events,
/// packs each group into columns by first fit with reuse, and reports the
/// place of every event within its group.
pub fn process_events_impl(events: &[Event]) -> (laid: Vec<LayoutGroup>)
    requires
        all_spans(events@),
    ensures
        layout_views(laid@) == layouts(events@, PackingPolicy::RectangleReuse),
        sound_layouts(events@, layout_views(laid@)),
{
    process_events_with(events, PackingPolicy::RectangleReuse)
}

} // verus!

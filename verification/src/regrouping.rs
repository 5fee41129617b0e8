//! Clustering depends on what the events are, not on the order in which
//! they are given.

use vstd::prelude::*;
use vstd::seq_lib::*;
use crate::event::{all_spans, all_valid, Event};
use crate::invariants::{lemma_add_shape, lemma_empty_wf};
use crate::laws::{
    all_events, lemma_events_conserved, lemma_layout_events, lemma_swept_keeps, lemma_sweep_valid,
    lemma_valid_spans,
};
use crate::layout::LayoutGroupView;
use crate::order::{lemma_swept_permutes, precedes, sweep_order, swept};
use crate::packing::{GroupView, PackingPolicy};
use crate::seqs::{lemma_flatten_count, lemma_flatten_locate};
use crate::sweep::{clusters, layouts, lemma_front, lemma_sweep_wf, starts_ascend, sweep};

verus! {

/// The spans of the events, in order.
pub open spec fn spans_of(events: Seq<Event>) -> Seq<(u64, u64)> {
    Seq::new(events.len(), |i: int| (events[i].start, events[i].end))
}

/// A span is swept no later than another.
pub open spec fn span_leq(a: (u64, u64), b: (u64, u64)) -> bool {
    a.0 < b.0 || (a.0 == b.0 && a.1 >= b.1)
}

/// Two sequences of groups are the same clustering: as many groups, each
/// with the same bounds and the same members, as often as each occurs.
pub open spec fn same_clusters(one: Seq<GroupView>, other: Seq<GroupView>) -> bool {
    &&& one.len() == other.len()
    &&& forall|g: int|
        0 <= g < one.len() ==> (#[trigger] one[g]).start == other[g].start && one[g].end
            == other[g].end && one[g].members().to_multiset() == other[g].members().to_multiset()
}

/// Two sequences of layouts show the same clustering: as many groups, each
/// with the same bounds and the same events, as often as each occurs.
pub open spec fn same_groups(one: Seq<LayoutGroupView>, other: Seq<LayoutGroupView>) -> bool {
    &&& one.len() == other.len()
    &&& forall|g: int|
        0 <= g < one.len() ==> (#[trigger] one[g]).start == other[g].start && one[g].end
            == other[g].end && one[g].events().to_multiset() == other[g].events().to_multiset()
}

/// Sequences that hold the same events hold the same spans.
proof fn lemma_spans_multiset(one: Seq<Event>, other: Seq<Event>)
    requires
        one.to_multiset() == other.to_multiset(),
    ensures
        spans_of(one).to_multiset() == spans_of(other).to_multiset(),
    decreases one.len(),
{
    broadcast use vstd::multiset::group_multiset_axioms;

    to_multiset_len(one);
    to_multiset_len(other);
    if one.len() == 0 {
        assert(spans_of(one) =~= spans_of(other));
    } else {
        let x = one.last();
        let front = one.drop_last();
        assert(one =~= front.push(x));
        to_multiset_build(front, x);
        to_multiset_contains(one, x);
        to_multiset_contains(other, x);
        assert(one.contains(x));
        let j = choose|j: int| 0 <= j < other.len() && other[j] == x;
        let rest = other.remove(j);
        to_multiset_remove(other, j);
        assert(front.to_multiset() =~= rest.to_multiset());
        lemma_spans_multiset(front, rest);
        let span = (x.start, x.end);
        assert(spans_of(one) =~= spans_of(front).push(span));
        assert(spans_of(other) =~= spans_of(rest).insert(j, span));
        to_multiset_build(spans_of(front), span);
        to_multiset_insert(spans_of(rest), j, span);
    }
}

/// Sequences that hold the same events are swept span for span alike.
pub proof fn lemma_swept_spans_agree(one: Seq<Event>, other: Seq<Event>)
    requires
        one.to_multiset() == other.to_multiset(),
    ensures
        spans_of(swept(one)) == spans_of(swept(other)),
{
    lemma_swept_permutes(one);
    lemma_swept_permutes(other);
    lemma_spans_multiset(swept(one), swept(other));
    let leq = |a: (u64, u64), b: (u64, u64)| span_leq(a, b);
    let xs = spans_of(swept(one));
    let ys = spans_of(swept(other));
    assert(vstd::relations::sorted_by(xs, leq)) by {
        let order = sweep_order(one);
        assert forall|i: int, j: int| 0 <= i < j < xs.len() implies #[trigger] leq(xs[i], xs[j]) by {
            assert(precedes(one, order[i], order[j]));
        }
    }
    assert(vstd::relations::sorted_by(ys, leq)) by {
        let order = sweep_order(other);
        assert forall|i: int, j: int| 0 <= i < j < ys.len() implies #[trigger] leq(ys[i], ys[j]) by {
            assert(precedes(other, order[i], order[j]));
        }
    }
    assert(vstd::relations::total_ordering(leq)) by {
        assert forall|a: (u64, u64), b: (u64, u64)| #[trigger] leq(a, b) && #[trigger] leq(
            b,
            a,
        ) implies a == b by {
            assert(a.0 == b.0 && a.1 == b.1);
        }
    }
    lemma_sorted_unique(xs, ys, leq);
}

/// Sweeps over sequences with the same spans build as many groups, with the
/// same bounds.
pub proof fn lemma_sweep_bounds_agree(one: Seq<Event>, other: Seq<Event>, policy: PackingPolicy)
    requires
        spans_of(one) == spans_of(other),
        all_spans(one),
        all_spans(other),
        starts_ascend(one),
        starts_ascend(other),
        one.len() <= usize::MAX,
    ensures
        sweep(one, policy).len() == sweep(other, policy).len(),
        forall|g: int|
            0 <= g < sweep(one, policy).len() ==> (#[trigger] sweep(one, policy)[g]).start == sweep(
                other,
                policy,
            )[g].start && sweep(one, policy)[g].end == sweep(other, policy)[g].end,
    decreases one.len(),
{
    assert(one.len() == spans_of(one).len());
    assert(other.len() == spans_of(other).len());
    if one.len() > 0 {
        let front_one = one.drop_last();
        let front_other = other.drop_last();
        let n = one.len() - 1;
        assert(spans_of(one)[n] == spans_of(other)[n]);
        assert forall|i: int| 0 <= i < n implies spans_of(front_one)[i] == spans_of(
            front_other,
        )[i] by {
            assert(spans_of(one)[i] == spans_of(other)[i]);
        }
        assert(spans_of(front_one) =~= spans_of(front_other));
        lemma_front(one);
        lemma_front(other);
        lemma_sweep_bounds_agree(front_one, front_other, policy);
        lemma_sweep_wf(front_one, policy);
        lemma_sweep_wf(front_other, policy);
        let before_one = sweep(front_one, policy);
        let before_other = sweep(front_other, policy);
        let after_one = sweep(one, policy);
        let after_other = sweep(other, policy);
        let m = before_one.len() as int;
        if m > 0 {
            assert(before_one[m - 1].start == before_other[m - 1].start);
            assert(before_one[m - 1].end == before_other[m - 1].end);
        }
        if m > 0 && before_one.last().overlaps(one.last()) {
            lemma_add_shape(before_one.last(), one.last());
            lemma_add_shape(before_other.last(), other.last());
            assert forall|g: int| 0 <= g < after_one.len() implies (#[trigger] after_one[g]).start
                == after_other[g].start && after_one[g].end == after_other[g].end by {
                if g < m - 1 {
                    assert(after_one[g] == before_one[g]);
                    assert(after_other[g] == before_other[g]);
                }
            }
        } else {
            lemma_empty_wf(policy);
            lemma_add_shape(GroupView::empty(policy), one.last());
            lemma_add_shape(GroupView::empty(policy), other.last());
            assert forall|g: int| 0 <= g < after_one.len() implies (#[trigger] after_one[g]).start
                == after_other[g].start && after_one[g].end == after_other[g].end by {
                if g < m {
                    assert(after_one[g] == before_one[g]);
                    assert(after_other[g] == before_other[g]);
                }
            }
        }
    }
}

/// An event lies within the bounds of a group.
pub open spec fn within(event: Event, group: GroupView) -> bool {
    group.start <= event.start && event.end <= group.end
}

/// A group of valid events holds exactly the events of the input that lie
/// within its bounds, each as often as the input holds it.
pub proof fn lemma_members_by_bounds(events: Seq<Event>, policy: PackingPolicy, g: int, x: Event)
    requires
        all_valid(events),
        events.len() <= usize::MAX,
        0 <= g < clusters(events, policy).len(),
    ensures
        clusters(events, policy)[g].members().to_multiset().count(x) == if within(
            x,
            clusters(events, policy)[g],
        ) {
            events.to_multiset().count(x)
        } else {
            0
        },
{
    broadcast use vstd::multiset::group_multiset_axioms;

    let groups = clusters(events, policy);
    let parts = Seq::new(groups.len(), |h: int| groups[h].members());
    lemma_valid_spans(events);
    lemma_events_conserved(events, policy);
    lemma_swept_permutes(events);
    lemma_swept_keeps(events);
    lemma_valid_spans(swept(events));
    lemma_sweep_wf(swept(events), policy);
    lemma_sweep_valid(swept(events), policy);
    // A group holds only valid events within its bounds.
    assert forall|h: int| 0 <= h < groups.len() && (#[trigger] parts[h]).to_multiset().count(x)
        > 0 implies within(x, groups[h]) && x.is_valid() by {
        to_multiset_contains(parts[h], x);
        let k = choose|k: int| 0 <= k < parts[h].len() && parts[h][k] == x;
        let at = lemma_flatten_locate(groups[h].columns, k);
        assert(groups[h].columns[at.0][at.1] == x);
        assert(groups[h].columns[at.0][at.1].is_valid());
    }
    if within(x, groups[g]) && x.is_valid() {
        assert forall|h: int| 0 <= h < parts.len() && h != g implies (
        #[trigger] parts[h]).to_multiset().count(x) == 0 by {
            if parts[h].to_multiset().count(x) > 0 {
                assert(within(x, groups[h]));
                if h < g {
                    assert(groups[h].end <= groups[g].start);
                } else {
                    assert(groups[g].end <= groups[h].start);
                }
            }
        }
        lemma_flatten_count(parts, g, x);
    } else if within(x, groups[g]) {
        to_multiset_contains(events, x);
        if events.contains(x) {
            let i = choose|i: int| 0 <= i < events.len() && events[i] == x;
            assert(events[i].is_valid());
        }
        assert(parts[g].to_multiset().count(x) == 0);
    } else {
        assert(parts[g].to_multiset().count(x) == 0);
    }
}

/// Clustering depends on the events alone: inputs that hold the same valid
/// events, in whatever order, are clustered into the same groups.
pub proof fn lemma_clusters_of_same_events(
    events: Seq<Event>,
    again: Seq<Event>,
    policy: PackingPolicy,
)
    requires
        all_valid(events),
        events.len() <= usize::MAX,
        again.to_multiset() == events.to_multiset(),
    ensures
        all_valid(again),
        same_clusters(clusters(events, policy), clusters(again, policy)),
{
    broadcast use vstd::multiset::group_multiset_axioms;

    to_multiset_len(events);
    to_multiset_len(again);
    assert forall|i: int| 0 <= i < again.len() implies (#[trigger] again[i]).is_valid() by {
        to_multiset_contains(again, again[i]);
        to_multiset_contains(events, again[i]);
        assert(again.contains(again[i]));
        let j = choose|j: int| 0 <= j < events.len() && events[j] == again[i];
        assert(events[j].is_valid());
    }
    lemma_valid_spans(events);
    lemma_valid_spans(again);
    lemma_swept_permutes(events);
    lemma_swept_permutes(again);
    lemma_swept_keeps(events);
    lemma_swept_keeps(again);
    lemma_swept_spans_agree(events, again);
    lemma_sweep_bounds_agree(swept(events), swept(again), policy);
    let one = clusters(events, policy);
    let other = clusters(again, policy);
    assert forall|g: int| 0 <= g < one.len() implies (#[trigger] one[g]).members().to_multiset()
        == other[g].members().to_multiset() by {
        assert forall|x: Event|
            one[g].members().to_multiset().count(x) == other[g].members().to_multiset().count(
                x,
            ) by {
            lemma_members_by_bounds(events, policy, g, x);
            lemma_members_by_bounds(again, policy, g, x);
        }
        assert(one[g].members().to_multiset() =~= other[g].members().to_multiset());
    }
}

/// Idempotence of clustering: laying out the events of all groups of a
/// layout once more, in whatever order they are put together, yields the
/// same groups.
pub proof fn lemma_regrouping_is_idempotent(
    events: Seq<Event>,
    again: Seq<Event>,
    policy: PackingPolicy,
)
    requires
        all_valid(events),
        events.len() <= usize::MAX,
        again.to_multiset() == all_events(layouts(events, policy)).to_multiset(),
    ensures
        same_groups(layouts(events, policy), layouts(again, policy)),
{
    lemma_valid_spans(events);
    lemma_events_conserved(events, policy);
    lemma_clusters_of_same_events(events, again, policy);
    let one = clusters(events, policy);
    let other = clusters(again, policy);
    assert forall|g: int| 0 <= g < one.len() implies (#[trigger] layouts(
        events,
        policy,
    )[g]).events().to_multiset() == layouts(again, policy)[g].events().to_multiset() by {
        lemma_layout_events(one[g]);
        lemma_layout_events(other[g]);
        assert(one[g].members().to_multiset() == other[g].members().to_multiset());
    }
}

} // verus!

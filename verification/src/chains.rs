//! Groups are the classes of events that chains of overlaps connect.

use vstd::prelude::*;
use vstd::seq_lib::*;
use crate::event::{all_valid, Event};
use crate::invariants::{lemma_add_members, lemma_empty_wf};
use crate::laws::{
    all_events, lemma_events_conserved, lemma_fractions_sum, lemma_groups_ordered,
    lemma_layout_events, lemma_swept_keeps, lemma_valid_spans,
};
use crate::order::{lemma_swept_permutes, swept};
use crate::packing::{GroupView, PackingPolicy};
use crate::seqs::{lemma_flatten_index, lemma_flatten_locate, offset};
use crate::sweep::{clusters, layouts, lemma_front, lemma_sweep_wf, starts_ascend, sweep};

verus! {

/// `path` is a chain of events of `pool`, each overlapping the next.
pub open spec fn is_chain(pool: Seq<Event>, path: Seq<Event>) -> bool {
    &&& path.len() > 0
    &&& forall|i: int| 0 <= i < path.len() ==> pool.contains(#[trigger] path[i])
    &&& forall|i: int| 0 <= i < path.len() - 1 ==> (#[trigger] path[i]).overlaps(path[i + 1])
}

/// `path` is a chain within `pool` that leads from `x` to `y`.
pub open spec fn joins(pool: Seq<Event>, path: Seq<Event>, x: Event, y: Event) -> bool {
    is_chain(pool, path) && path.first() == x && path.last() == y
}

/// A chain of overlaps within `pool` connects `x` and `y`.
pub open spec fn linked(pool: Seq<Event>, x: Event, y: Event) -> bool {
    exists|path: Seq<Event>| joins(pool, path, x, y)
}

/// `hub` is an event of `pool` that chains connect with every event of `pool`.
pub open spec fn is_hub(pool: Seq<Event>, hub: Event) -> bool {
    pool.contains(hub) && forall|x: Event| #[trigger] pool.contains(x) ==> linked(pool, hub, x)
}

/// Chains connect every event of `pool` with every other.
pub open spec fn connected(pool: Seq<Event>) -> bool {
    exists|hub: Event| is_hub(pool, hub)
}

/// Every event of a pool is linked with itself.
pub proof fn lemma_link_self(pool: Seq<Event>, x: Event)
    requires
        pool.contains(x),
    ensures
        linked(pool, x, x),
{
    let path = seq![x];
    assert(path[0] == x);
    assert(joins(pool, path, x, x));
}

/// A link reaches on to an event that overlaps its end.
pub proof fn lemma_link_extend(pool: Seq<Event>, x: Event, y: Event, z: Event)
    requires
        linked(pool, x, y),
        pool.contains(z),
        y.overlaps(z),
    ensures
        linked(pool, x, z),
{
    let path = choose|path: Seq<Event>| joins(pool, path, x, y);
    let longer = path.push(z);
    assert forall|i: int| 0 <= i < longer.len() implies pool.contains(#[trigger] longer[i]) by {
        if i < path.len() {
            assert(longer[i] == path[i]);
        }
    }
    assert forall|i: int| 0 <= i < longer.len() - 1 implies (#[trigger] longer[i]).overlaps(
        longer[i + 1],
    ) by {
        assert(longer[i] == path[i]);
        if i < path.len() - 1 {
            assert(longer[i + 1] == path[i + 1]);
        }
    }
    assert(joins(pool, longer, x, z));
}

/// A link can be walked backwards.
pub proof fn lemma_link_reverse(pool: Seq<Event>, x: Event, y: Event)
    requires
        linked(pool, x, y),
    ensures
        linked(pool, y, x),
{
    let path = choose|path: Seq<Event>| joins(pool, path, x, y);
    let n = path.len() as int;
    let back = Seq::new(path.len(), |i: int| path[n - 1 - i]);
    assert forall|i: int| 0 <= i < back.len() implies pool.contains(#[trigger] back[i]) by {
        assert(back[i] == path[n - 1 - i]);
    }
    assert forall|i: int| 0 <= i < back.len() - 1 implies (#[trigger] back[i]).overlaps(
        back[i + 1],
    ) by {
        assert(path[n - 2 - i].overlaps(path[n - 2 - i + 1]));
    }
    assert(joins(pool, back, y, x));
}

/// Two links that meet make one.
pub proof fn lemma_link_concat(pool: Seq<Event>, x: Event, y: Event, z: Event)
    requires
        linked(pool, x, y),
        linked(pool, y, z),
    ensures
        linked(pool, x, z),
{
    let first = choose|path: Seq<Event>| joins(pool, path, x, y);
    let second = choose|path: Seq<Event>| joins(pool, path, y, z);
    let rest = second.drop_first();
    let whole = first + rest;
    let n = first.len() as int;
    assert forall|i: int| 0 <= i < whole.len() implies pool.contains(#[trigger] whole[i]) by {
        if i < n {
            assert(whole[i] == first[i]);
        } else {
            assert(whole[i] == second[i - n + 1]);
        }
    }
    assert forall|i: int| 0 <= i < whole.len() - 1 implies (#[trigger] whole[i]).overlaps(
        whole[i + 1],
    ) by {
        if i < n - 1 {
            assert(first[i].overlaps(first[i + 1]));
        } else if i == n - 1 {
            assert(whole[i] == second[0]);
            assert(whole[i + 1] == second[1]);
            assert(second[0int].overlaps(second[0int + 1]));
        } else {
            assert(whole[i] == second[i - n + 1]);
            assert(whole[i + 1] == second[i - n + 1 + 1]);
            assert(second[i - n + 1].overlaps(second[i - n + 1 + 1]));
        }
    }
    if rest.len() == 0 {
        assert(second.len() == 1);
        assert(y == z);
        assert(whole =~= first);
    }
    assert(joins(pool, whole, x, z));
}

/// A link within a pool is a link within every pool that holds its events.
pub proof fn lemma_link_widen(pool: Seq<Event>, wider: Seq<Event>, x: Event, y: Event)
    requires
        linked(pool, x, y),
        forall|e: Event| #[trigger] pool.contains(e) ==> wider.contains(e),
    ensures
        linked(wider, x, y),
{
    let path = choose|path: Seq<Event>| joins(pool, path, x, y);
    assert forall|i: int| 0 <= i < path.len() implies wider.contains(#[trigger] path[i]) by {
        assert(pool.contains(path[i]));
    }
    assert(joins(wider, path, x, y));
}

/// In a connected pool every two events are linked.
pub proof fn lemma_connected_links(pool: Seq<Event>, x: Event, y: Event)
    requires
        connected(pool),
        pool.contains(x),
        pool.contains(y),
    ensures
        linked(pool, x, y),
{
    let hub = choose|hub: Event| is_hub(pool, hub);
    assert(linked(pool, hub, x));
    assert(linked(pool, hub, y));
    lemma_link_reverse(pool, hub, x);
    lemma_link_concat(pool, x, hub, y);
}

/// The members of a group after an event has joined: the members before, and the event.
proof fn lemma_members_after_add(group: GroupView, event: Event)
    requires
        group.wf(),
    ensures
        forall|x: Event|
            #[trigger] group.add(event).members().contains(x) <==> (group.members().contains(x) || x
                == event),
{
    broadcast use vstd::multiset::group_multiset_axioms;

    lemma_add_members(group, event);
    let before = group.members();
    let after = group.add(event).members();
    assert forall|x: Event| #[trigger] after.contains(x) <==> (before.contains(x) || x == event) by {
        to_multiset_contains(before, x);
        to_multiset_contains(after, x);
    }
}

/// An event that overlaps the span of a well-formed group of valid events,
/// and starts no earlier than any of them, overlaps the member that ends last.
proof fn lemma_overlaps_a_member(group: GroupView, event: Event) -> (member: Event)
    requires
        group.wf(),
        group.columns.len() > 0,
        group.admits(event),
        group.overlaps(event),
        event.is_valid(),
    ensures
        group.members().contains(member),
        member.overlaps(event),
{
    let (c, i) = choose|c: int, i: int|
        0 <= c < group.columns.len() && 0 <= i < group.columns[c].len() && (
        #[trigger] group.columns[c][i]).end == group.end;
    lemma_flatten_index(group.columns, c, i);
    let member = group.columns[c][i];
    assert(group.members()[offset(group.columns, c) + i] == member);
    member
}

/// A sweep over valid events in ascending order of start builds connected groups.
pub proof fn lemma_sweep_connected(sorted: Seq<Event>, policy: PackingPolicy)
    requires
        all_valid(sorted),
        starts_ascend(sorted),
        sorted.len() <= usize::MAX,
    ensures
        forall|g: int|
            0 <= g < sweep(sorted, policy).len() ==> connected(
                (#[trigger] sweep(sorted, policy)[g]).members(),
            ),
    decreases sorted.len(),
{
    lemma_valid_spans(sorted);
    if sorted.len() > 0 {
        let front = sorted.drop_last();
        let event = sorted.last();
        let before = sweep(front, policy);
        let after = sweep(sorted, policy);
        lemma_front(sorted);
        lemma_valid_spans(front);
        lemma_sweep_connected(front, policy);
        lemma_sweep_wf(front, policy);
        if before.len() > 0 && before.last().overlaps(event) {
            let latest = before.last();
            let joined = latest.add(event);
            assert(latest.admits(event));
            lemma_members_after_add(latest, event);
            let pool = latest.members();
            let wider = joined.members();
            let hub = choose|hub: Event| is_hub(pool, hub);
            let member = lemma_overlaps_a_member(latest, event);
            assert forall|x: Event| #[trigger] wider.contains(x) implies linked(wider, hub, x) by {
                if pool.contains(x) {
                    assert(linked(pool, hub, x));
                    lemma_link_widen(pool, wider, hub, x);
                } else {
                    assert(linked(pool, hub, member));
                    lemma_link_widen(pool, wider, hub, member);
                    lemma_link_extend(wider, hub, member, event);
                }
            }
            assert(is_hub(wider, hub));
            assert forall|g: int| 0 <= g < after.len() implies connected(
                (#[trigger] after[g]).members(),
            ) by {
                if g < before.len() - 1 {
                    assert(after[g] == before[g]);
                }
            }
        } else {
            let fresh = GroupView::empty(policy);
            let opened = fresh.add(event);
            lemma_empty_wf(policy);
            lemma_members_after_add(fresh, event);
            assert(fresh.members() =~= Seq::<Event>::empty());
            let pool = opened.members();
            assert(pool.contains(event));
            assert forall|x: Event| #[trigger] pool.contains(x) implies linked(pool, event, x) by {
                assert(!fresh.members().contains(x));
                lemma_link_self(pool, event);
            }
            assert(is_hub(pool, event));
            assert forall|g: int| 0 <= g < after.len() implies connected(
                (#[trigger] after[g]).members(),
            ) by {
                if g < before.len() {
                    assert(after[g] == before[g]);
                }
            }
        }
    }
}

/// Every event of a layout of valid events is a valid event of the input
/// within the bounds of its group.
proof fn lemma_group_events(events: Seq<Event>, policy: PackingPolicy, g: int, x: Event)
    requires
        all_valid(events),
        events.len() <= usize::MAX,
        0 <= g < layouts(events, policy).len(),
        layouts(events, policy)[g].events().contains(x),
    ensures
        events.contains(x),
        x.is_valid(),
        layouts(events, policy)[g].start <= x.start,
        x.end <= layouts(events, policy)[g].end,
{
    broadcast use vstd::multiset::group_multiset_axioms;

    lemma_valid_spans(events);
    lemma_events_conserved(events, policy);
    lemma_fractions_sum(events, policy);
    let laid = layouts(events, policy);
    let parts = Seq::new(laid.len(), |h: int| laid[h].events());
    let k = choose|k: int| 0 <= k < laid[g].events().len() && laid[g].events()[k] == x;
    assert(laid[g].items[k].event == x);
    lemma_flatten_index(parts, g, k);
    assert(all_events(laid)[offset(parts, g) + k] == x);
    to_multiset_contains(all_events(laid), x);
    to_multiset_contains(events, x);
    assert(all_events(laid).contains(x));
    let i = choose|i: int| 0 <= i < events.len() && events[i] == x;
    assert(events[i].is_valid());
}

/// Every event of the input is an event of some layout.
proof fn lemma_event_has_group(events: Seq<Event>, policy: PackingPolicy, x: Event) -> (g: int)
    requires
        all_valid(events),
        events.len() <= usize::MAX,
        events.contains(x),
    ensures
        0 <= g < layouts(events, policy).len(),
        layouts(events, policy)[g].events().contains(x),
{
    broadcast use vstd::multiset::group_multiset_axioms;

    lemma_valid_spans(events);
    lemma_events_conserved(events, policy);
    let laid = layouts(events, policy);
    let parts = Seq::new(laid.len(), |h: int| laid[h].events());
    to_multiset_contains(all_events(laid), x);
    to_multiset_contains(events, x);
    let k = choose|k: int| 0 <= k < all_events(laid).len() && all_events(laid)[k] == x;
    let at = lemma_flatten_locate(parts, k);
    assert(laid[at.0].events()[at.1] == x);
    at.0
}

/// Two events of layouts of valid events that overlap, or are one and the
/// same, lie in the same group.
proof fn lemma_one_group(events: Seq<Event>, policy: PackingPolicy, g: int, h: int, x: Event, y: Event)
    requires
        all_valid(events),
        events.len() <= usize::MAX,
        0 <= g < layouts(events, policy).len(),
        0 <= h < layouts(events, policy).len(),
        layouts(events, policy)[g].events().contains(x),
        layouts(events, policy)[h].events().contains(y),
        x == y || x.overlaps(y),
    ensures
        g == h,
{
    lemma_group_events(events, policy, g, x);
    lemma_group_events(events, policy, h, y);
    lemma_groups_ordered(events, policy);
    let laid = layouts(events, policy);
    if g < h {
        assert(laid[g].end <= laid[h].start);
    } else if h < g {
        assert(laid[h].end <= laid[g].start);
    }
}

/// Every event of a chain that starts in a group lies in that group.
proof fn lemma_chain_stays(
    events: Seq<Event>,
    policy: PackingPolicy,
    g: int,
    path: Seq<Event>,
    i: int,
)
    requires
        all_valid(events),
        events.len() <= usize::MAX,
        0 <= g < layouts(events, policy).len(),
        is_chain(events, path),
        layouts(events, policy)[g].events().contains(path.first()),
        0 <= i < path.len(),
    ensures
        layouts(events, policy)[g].events().contains(path[i]),
    decreases i,
{
    if i > 0 {
        lemma_chain_stays(events, policy, g, path, i - 1);
        assert(events.contains(path[i]));
        let h = lemma_event_has_group(events, policy, path[i]);
        assert(path[i - 1].overlaps(path[i - 1 + 1]));
        lemma_one_group(events, policy, g, h, path[i - 1], path[i]);
    }
}

/// Clusters: two events lie in the same group if and only if a chain of
/// overlapping events of the input connects them.
pub proof fn lemma_same_group_iff_linked(
    events: Seq<Event>,
    policy: PackingPolicy,
    g: int,
    h: int,
    x: Event,
    y: Event,
)
    requires
        all_valid(events),
        events.len() <= usize::MAX,
        0 <= g < layouts(events, policy).len(),
        0 <= h < layouts(events, policy).len(),
        layouts(events, policy)[g].events().contains(x),
        layouts(events, policy)[h].events().contains(y),
    ensures
        g == h <==> linked(events, x, y),
{
    let laid = layouts(events, policy);
    if g == h {
        let pool = laid[g].events();
        lemma_swept_permutes(events);
        lemma_swept_keeps(events);
        lemma_sweep_connected(swept(events), policy);
        lemma_layout_events(clusters(events, policy)[g]);
        assert(connected(pool));
        lemma_connected_links(pool, x, y);
        assert forall|e: Event| #[trigger] pool.contains(e) implies events.contains(e) by {
            lemma_group_events(events, policy, g, e);
        }
        lemma_link_widen(pool, events, x, y);
    }
    if linked(events, x, y) {
        let path = choose|path: Seq<Event>| joins(events, path, x, y);
        lemma_chain_stays(events, policy, g, path, path.len() - 1);
        lemma_one_group(events, policy, g, h, y, y);
    }
}

} // verus!

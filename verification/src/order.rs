//! The order in which events are swept: by start, earliest first; among equal
//! starts the longer event first; among equal spans the earlier input
//! position first.

use vstd::prelude::*;
use crate::event::Event;

verus! {

/// `a` is swept before `b` on account of its span alone.
pub open spec fn sweeps_before(a: Event, b: Event) -> bool {
    a.start < b.start || (a.start == b.start && a.end > b.end)
}

/// Position `i` of `events` is swept before position `j`. Positions with the
/// same span keep their input order, so this is a strict total order on
/// positions.
pub open spec fn precedes(events: Seq<Event>, i: int, j: int) -> bool {
    sweeps_before(events[i], events[j]) || (events[i].start == events[j].start && events[i].end
        == events[j].end && i < j)
}

/// Every two entries of `order` stand in sweep order.
pub open spec fn ascending(events: Seq<Event>, order: Seq<int>) -> bool {
    forall|a: int, b: int|
        0 <= a < b < order.len() ==> precedes(events, #[trigger] order[a], #[trigger] order[b])
}

/// `order` lists each position from `lo` up to `hi` (exclusive), and nothing else.
pub open spec fn covers(order: Seq<int>, lo: int, hi: int) -> bool {
    &&& order.len() == hi - lo
    &&& forall|k: int| 0 <= k < order.len() ==> lo <= #[trigger] order[k] < hi
    &&& forall|i: int| lo <= i < hi ==> order.contains(i)
}

/// `order` is the sweep order of `events`: a permutation of its positions, ascending.
pub open spec fn is_sweep_order(events: Seq<Event>, order: Seq<int>) -> bool {
    covers(order, 0, events.len() as int) && ascending(events, order)
}

/// The sweep order of `events`. It exists and is unique
/// (`lemma_sweep_order_exists`, `lemma_sweep_order_unique`).
pub open spec fn sweep_order(events: Seq<Event>) -> Seq<int> {
    choose|order: Seq<int>| is_sweep_order(events, order)
}

/// The events at the positions that `order` lists, in that order.
pub open spec fn arranged(events: Seq<Event>, order: Seq<int>) -> Seq<Event> {
    Seq::new(order.len(), |k: int| events[order[k]])
}

/// The events in sweep order.
pub open spec fn swept(events: Seq<Event>) -> Seq<Event> {
    arranged(events, sweep_order(events))
}

/// The positions held by a vector of indices.
pub open spec fn positions(indices: Seq<usize>) -> Seq<int> {
    Seq::new(indices.len(), |k: int| indices[k] as int)
}

/// Two sweep orders of the same events agree on their first `k` entries.
proof fn lemma_orders_agree(events: Seq<Event>, a: Seq<int>, b: Seq<int>, k: int)
    requires
        is_sweep_order(events, a),
        is_sweep_order(events, b),
        0 <= k <= events.len(),
    ensures
        forall|i: int| 0 <= i < k ==> a[i] == b[i],
    decreases k,
{
    if k > 0 {
        lemma_orders_agree(events, a, b, k - 1);
        let t = k - 1;
        assert(b.contains(a[t]));
        let m = choose|m: int| 0 <= m < b.len() && b[m] == a[t];
        assert(a.contains(b[t]));
        let w = choose|w: int| 0 <= w < a.len() && a[w] == b[t];
        if m < t {
            assert(precedes(events, a[m], a[t]));
        }
        if w < t {
            assert(precedes(events, b[w], b[t]));
        }
        if m > t && w > t {
            assert(precedes(events, b[t], b[m]));
            assert(precedes(events, a[t], a[w]));
        }
    }
}

/// The sweep order of given events is unique.
pub proof fn lemma_sweep_order_unique(events: Seq<Event>, a: Seq<int>, b: Seq<int>)
    requires
        is_sweep_order(events, a),
        is_sweep_order(events, b),
    ensures
        a == b,
{
    lemma_orders_agree(events, a, b, events.len() as int);
    assert(a =~= b);
}

/// Where position `p` belongs among the first `len` entries of an ascending
/// `order` that does not list it: behind the entries that precede it.
spec fn slot(events: Seq<Event>, order: Seq<int>, p: int, len: int) -> int
    decreases len,
{
    if len <= 0 {
        0
    } else if precedes(events, order[len - 1], p) {
        len
    } else {
        slot(events, order, p, len - 1)
    }
}

/// The entries in front of the slot of `p` precede `p`, and `p` precedes the
/// entries from its slot on.
proof fn lemma_slot(events: Seq<Event>, order: Seq<int>, p: int, len: int)
    requires
        ascending(events, order),
        0 <= len <= order.len(),
        forall|k: int| 0 <= k < order.len() ==> #[trigger] order[k] != p,
    ensures
        0 <= slot(events, order, p, len) <= len,
        forall|k: int|
            0 <= k < slot(events, order, p, len) ==> precedes(events, #[trigger] order[k], p),
        forall|k: int|
            slot(events, order, p, len) <= k < len ==> precedes(events, p, #[trigger] order[k]),
    decreases len,
{
    if len > 0 {
        if precedes(events, order[len - 1], p) {
            assert forall|k: int| 0 <= k < len implies precedes(
                events,
                #[trigger] order[k],
                p,
            ) by {
                if k < len - 1 {
                    assert(precedes(events, order[k], order[len - 1]));
                }
            }
        } else {
            lemma_slot(events, order, p, len - 1);
            assert(order[len - 1] != p);
        }
    }
}

/// Every sequence of events has a sweep order, and arranging the events by
/// it keeps each of them, as often as it occurs.
pub proof fn lemma_sweep_order_exists(events: Seq<Event>) -> (order: Seq<int>)
    ensures
        is_sweep_order(events, order),
        arranged(events, order).to_multiset() == events.to_multiset(),
    decreases events.len(),
{
    if events.len() == 0 {
        let order = Seq::<int>::empty();
        assert(arranged(events, order) =~= events);
        order
    } else {
        let front = events.drop_last();
        let n = front.len() as int;
        let prev = lemma_sweep_order_exists(front);
        assert forall|a: int, b: int| 0 <= a < b < prev.len() implies precedes(
            events,
            #[trigger] prev[a],
            #[trigger] prev[b],
        ) by {
            assert(precedes(front, prev[a], prev[b]));
        }
        lemma_slot(events, prev, n, n);
        let p = slot(events, prev, n, n);
        let order = prev.insert(p, n);
        assert forall|i: int| 0 <= i < n + 1 implies order.contains(i) by {
            if i == n {
                assert(order[p] == i);
            } else {
                assert(prev.contains(i));
                let w = choose|w: int| 0 <= w < prev.len() && prev[w] == i;
                if w < p {
                    assert(order[w] == i);
                } else {
                    assert(order[w + 1] == i);
                }
            }
        }
        assert forall|a: int, b: int| 0 <= a < b < order.len() implies precedes(
            events,
            #[trigger] order[a],
            #[trigger] order[b],
        ) by {
            if b < p {
                assert(precedes(events, prev[a], prev[b]));
            } else if b == p {
                assert(precedes(events, prev[a], n));
            } else if a < p {
                assert(precedes(events, prev[a], prev[b - 1]));
            } else if a == p {
                assert(precedes(events, n, prev[b - 1]));
            } else {
                assert(precedes(events, prev[a - 1], prev[b - 1]));
            }
        }
        assert(arranged(events, order) =~= arranged(front, prev).insert(p, events[n]));
        vstd::seq_lib::to_multiset_insert(arranged(front, prev), p, events[n]);
        assert(events =~= front.push(events[n]));
        vstd::seq_lib::to_multiset_build(front, events[n]);
        order
    }
}

/// The sweep order is a sweep order, and sweeping keeps each event, as often
/// as it occurs in the input.
pub proof fn lemma_swept_permutes(events: Seq<Event>)
    ensures
        is_sweep_order(events, sweep_order(events)),
        swept(events).len() == events.len(),
        swept(events).to_multiset() == events.to_multiset(),
{
    let built = lemma_sweep_order_exists(events);
    lemma_sweep_order_unique(events, built, sweep_order(events));
}

/// Swept events start no earlier than the ones swept before them.
pub proof fn lemma_swept_starts_ascend(events: Seq<Event>)
    ensures
        forall|a: int, b: int|
            0 <= a <= b < events.len() ==> (#[trigger] swept(events)[a]).start <= (
            #[trigger] swept(events)[b]).start,
{
    lemma_swept_permutes(events);
    let order = sweep_order(events);
    assert forall|a: int, b: int| 0 <= a <= b < events.len() implies (#[trigger] swept(
        events,
    )[a]).start <= (#[trigger] swept(events)[b]).start by {
        if a < b {
            assert(precedes(events, order[a], order[b]));
        }
    }
}

/// Whether position `i` is swept before position `j`.
fn goes_first(events: &[Event], i: usize, j: usize) -> (first: bool)
    requires
        i < events.len(),
        j < events.len(),
    ensures
        first == precedes(events@, i as int, j as int),
{
    let a = events[i];
    let b = events[j];
    a.start < b.start || (a.start == b.start && (a.end > b.end || (a.end == b.end && i < j)))
}

/// Merges two ascending runs over adjacent ranges of positions into one.
fn merge(
    events: &[Event],
    left: &Vec<usize>,
    right: &Vec<usize>,
    Ghost(lo): Ghost<int>,
    Ghost(mid): Ghost<int>,
    Ghost(hi): Ghost<int>,
) -> (out: Vec<usize>)
    requires
        0 <= lo <= mid <= hi <= events.len(),
        covers(positions(left@), lo, mid),
        covers(positions(right@), mid, hi),
        ascending(events@, positions(left@)),
        ascending(events@, positions(right@)),
    ensures
        covers(positions(out@), lo, hi),
        ascending(events@, positions(out@)),
{
    let mut out: Vec<usize> = Vec::new();
    let mut i: usize = 0;
    let mut j: usize = 0;
    while i < left.len() || j < right.len()
        invariant
            0 <= lo <= mid <= hi <= events.len(),
            covers(positions(left@), lo, mid),
            covers(positions(right@), mid, hi),
            ascending(events@, positions(left@)),
            ascending(events@, positions(right@)),
            i <= left.len(),
            j <= right.len(),
            out.len() == i + j,
            ascending(events@, positions(out@)),
            forall|k: int| 0 <= k < out.len() ==> lo <= #[trigger] positions(out@)[k] < hi,
            forall|a: int, b: int|
                0 <= a < out.len() && i <= b < left.len() ==> precedes(
                    events@,
                    #[trigger] positions(out@)[a],
                    #[trigger] positions(left@)[b],
                ),
            forall|a: int, b: int|
                0 <= a < out.len() && j <= b < right.len() ==> precedes(
                    events@,
                    #[trigger] positions(out@)[a],
                    #[trigger] positions(right@)[b],
                ),
            forall|k: int|
                0 <= k < i ==> positions(out@).contains(#[trigger] positions(left@)[k]),
            forall|k: int|
                0 <= k < j ==> positions(out@).contains(#[trigger] positions(right@)[k]),
        decreases left.len() - i + right.len() - j,
    {
        let ghost before = positions(out@);
        proof {
            if i < left.len() {
                assert(positions(left@)[i as int] < hi);
            }
            if j < right.len() {
                assert(positions(right@)[j as int] < hi);
            }
        }
        let from_left = if j >= right.len() {
            true
        } else if i >= left.len() {
            false
        } else {
            goes_first(events, left[i], right[j])
        };
        let taken: usize = if from_left {
            left[i]
        } else {
            right[j]
        };
        proof {
            if from_left {
                assert(positions(left@)[i as int] == taken);
            } else {
                assert(positions(right@)[j as int] == taken);
            }
            if i < left.len() && j < right.len() {
                assert(positions(left@)[i as int] < mid);
                assert(positions(right@)[j as int] >= mid);
            }
        }
        out.push(taken);
        if from_left {
            i += 1;
        } else {
            j += 1;
        }
        proof {
            let after = positions(out@);
            assert(after =~= before.push(taken as int));
            assert forall|k: int| 0 <= k < i implies after.contains(
                #[trigger] positions(left@)[k],
            ) by {
                if from_left && k == i - 1 {
                    assert(after[before.len() as int] == positions(left@)[k]);
                } else {
                    let w = choose|w: int|
                        0 <= w < before.len() && before[w] == positions(left@)[k];
                    assert(after[w] == positions(left@)[k]);
                }
            }
            assert forall|k: int| 0 <= k < j implies after.contains(
                #[trigger] positions(right@)[k],
            ) by {
                if !from_left && k == j - 1 {
                    assert(after[before.len() as int] == positions(right@)[k]);
                } else {
                    let w = choose|w: int|
                        0 <= w < before.len() && before[w] == positions(right@)[k];
                    assert(after[w] == positions(right@)[k]);
                }
            }
        }
    }
    proof {
        let merged = positions(out@);
        assert forall|p: int| lo <= p < hi implies merged.contains(p) by {
            if p < mid {
                assert(positions(left@).contains(p));
                let k = choose|k: int|
                    0 <= k < positions(left@).len() && positions(left@)[k] == p;
                assert(merged.contains(positions(left@)[k]));
            } else {
                assert(positions(right@).contains(p));
                let k = choose|k: int|
                    0 <= k < positions(right@).len() && positions(right@)[k] == p;
                assert(merged.contains(positions(right@)[k]));
            }
        }
    }
    out
}

/// Sorts the positions from `lo` up to `hi` (exclusive) into sweep order.
fn sort_between(events: &[Event], lo: usize, hi: usize) -> (out: Vec<usize>)
    requires
        lo <= hi <= events.len(),
    ensures
        covers(positions(out@), lo as int, hi as int),
        ascending(events@, positions(out@)),
    decreases hi - lo,
{
    if hi - lo <= 1 {
        let mut out: Vec<usize> = Vec::new();
        if lo < hi {
            out.push(lo);
            assert(positions(out@)[0] == lo);
        }
        out
    } else {
        let mid: usize = lo + (hi - lo) / 2;
        let left = sort_between(events, lo, mid);
        let right = sort_between(events, mid, hi);
        merge(events, &left, &right, Ghost(lo as int), Ghost(mid as int), Ghost(hi as int))
    }
}

/// The positions of `events` in sweep order.
pub fn sweep_positions(events: &[Event]) -> (out: Vec<usize>)
    ensures
        positions(out@) == sweep_order(events@),
        is_sweep_order(events@, positions(out@)),
{
    let out = sort_between(events, 0, events.len());
    proof {
        lemma_swept_permutes(events@);
        lemma_sweep_order_unique(events@, positions(out@), sweep_order(events@));
    }
    out
}

} // verus!

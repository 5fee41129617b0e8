//! Facts about flattened sequences of sequences.

use vstd::prelude::*;
use vstd::seq_lib::*;

verus! {

/// How many elements the first `c` parts hold together.
pub open spec fn offset<A>(parts: Seq<Seq<A>>, c: int) -> int {
    parts.take(c).flatten().len() as int
}

/// The offsets run from nothing to the length of the flattened sequence.
pub proof fn lemma_offset_ends<A>(parts: Seq<Seq<A>>)
    ensures
        offset(parts, 0) == 0,
        offset(parts, parts.len() as int) == parts.flatten().len(),
{
    assert(parts.take(0) =~= Seq::<Seq<A>>::empty());
    assert(parts.take(parts.len() as int) =~= parts);
}

/// Each part adds its own length to the offset.
pub proof fn lemma_offset_step<A>(parts: Seq<Seq<A>>, c: int)
    requires
        0 <= c < parts.len(),
    ensures
        offset(parts, c + 1) == offset(parts, c) + parts[c].len(),
{
    assert(parts.take(c + 1) =~= parts.take(c).push(parts[c]));
    parts.take(c).lemma_flatten_push(parts[c]);
}

/// Two sequences whose parts have the same lengths have the same offsets.
pub proof fn lemma_same_shape<A, B>(xs: Seq<Seq<A>>, ys: Seq<Seq<B>>, c: int)
    requires
        xs.len() == ys.len(),
        forall|i: int| 0 <= i < xs.len() ==> (#[trigger] xs[i]).len() == ys[i].len(),
        0 <= c <= xs.len(),
    ensures
        offset(xs, c) == offset(ys, c),
    decreases c,
{
    if c > 0 {
        lemma_same_shape(xs, ys, c - 1);
        lemma_offset_step(xs, c - 1);
        lemma_offset_step(ys, c - 1);
    } else {
        lemma_offset_ends(xs);
        lemma_offset_ends(ys);
    }
}

/// Offsets never shrink from one part to a later one.
pub proof fn lemma_offset_grows<A>(parts: Seq<Seq<A>>, c: int, d: int)
    requires
        0 <= c <= d <= parts.len(),
    ensures
        offset(parts, c) <= offset(parts, d),
    decreases d - c,
{
    if c < d {
        lemma_offset_grows(parts, c, d - 1);
        lemma_offset_step(parts, d - 1);
    }
}

/// The element `i` of part `c` stands at `offset(parts, c) + i` of the
/// flattened sequence.
pub proof fn lemma_flatten_index<A>(parts: Seq<Seq<A>>, c: int, i: int)
    requires
        0 <= c < parts.len(),
        0 <= i < parts[c].len(),
    ensures
        0 <= offset(parts, c) + i < parts.flatten().len(),
        parts.flatten()[offset(parts, c) + i] == parts[c][i],
    decreases parts.len(),
{
    let front = parts.drop_last();
    assert(parts =~= front.push(parts.last()));
    front.lemma_flatten_push(parts.last());
    if c == parts.len() - 1 {
        assert(parts.take(c) =~= front);
    } else {
        lemma_flatten_index(front, c, i);
        assert(front.take(c) =~= parts.take(c));
    }
}

/// Every element of a flattened sequence comes from one place of one part.
pub proof fn lemma_flatten_locate<A>(parts: Seq<Seq<A>>, k: int) -> (at: (int, int))
    requires
        0 <= k < parts.flatten().len(),
    ensures
        0 <= at.0 < parts.len(),
        0 <= at.1 < parts[at.0].len(),
        k == offset(parts, at.0) + at.1,
        parts.flatten()[k] == parts[at.0][at.1],
    decreases parts.len(),
{
    if parts.len() == 0 {
        (0, 0)
    } else {
        let front = parts.drop_last();
        assert(parts =~= front.push(parts.last()));
        front.lemma_flatten_push(parts.last());
        if k < front.flatten().len() {
            let at = lemma_flatten_locate(front, k);
            assert(front.take(at.0) =~= parts.take(at.0));
            at
        } else {
            assert(parts.take(parts.len() - 1) =~= front);
            (parts.len() - 1, k - front.flatten().len())
        }
    }
}

/// Where only part `g` may hold `x`, the flattened sequence holds `x` as
/// often as that part does, and not at all if there is no such part.
pub proof fn lemma_flatten_count<A>(parts: Seq<Seq<A>>, g: int, x: A)
    requires
        forall|h: int|
            0 <= h < parts.len() && h != g ==> (#[trigger] parts[h]).to_multiset().count(x) == 0,
    ensures
        parts.flatten().to_multiset().count(x) == if 0 <= g < parts.len() {
            parts[g].to_multiset().count(x)
        } else {
            0
        },
    decreases parts.len(),
{
    broadcast use vstd::multiset::group_multiset_axioms;

    if parts.len() == 0 {
        parts.flatten().to_multiset_ensures();
    } else {
        let front = parts.drop_last();
        let last = parts.last();
        assert(parts =~= front.push(last));
        front.lemma_flatten_push(last);
        lemma_multiset_commutative(front.flatten(), last);
        assert forall|h: int| 0 <= h < front.len() && h != g implies (
        #[trigger] front[h]).to_multiset().count(x) == 0 by {
            assert(front[h] == parts[h]);
        }
        lemma_flatten_count(front, g, x);
    }
}

/// Appending an element to one part adds it once to what the flattened
/// sequence holds.
pub proof fn lemma_flatten_extend<A>(parts: Seq<Seq<A>>, c: int, x: A)
    requires
        0 <= c < parts.len(),
    ensures
        parts.update(c, parts[c].push(x)).flatten().to_multiset() == parts.flatten().to_multiset().insert(
            x,
        ),
    decreases parts.len(),
{
    broadcast use vstd::multiset::group_multiset_axioms;

    let front = parts.drop_last();
    let last = parts.last();
    let grown = parts.update(c, parts[c].push(x));
    assert(parts =~= front.push(last));
    front.lemma_flatten_push(last);
    if c == parts.len() - 1 {
        assert(grown =~= front.push(last.push(x)));
        front.lemma_flatten_push(last.push(x));
        assert(grown.flatten() =~= parts.flatten().push(x));
        to_multiset_build(parts.flatten(), x);
    } else {
        let grown_front = front.update(c, front[c].push(x));
        assert(grown =~= grown_front.push(last));
        grown_front.lemma_flatten_push(last);
        lemma_flatten_extend(front, c, x);
        lemma_multiset_commutative(grown_front.flatten(), last);
        lemma_multiset_commutative(front.flatten(), last);
        assert(grown.flatten().to_multiset() =~= parts.flatten().to_multiset().insert(x));
    }
}

/// A new part of one element adds that element once to what the flattened
/// sequence holds.
pub proof fn lemma_flatten_open<A>(parts: Seq<Seq<A>>, x: A)
    ensures
        parts.push(seq![x]).flatten().to_multiset() == parts.flatten().to_multiset().insert(x),
{
    parts.lemma_flatten_push(seq![x]);
    assert(parts.flatten() + seq![x] =~= parts.flatten().push(x));
    to_multiset_build(parts.flatten(), x);
}

} // verus!

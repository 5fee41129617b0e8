//! Flat buffers: events come in as triples, layouts go out as records.
//!
//! An input buffer holds `id, start, end` for each event. An output buffer
//! holds, for each group in turn, `start, end, column count, item count`, and
//! then `top, bottom, height, column, id, start, end` for each of its items.

use vstd::prelude::*;
use crate::event::{all_valid, Event, LayoutError};
use crate::laws::{all_events, lemma_events_conserved, lemma_valid_spans};
use crate::layout::{layout_views, EventLayout, LayoutGroup, LayoutGroupView};
use crate::packing::PackingPolicy;
use crate::sweep::{layouts, process_events_impl};

verus! {

/// The number of values that make up an event in an input buffer.
pub const EVENT_FIELDS: usize = 3;

/// The number of values that head the record of a group in an output buffer.
pub const LAYOUT_GROUP_FIELDS: usize = 4;

/// The number of values that make up an item in an output buffer.
pub const EVENT_LAYOUT_FIELDS: usize = 7;

/// The event that the `i`-th triple of `buffer` holds.
pub open spec fn record(buffer: Seq<u64>, i: int) -> Event {
    Event { id: buffer[3 * i], start: buffer[3 * i + 1], end: buffer[3 * i + 2] }
}

/// The events that the whole triples of `buffer` hold.
pub open spec fn decoded(buffer: Seq<u64>) -> Seq<Event> {
    Seq::new(buffer.len() / 3, |i: int| record(buffer, i))
}

/// What parsing `buffer` yields: its events, if it is made of whole triples
/// and each of them is a valid event.
pub open spec fn parsed(buffer: Seq<u64>) -> Result<Seq<Event>, LayoutError> {
    if buffer.len() % 3 != 0 {
        Err(LayoutError::MalformedInput)
    } else if !all_valid(decoded(buffer)) {
        Err(LayoutError::InvalidInterval)
    } else {
        Ok(decoded(buffer))
    }
}

/// Reads the events of an input buffer.
pub fn parse_events(events_array: &[u64]) -> (outcome: Result<Vec<Event>, LayoutError>)
    ensures
        match outcome {
            Ok(events) => parsed(events_array@) == Ok::<Seq<Event>, LayoutError>(events@),
            Err(error) => parsed(events_array@) == Err::<Seq<Event>, LayoutError>(error),
        },
{
    if events_array.len() % EVENT_FIELDS != 0 {
        return Err(LayoutError::MalformedInput);
    }
    let count: usize = events_array.len() / EVENT_FIELDS;
    let mut events: Vec<Event> = Vec::new();
    let mut i: usize = 0;
    while i < count
        invariant
            count == events_array@.len() / 3,
            events_array@.len() == 3 * count,
            3 * count <= usize::MAX,
            i <= count,
            events@ == decoded(events_array@).take(i as int),
            all_valid(events@),
        decreases count - i,
    {
        let made = Event::new(
            events_array[EVENT_FIELDS * i],
            events_array[EVENT_FIELDS * i + 1],
            events_array[EVENT_FIELDS * i + 2],
        );
        match made {
            Ok(event) => {
                events.push(event);
                assert(events@ =~= decoded(events_array@).take(i + 1));
            },
            Err(_) => {
                assert(!decoded(events_array@)[i as int].is_valid());
                return Err(LayoutError::InvalidInterval);
            },
        }
        i += 1;
    }
    assert(events@ =~= decoded(events_array@));
    Ok(events)
}

/// The values that stand for one item.
pub open spec fn item_cells(item: EventLayout) -> Seq<u64> {
    seq![
        item.top,
        item.bottom,
        item.height,
        item.column as u64,
        item.event.id,
        item.event.start,
        item.event.end,
    ]
}

/// The values that head the record of a group.
pub open spec fn header_cells(group: LayoutGroupView) -> Seq<u64> {
    seq![group.start, group.end, group.column_count as u64, group.items.len() as u64]
}

/// The values of the items of a group, item by item.
pub open spec fn items_cells(items: Seq<EventLayout>) -> Seq<u64> {
    Seq::new(items.len(), |k: int| item_cells(items[k])).flatten()
}

/// The record of a group: its head, then its items.
pub open spec fn group_cells(group: LayoutGroupView) -> Seq<u64> {
    header_cells(group) + items_cells(group.items)
}

/// The output buffer for `groups`: their records, one after the other.
pub open spec fn encoded(groups: Seq<LayoutGroupView>) -> Seq<u64> {
    Seq::new(groups.len(), |g: int| group_cells(groups[g])).flatten()
}

/// The number of values in the output buffer for `groups`: four for each
/// group and seven for each item.
pub open spec fn encoded_len(groups: Seq<LayoutGroupView>) -> nat
    decreases groups.len(),
{
    if groups.len() == 0 {
        0
    } else {
        encoded_len(groups.drop_last()) + 4 + 7 * groups.last().items.len()
    }
}

/// The values of `n` items are seven times `n` many.
pub proof fn lemma_items_cells_len(items: Seq<EventLayout>)
    ensures
        items_cells(items).len() == 7 * items.len(),
    decreases items.len(),
{
    let parts = Seq::new(items.len(), |k: int| item_cells(items[k]));
    if items.len() > 0 {
        let front = items.drop_last();
        let front_parts = Seq::new(front.len(), |k: int| item_cells(front[k]));
        assert(parts =~= front_parts.push(item_cells(items.last())));
        front_parts.lemma_flatten_push(item_cells(items.last()));
        lemma_items_cells_len(front);
    }
}

/// The output buffer has as many values as `encoded_len` counts.
pub proof fn lemma_encoded_len(groups: Seq<LayoutGroupView>)
    ensures
        encoded(groups).len() == encoded_len(groups),
    decreases groups.len(),
{
    let parts = Seq::new(groups.len(), |g: int| group_cells(groups[g]));
    if groups.len() > 0 {
        let front = groups.drop_last();
        let front_parts = Seq::new(front.len(), |g: int| group_cells(front[g]));
        assert(parts =~= front_parts.push(group_cells(groups.last())));
        front_parts.lemma_flatten_push(group_cells(groups.last()));
        lemma_encoded_len(front);
        lemma_items_cells_len(groups.last().items);
    }
}

/// The output buffer holds four values for each group and seven for each
/// event of the groups.
pub proof fn lemma_encoded_len_total(groups: Seq<LayoutGroupView>)
    ensures
        encoded_len(groups) == 4 * groups.len() + 7 * all_events(groups).len(),
    decreases groups.len(),
{
    let parts = Seq::new(groups.len(), |g: int| groups[g].events());
    if groups.len() == 0 {
        assert(parts =~= Seq::<Seq<Event>>::empty());
    } else {
        let front = groups.drop_last();
        let front_parts = Seq::new(front.len(), |g: int| front[g].events());
        assert(parts =~= front_parts.push(groups.last().events()));
        front_parts.lemma_flatten_push(groups.last().events());
        lemma_encoded_len_total(front);
    }
}

/// Writes laid-out groups to an output buffer.
pub fn generate_result_array(layout_groups: &[LayoutGroup]) -> (result_array: Vec<u64>)
    ensures
        result_array@ == encoded(layout_views(layout_groups@)),
        result_array.len() == encoded_len(layout_views(layout_groups@)),
{
    let ghost views = layout_views(layout_groups@);
    let ghost records = Seq::new(views.len(), |g: int| group_cells(views[g]));
    let mut result_array: Vec<u64> = Vec::new();
    let mut g: usize = 0;
    while g < layout_groups.len()
        invariant
            g <= layout_groups.len(),
            views == layout_views(layout_groups@),
            records == Seq::new(views.len(), |g: int| group_cells(views[g])),
            result_array@ == records.take(g as int).flatten(),
        decreases layout_groups.len() - g,
    {
        let layout_group = &layout_groups[g];
        let ghost base = result_array@;
        let ghost cells = Seq::new(
            layout_group.items@.len(),
            |k: int| item_cells(layout_group.items@[k]),
        );
        assert(views[g as int] == layout_group@);
        result_array.push(layout_group.start);
        result_array.push(layout_group.end);
        result_array.push(layout_group.column_count as u64);
        result_array.push(layout_group.items.len() as u64);
        assert(result_array@ =~= base + header_cells(layout_group@));
        let mut k: usize = 0;
        while k < layout_group.items.len()
            invariant
                k <= layout_group.items.len(),
                cells == Seq::new(
                    layout_group.items@.len(),
                    |k: int| item_cells(layout_group.items@[k]),
                ),
                result_array@ == base + header_cells(layout_group@) + cells.take(k as int).flatten(),
            decreases layout_group.items.len() - k,
        {
            let event_layout = &layout_group.items[k];
            let ghost so_far = result_array@;
            result_array.push(event_layout.top);
            result_array.push(event_layout.bottom);
            result_array.push(event_layout.height);
            result_array.push(event_layout.column as u64);
            result_array.push(event_layout.event.id);
            result_array.push(event_layout.event.start);
            result_array.push(event_layout.event.end);
            proof {
                assert(result_array@ =~= so_far + item_cells(*event_layout));
                assert(cells.take(k + 1) =~= cells.take(k as int).push(cells[k as int]));
                cells.take(k as int).lemma_flatten_push(cells[k as int]);
            }
            k += 1;
        }
        proof {
            assert(cells.take(k as int) =~= cells);
            assert(result_array@ =~= base + group_cells(layout_group@));
            assert(records.take(g + 1) =~= records.take(g as int).push(records[g as int]));
            records.take(g as int).lemma_flatten_push(records[g as int]);
        }
        g += 1;
    }
    proof {
        assert(records.take(g as int) =~= records);
        lemma_encoded_len(views);
    }
    result_array
}

/// What `process_events` writes for `buffer`: the layouts of its events, or
/// nothing at all if it does not parse.
pub open spec fn processed(buffer: Seq<u64>) -> Seq<u64> {
    match parsed(buffer) {
        Ok(events) => encoded(layouts(events, PackingPolicy::RectangleReuse)),
        Err(_) => Seq::empty(),
    }
}

/// The output for a buffer of `n` valid events that fall into `g` groups
/// holds `4 * g + 7 * n` values.
pub proof fn lemma_processed_len(buffer: Seq<u64>)
    requires
        buffer.len() <= usize::MAX,
        parsed(buffer).is_ok(),
    ensures
        processed(buffer).len() == 4 * layouts(
            decoded(buffer),
            PackingPolicy::RectangleReuse,
        ).len() + 7 * (buffer.len() / 3),
{
    let events = decoded(buffer);
    let laid = layouts(events, PackingPolicy::RectangleReuse);
    lemma_valid_spans(events);
    lemma_events_conserved(events, PackingPolicy::RectangleReuse);
    vstd::seq_lib::to_multiset_len(all_events(laid));
    vstd::seq_lib::to_multiset_len(events);
    lemma_encoded_len(laid);
    lemma_encoded_len_total(laid);
}

/// Lays out the events of an input buffer and writes the result to an
/// output buffer. A buffer that does not parse yields an empty one.
pub fn process_events(events_array: &[u64]) -> (result_array: Vec<u64>)
    ensures
        result_array@ == processed(events_array@),
{
    match parse_events(events_array) {
        Ok(events) => {
            assert forall|i: int| 0 <= i < events@.len() implies (#[trigger] events@[i]).is_span() by {
                assert(events@[i].is_valid());
            }
            let layout_groups = process_events_impl(events.as_slice());
            generate_result_array(layout_groups.as_slice())
        },
        Err(_) => Vec::new(),
    }
}

} // verus!

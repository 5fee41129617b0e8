use event_layout::{process_events_with, Event, LayoutGroup, PackingPolicy};

fn batch(seed: u64, count: u64, horizon: u64, longest: u64) -> Vec<Event> {
    let mut events = Vec::new();
    let mut state = seed;
    for id in 0..count {
        state = state.wrapping_mul(6364136223846793005).wrapping_add(1442695040888963407);
        let start = (state >> 33) % horizon;
        let length = 1 + (state >> 17) % longest;
        events.push(Event { id, start, end: start + length });
    }
    events
}

fn batches() -> Vec<Vec<Event>> {
    vec![
        batch(1, 0, 10, 3),
        batch(2, 1, 10, 3),
        batch(3, 40, 30, 6),
        batch(4, 200, 400, 9),
        batch(5, 300, 60, 20),
        batch(6, 150, 1000, 4),
    ]
}

fn policies() -> [PackingPolicy; 2] {
    [PackingPolicy::RectangleReuse, PackingPolicy::GreedyAppend]
}

fn sorted_ids(group: &LayoutGroup) -> Vec<u64> {
    let mut ids: Vec<u64> = group.items.iter().map(|item| item.event.id).collect();
    ids.sort();
    ids
}

#[test]
fn every_event_is_laid_out_once() {
    for events in batches() {
        for policy in policies() {
            let groups = process_events_with(&events, policy);
            let mut laid: Vec<Event> =
                groups.iter().flat_map(|g| g.items.iter().map(|item| item.event)).collect();
            let mut given = events.clone();
            laid.sort_by_key(|e| e.id);
            given.sort_by_key(|e| e.id);
            assert_eq!(laid, given);
        }
    }
}

#[test]
fn lengths_make_up_the_span_and_fractions_make_up_one() {
    for events in batches() {
        for policy in policies() {
            for group in process_events_with(&events, policy) {
                let span = group.end - group.start;
                for item in &group.items {
                    assert_eq!(item.top + item.height + item.bottom, span);
                    assert_eq!(item.top, item.event.start - group.start);
                    assert_eq!(item.height, item.event.end - item.event.start);
                    assert_eq!(item.bottom, group.end - item.event.end);
                    let total = span as f64;
                    let sum = item.top as f64 / total
                        + item.height as f64 / total
                        + item.bottom as f64 / total;
                    assert!((sum - 1.0).abs() < 1e-9);
                }
            }
        }
    }
}

#[test]
fn exact_lengths_of_a_small_layout() {
    let events = vec![
        Event { id: 1, start: 10, end: 30 },
        Event { id: 2, start: 15, end: 20 },
        Event { id: 3, start: 25, end: 50 },
    ];
    let groups = process_events_with(&events, PackingPolicy::RectangleReuse);
    assert_eq!(groups.len(), 1);
    assert_eq!((groups[0].start, groups[0].end, groups[0].column_count), (10, 50, 2));
    let seats: Vec<(u64, usize, u64, u64, u64)> = groups[0]
        .items
        .iter()
        .map(|i| (i.event.id, i.column, i.top, i.height, i.bottom))
        .collect();
    assert_eq!(seats, vec![(1, 0, 0, 20, 20), (2, 1, 5, 5, 30), (3, 1, 15, 25, 0)]);
    let total = 40.0_f64;
    assert_eq!(groups[0].items[1].top as f64 / total, 0.125);
    assert_eq!(groups[0].items[1].height as f64 / total, 0.125);
    assert_eq!(groups[0].items[1].bottom as f64 / total, 0.75);
}

#[test]
fn an_instant_alone_has_no_lengths() {
    let groups = process_events_with(&[Event { id: 1, start: 7, end: 7 }], PackingPolicy::RectangleReuse);
    assert_eq!(groups.len(), 1);
    assert_eq!((groups[0].start, groups[0].end, groups[0].column_count), (7, 7, 1));
    let item = groups[0].items[0];
    assert_eq!((item.top, item.height, item.bottom, item.column), (0, 0, 0, 0));
}

#[test]
fn items_of_a_column_do_not_overlap() {
    for events in batches() {
        for policy in policies() {
            for group in process_events_with(&events, policy) {
                for column in 0..group.column_count {
                    let mut spans: Vec<(u64, u64)> = group
                        .items
                        .iter()
                        .filter(|item| item.column == column)
                        .map(|item| (item.event.start, item.event.end))
                        .collect();
                    assert!(!spans.is_empty());
                    // The items of a column already come in order of start.
                    assert!(spans.windows(2).all(|w| w[0].0 <= w[1].0));
                    spans.sort();
                    for w in spans.windows(2) {
                        assert!(w[0].1 <= w[1].0);
                    }
                }
                assert!(group.items.iter().all(|item| item.column < group.column_count));
                // Column-major order.
                assert!(group.items.windows(2).all(|w| w[0].column <= w[1].column));
            }
        }
    }
}

#[test]
fn groups_are_apart_and_in_order() {
    for events in batches() {
        for policy in policies() {
            let groups = process_events_with(&events, policy);
            for group in &groups {
                assert!(group.start < group.end);
                assert_eq!(group.start, group.items.iter().map(|i| i.event.start).min().unwrap());
                assert_eq!(group.end, group.items.iter().map(|i| i.event.end).max().unwrap());
            }
            for w in groups.windows(2) {
                assert!(w[0].end <= w[1].start);
                assert!(w[0].start < w[1].start);
            }
        }
    }
}

#[test]
fn events_of_different_groups_never_overlap() {
    for events in batches() {
        let groups = process_events_with(&events, PackingPolicy::RectangleReuse);
        for (a, one) in groups.iter().enumerate() {
            for other in &groups[a + 1..] {
                for x in &one.items {
                    for y in &other.items {
                        assert!(!(x.event.start < y.event.end && y.event.start < x.event.end));
                    }
                }
            }
        }
    }
}

#[test]
fn regrouping_the_laid_out_events_gives_the_same_groups() {
    for events in batches() {
        for policy in policies() {
            let groups = process_events_with(&events, policy);
            let flat: Vec<Event> =
                groups.iter().flat_map(|g| g.items.iter().map(|item| item.event)).collect();
            let mut reversed = flat.clone();
            reversed.reverse();
            for again in [flat, reversed] {
                let regrouped = process_events_with(&again, policy);
                assert_eq!(regrouped.len(), groups.len());
                for (one, other) in groups.iter().zip(regrouped.iter()) {
                    assert_eq!((one.start, one.end), (other.start, other.end));
                    assert_eq!(sorted_ids(one), sorted_ids(other));
                    assert_eq!(one.column_count, other.column_count);
                }
            }
        }
    }
}

#[test]
fn both_policies_agree_on_valid_events() {
    for events in batches() {
        let reused = process_events_with(&events, PackingPolicy::RectangleReuse);
        let greedy = process_events_with(&events, PackingPolicy::GreedyAppend);
        assert_eq!(reused.len(), greedy.len());
        for (one, other) in reused.iter().zip(greedy.iter()) {
            assert_eq!((one.start, one.end, one.column_count), (other.start, other.end, other.column_count));
            assert_eq!(one.items, other.items);
        }
    }
}

#[test]
fn a_single_event_is_a_group_of_its_own() {
    for policy in policies() {
        let groups = process_events_with(&[Event { id: 5, start: 3, end: 9 }], policy);
        assert_eq!(groups.len(), 1);
        assert_eq!((groups[0].start, groups[0].end, groups[0].column_count), (3, 9, 1));
        assert_eq!(groups[0].items.len(), 1);
        let item = groups[0].items[0];
        assert_eq!((item.top, item.height, item.bottom, item.column), (0, 6, 0, 0));
        assert_eq!(item.event, Event { id: 5, start: 3, end: 9 });
    }
}

#[test]
fn touching_events_are_separate_groups() {
    let events = vec![Event { id: 1, start: 0, end: 5 }, Event { id: 2, start: 5, end: 9 }];
    for policy in policies() {
        let groups = process_events_with(&events, policy);
        assert_eq!(groups.len(), 2);
        assert_eq!((groups[0].start, groups[0].end), (0, 5));
        assert_eq!((groups[1].start, groups[1].end), (5, 9));
    }
}

#[test]
fn a_chain_of_overlaps_is_one_group() {
    let events = vec![
        Event { id: 1, start: 0, end: 4 },
        Event { id: 2, start: 3, end: 7 },
        Event { id: 3, start: 6, end: 10 },
        Event { id: 4, start: 9, end: 13 },
    ];
    for policy in policies() {
        let groups = process_events_with(&events, policy);
        assert_eq!(groups.len(), 1);
        assert_eq!((groups[0].start, groups[0].end, groups[0].column_count), (0, 13, 2));
    }
}

#[test]
fn chains_of_overlaps_connect_the_events_of_a_group() {
    for events in batches() {
        for group in process_events_with(&events, PackingPolicy::RectangleReuse) {
            let members: Vec<Event> = group.items.iter().map(|item| item.event).collect();
            let mut reached = vec![false; members.len()];
            let mut frontier = vec![0];
            reached[0] = true;
            while let Some(at) = frontier.pop() {
                for (other, member) in members.iter().enumerate() {
                    let overlap =
                        members[at].start < member.end && member.start < members[at].end;
                    if overlap && !reached[other] {
                        reached[other] = true;
                        frontier.push(other);
                    }
                }
            }
            assert!(reached.iter().all(|&r| r));
        }
    }
}

#[test]
fn bounds_never_shrink_as_events_join() {
    let mut group = event_layout::Group::with_policy(PackingPolicy::GreedyAppend);
    let mut bounds = (group.start(), group.end());
    for event in batch(9, 60, 1, 50) {
        // All start together, so they may join in any order.
        let event = Event { id: event.id, start: 7, end: 7 + event.end };
        group.add(event);
        assert!(group.start() <= bounds.0 && group.end() >= bounds.1);
        assert!(group.start() <= event.start && event.end <= group.end());
        bounds = (group.start(), group.end());
    }
    assert_eq!(group.start(), 7);
}

#[test]
fn as_many_columns_as_events_under_way_at_once() {
    for events in batches() {
        for policy in policies() {
            for group in process_events_with(&events, policy) {
                let busiest = group
                    .items
                    .iter()
                    .map(|at| {
                        group
                            .items
                            .iter()
                            .filter(|item| {
                                item.event.start <= at.event.start && at.event.start < item.event.end
                            })
                            .count()
                    })
                    .max()
                    .unwrap();
                assert_eq!(group.column_count, busiest);
            }
        }
    }
}

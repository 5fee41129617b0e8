use event_layout::keys::order_key;
use event_layout::{process_events_impl, Event};

#[test]
fn test_process_events_impl() {
    // Normal events
    let events = vec![
        Event { id: 1, start: 0, end: 1 },
        Event { id: 2, start: 1, end: 2 },
        Event { id: 3, start: 2, end: 3 },
    ];

    let layout_groups = process_events_impl(&events);
    assert_eq!(layout_groups.len(), 3);

    // Overlapping events
    let overlapping_events = vec![
        Event { id: 1, start: 0, end: 2 },
        Event { id: 2, start: 1, end: 3 },
        Event { id: 3, start: 2, end: 4 },
    ];

    let layout_groups = process_events_impl(&overlapping_events);
    assert_eq!(layout_groups.len(), 1);
    assert_eq!(layout_groups[0].start, 0);
    assert_eq!(layout_groups[0].end, 4);
    assert_eq!(layout_groups[0].column_count, 2);
    assert_eq!(layout_groups[0].items.len(), 3);
    assert_eq!(layout_groups[0].items[0].event.start, 0);
    assert_eq!(layout_groups[0].items[0].event.end, 2);
    assert_eq!(layout_groups[0].items[1].event.start, 2);
    assert_eq!(layout_groups[0].items[1].event.end, 4);
    assert_eq!(layout_groups[0].items[2].event.start, 1);
    assert_eq!(layout_groups[0].items[2].event.end, 3);

    // Empty events
    let empty_events: Vec<Event> = vec![];
    let layout_groups = process_events_impl(&empty_events);
    assert_eq!(layout_groups.len(), 0);

    // Single event
    let single_event = vec![Event { id: 1, start: 1, end: 2 }];

    let layout_groups = process_events_impl(&single_event);
    assert_eq!(layout_groups.len(), 1);
    assert_eq!(layout_groups[0].start, 1);
    assert_eq!(layout_groups[0].end, 2);
    assert_eq!(layout_groups[0].column_count, 1);
    assert_eq!(layout_groups[0].items.len(), 1);
}

#[test]
fn test_complex_overlapping_events() {
    // Test multiple overlapping event groups
    let events = vec![
        Event { id: 1, start: 0, end: 3 }, // First group
        Event { id: 2, start: 1, end: 4 },
        Event { id: 3, start: 2, end: 5 },
        Event { id: 4, start: 6, end: 8 }, // Second group
        Event { id: 5, start: 7, end: 9 },
        Event { id: 6, start: 8, end: 10 },
    ];

    let layout_groups = process_events_impl(&events);
    assert_eq!(layout_groups.len(), 2);

    // Check first group
    assert_eq!(layout_groups[0].start, 0);
    assert_eq!(layout_groups[0].end, 5);
    assert_eq!(layout_groups[0].column_count, 3);
    assert_eq!(layout_groups[0].items.len(), 3);

    // Check second group
    assert_eq!(layout_groups[1].start, 6);
    assert_eq!(layout_groups[1].end, 10);
    assert_eq!(layout_groups[1].column_count, 2);
    assert_eq!(layout_groups[1].items.len(), 3);
}

#[test]
fn test_nested_events() {
    // Test nested events (one event completely contained within another)
    let events = vec![
        Event { id: 1, start: 0, end: 10 },
        Event { id: 2, start: 2, end: 8 },
        Event { id: 3, start: 3, end: 7 },
    ];

    let layout_groups = process_events_impl(&events);
    assert_eq!(layout_groups.len(), 1);
    assert_eq!(layout_groups[0].column_count, 3);
    assert_eq!(layout_groups[0].items.len(), 3);
}

#[test]
fn test_edge_cases() {
    // Test edge cases
    let events = vec![
        Event { id: 1, start: 0, end: 0 }, // Zero duration event
        Event { id: 2, start: 1, end: 1 }, // Zero duration event
        Event { id: 3, start: 2, end: 2 }, // Zero duration event
        Event { id: 4, start: 3, end: 3 }, // Zero duration event
    ];

    let layout_groups = process_events_impl(&events);
    assert_eq!(layout_groups.len(), 4);
    for group in layout_groups {
        assert_eq!(group.column_count, 1);
        assert_eq!(group.items.len(), 1);
    }
}

#[test]
fn test_large_number_of_events() {
    // Test large number of events; the times go in as the keys of the numbers
    let mut events = Vec::new();
    for i in 0..100 {
        events.push(Event {
            id: i as u64,
            start: order_key(((i as f32) * 0.5).to_bits()),
            end: order_key(((i as f32) * 0.5 + 1.0).to_bits()),
        });
    }

    let layout_groups = process_events_impl(&events);
    assert!(layout_groups.len() > 0);

    // Verify all events are processed correctly
    let total_events = layout_groups.iter().map(|g| g.items.len()).sum::<usize>();
    assert_eq!(total_events, 100);
}

#[test]
fn test_random_overlapping_events() {
    // Test random overlapping events
    let events = vec![
        Event { id: 1, start: 0, end: 5 },
        Event { id: 2, start: 1, end: 3 },
        Event { id: 3, start: 2, end: 4 },
        Event { id: 4, start: 3, end: 6 },
        Event { id: 5, start: 4, end: 7 },
        Event { id: 6, start: 5, end: 8 },
    ];

    let layout_groups = process_events_impl(&events);
    assert_eq!(layout_groups.len(), 1);
    assert_eq!(layout_groups[0].column_count, 3);
    assert_eq!(layout_groups[0].items.len(), 6);

    // Verify layout correctness
    let total = (layout_groups[0].end - layout_groups[0].start) as f64;
    for item in &layout_groups[0].items {
        assert!(item.top as f64 / total >= 0.0);
        assert!(item.bottom as f64 / total >= 0.0);
        assert!(item.height as f64 / total > 0.0);
        assert!(item.column < layout_groups[0].column_count);
    }
}

#[test]
fn test_demo_example() {
    let events = vec![
        Event::new(1, 0, 2).unwrap(),
        Event::new(2, 1, 3).unwrap(),
        Event::new(3, 2, 4).unwrap(),
    ];

    let layout_groups = process_events_impl(&events);
    assert_eq!(layout_groups.len(), 1);
    assert_eq!(layout_groups[0].start, 0);
    assert_eq!(layout_groups[0].end, 4);
    assert_eq!(layout_groups[0].column_count, 2);
    assert_eq!(layout_groups[0].items.len(), 3);

    // Collect the events of each column
    let mut columns = vec![Vec::new(); layout_groups[0].column_count];
    for item in &layout_groups[0].items {
        columns[item.column].push((item.event.start, item.event.end));
    }

    // No two events of a column overlap
    for column in &columns {
        let mut sorted = column.clone();
        sorted.sort_by(|a, b| a.0.partial_cmp(&b.0).unwrap());
        for i in 1..sorted.len() {
            assert!(sorted[i - 1].1 <= sorted[i].0);
        }
    }

    // Every event has a column
    assert_eq!(columns.iter().map(|c| c.len()).sum::<usize>(), 3);
}

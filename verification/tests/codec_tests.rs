use event_layout::codec::{EVENT_FIELDS, EVENT_LAYOUT_FIELDS, LAYOUT_GROUP_FIELDS};
use event_layout::{
    generate_result_array, parse_events, process_events, process_events_impl, Event, EventLayout,
    LayoutError, LayoutGroup,
};

#[test]
fn record_sizes() {
    assert_eq!(EVENT_FIELDS, 3);
    assert_eq!(LAYOUT_GROUP_FIELDS, 4);
    assert_eq!(EVENT_LAYOUT_FIELDS, 7);
}

#[test]
fn new_event_needs_start_before_end() {
    assert_eq!(Event::new(7, 1, 2), Ok(Event { id: 7, start: 1, end: 2 }));
    assert_eq!(Event::new(7, 2, 2), Err(LayoutError::InvalidInterval));
    assert_eq!(Event::new(7, 3, 2), Err(LayoutError::InvalidInterval));
    assert_eq!(Event::new(0, 0, u64::MAX), Ok(Event { id: 0, start: 0, end: u64::MAX }));
}

#[test]
fn parse_reads_triples() {
    assert_eq!(
        parse_events(&[7, 1, 2, 8, 3, 9]),
        Ok(vec![Event { id: 7, start: 1, end: 2 }, Event { id: 8, start: 3, end: 9 }])
    );
    assert_eq!(parse_events(&[]), Ok(vec![]));
}

#[test]
fn parse_rejects_a_length_that_is_no_multiple_of_three() {
    assert_eq!(parse_events(&[1]), Err(LayoutError::MalformedInput));
    assert_eq!(parse_events(&[1, 0]), Err(LayoutError::MalformedInput));
    assert_eq!(parse_events(&[1, 0, 1, 2]), Err(LayoutError::MalformedInput));
    // The length is looked at before any event is.
    assert_eq!(parse_events(&[1, 5, 5, 0]), Err(LayoutError::MalformedInput));
}

#[test]
fn parse_rejects_an_empty_or_reversed_interval() {
    assert_eq!(parse_events(&[1, 5, 5]), Err(LayoutError::InvalidInterval));
    assert_eq!(parse_events(&[1, 6, 5]), Err(LayoutError::InvalidInterval));
    assert_eq!(parse_events(&[1, 0, 1, 2, 4, 3]), Err(LayoutError::InvalidInterval));
    assert_eq!(parse_events(&[1, 3, 3, 2, 0, 1]), Err(LayoutError::InvalidInterval));
}

#[test]
fn three_disjoint_events_make_three_groups() {
    let out = process_events(&[1, 0, 1, 2, 1, 2, 3, 2, 3]);
    assert_eq!(
        out,
        vec![
            0, 1, 1, 1, 0, 0, 1, 0, 1, 0, 1, //
            1, 2, 1, 1, 0, 0, 1, 0, 2, 1, 2, //
            2, 3, 1, 1, 0, 0, 1, 0, 3, 2, 3,
        ]
    );
}

#[test]
fn chained_overlaps_make_one_group_of_two_columns() {
    let out = process_events(&[1, 0, 2, 2, 1, 3, 3, 2, 4]);
    assert_eq!(
        out,
        vec![
            0, 4, 2, 3, //
            0, 2, 2, 0, 1, 0, 2, //
            2, 0, 2, 0, 3, 2, 4, //
            1, 1, 2, 1, 2, 1, 3,
        ]
    );
}

#[test]
fn nested_events_take_a_column_each() {
    let out = process_events(&[1, 0, 10, 2, 2, 8, 3, 3, 7]);
    assert_eq!(
        out,
        vec![
            0, 10, 3, 3, //
            0, 0, 10, 0, 1, 0, 10, //
            2, 2, 6, 1, 2, 2, 8, //
            3, 3, 4, 2, 3, 3, 7,
        ]
    );
}

#[test]
fn input_order_does_not_matter_to_the_groups() {
    let out = process_events(&[3, 2, 4, 1, 0, 2, 2, 1, 3]);
    assert_eq!(
        out,
        vec![
            0, 4, 2, 3, //
            0, 2, 2, 0, 1, 0, 2, //
            2, 0, 2, 0, 3, 2, 4, //
            1, 1, 2, 1, 2, 1, 3,
        ]
    );
}

#[test]
fn empty_input_gives_empty_output() {
    assert_eq!(process_events(&[]).len(), 0);
    assert_eq!(process_events_impl(&[]).len(), 0);
}

#[test]
fn invalid_input_gives_empty_output() {
    assert_eq!(process_events(&[1, 5, 5]).len(), 0);
    assert_eq!(process_events(&[1, 0, 1, 2, 9, 3]).len(), 0);
    assert_eq!(process_events(&[1, 0, 1, 2]).len(), 0);
    assert_eq!(process_events(&[1, 0]).len(), 0);
}

#[test]
fn hundred_staggered_events_are_all_written() {
    let mut buffer = Vec::new();
    for i in 0..100u64 {
        buffer.extend_from_slice(&[i, i, i + 2]);
    }
    let out = process_events(&buffer);
    // One chain of overlaps: one group.
    assert_eq!(out.len(), 4 + 7 * 100);
    assert_eq!(&out[..4], &[0, 101, 2, 100]);
    let mut ids: Vec<u64> = out[4..].chunks(7).map(|item| item[4]).collect();
    ids.sort();
    assert_eq!(ids, (0..100).collect::<Vec<u64>>());
}

#[test]
fn records_are_written_in_order() {
    let e1 = Event { id: 11, start: 3, end: 5 };
    let e2 = Event { id: 12, start: 4, end: 9 };
    let groups = vec![
        LayoutGroup { start: 0, end: 0, column_count: 0, items: vec![] },
        LayoutGroup {
            start: 3,
            end: 9,
            column_count: 2,
            items: vec![
                EventLayout { top: 0, bottom: 4, height: 2, column: 0, event: e1 },
                EventLayout { top: 1, bottom: 0, height: 5, column: 1, event: e2 },
            ],
        },
    ];
    assert_eq!(
        generate_result_array(&groups),
        vec![
            0, 0, 0, 0, //
            3, 9, 2, 2, //
            0, 4, 2, 0, 11, 3, 5, //
            1, 0, 5, 1, 12, 4, 9,
        ]
    );
    assert_eq!(generate_result_array(&[]), Vec::<u64>::new());
}

#[test]
fn output_length_is_four_per_group_and_seven_per_item() {
    let events = vec![
        Event { id: 1, start: 0, end: 3 },
        Event { id: 2, start: 1, end: 4 },
        Event { id: 3, start: 2, end: 5 },
        Event { id: 4, start: 6, end: 8 },
        Event { id: 5, start: 7, end: 9 },
        Event { id: 6, start: 20, end: 21 },
    ];
    let groups = process_events_impl(&events);
    assert_eq!(groups.len(), 3);
    let out = generate_result_array(&groups);
    assert_eq!(out.len(), 3 * 4 + 6 * 7);
}

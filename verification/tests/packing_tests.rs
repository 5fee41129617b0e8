use event_layout::rect::{carve_out, find_fit, vacant_rects};
use event_layout::{Event, FreeRect, Group, PackingPolicy};

fn event(id: u64, start: u64, end: u64) -> Event {
    Event { id, start, end }
}

fn rect(start: u64, end: u64, column_index: usize) -> FreeRect {
    FreeRect { start, end, column_index }
}

fn spans(column: &Vec<Event>) -> Vec<(u64, u64)> {
    column.iter().map(|e| (e.start, e.end)).collect()
}

#[test]
fn empty_group_has_neutral_bounds_and_overlaps_nothing() {
    let group = Group::new();
    assert_eq!(group.start(), u64::MAX);
    assert_eq!(group.end(), 0);
    assert_eq!(group.column_count(), 0);
    assert_eq!(group.policy(), PackingPolicy::RectangleReuse);
    assert!(!group.is_overlap(&event(1, 0, u64::MAX)));
    let laid = group.calc_layout();
    assert_eq!(laid.column_count, 0);
    assert!(laid.items.is_empty());
}

#[test]
fn with_policy_keeps_the_policy() {
    assert_eq!(Group::with_policy(PackingPolicy::GreedyAppend).policy(), PackingPolicy::GreedyAppend);
    assert_eq!(
        Group::with_policy(PackingPolicy::RectangleReuse).policy(),
        PackingPolicy::RectangleReuse
    );
}

#[test]
fn overlap_is_half_open() {
    let mut group = Group::new();
    group.add(event(1, 10, 20));
    assert_eq!(group.start(), 10);
    assert_eq!(group.end(), 20);
    assert!(group.is_overlap(&event(2, 19, 30)));
    assert!(group.is_overlap(&event(2, 0, 11)));
    assert!(group.is_overlap(&event(2, 12, 13)));
    assert!(group.is_overlap(&event(2, 0, 100)));
    assert!(!group.is_overlap(&event(2, 20, 30)));
    assert!(!group.is_overlap(&event(2, 0, 10)));
    assert!(!group.is_overlap(&event(2, 10, 10)));
    assert!(group.is_overlap(&event(2, 15, 15)));
}

#[test]
fn bounds_only_grow() {
    let mut group = Group::new();
    group.add(event(1, 5, 9));
    group.add(event(2, 6, 7));
    assert_eq!((group.start(), group.end()), (5, 9));
    group.add(event(3, 8, 12));
    assert_eq!((group.start(), group.end()), (5, 12));
}

#[test]
fn fit_is_the_first_in_list_order() {
    let rects = vec![rect(6, 9, 0), rect(0, 5, 1), rect(0, 9, 2), rect(2, 4, 3)];
    assert_eq!(find_fit(&rects, &event(1, 2, 4)), Some(1));
    assert_eq!(find_fit(&rects, &event(1, 6, 9)), Some(0));
    assert_eq!(find_fit(&rects, &event(1, 5, 6)), Some(2));
    assert_eq!(find_fit(&rects, &event(1, 0, 10)), None);
    assert_eq!(find_fit(&Vec::new(), &event(1, 0, 1)), None);
}

#[test]
fn fit_needs_the_whole_event_inside() {
    let r = rect(3, 8, 0);
    assert!(r.fits(&event(1, 3, 8)));
    assert!(r.fits(&event(1, 4, 5)));
    assert!(r.fits(&event(1, 8, 8)));
    assert!(!r.fits(&event(1, 2, 8)));
    assert!(!r.fits(&event(1, 3, 9)));
    assert!(!r.fits(&event(1, 8, 9)));
}

#[test]
fn carving_an_exact_match_removes_the_stretch() {
    let mut rects = vec![rect(0, 1, 0), rect(3, 8, 1), rect(9, 12, 1)];
    carve_out(&mut rects, 1, &event(1, 3, 8));
    assert_eq!(rects, vec![rect(0, 1, 0), rect(9, 12, 1)]);
}

#[test]
fn carving_at_the_left_edge_keeps_the_right_part() {
    let mut rects = vec![rect(0, 1, 0), rect(3, 8, 1), rect(9, 12, 1)];
    carve_out(&mut rects, 1, &event(1, 3, 5));
    assert_eq!(rects, vec![rect(0, 1, 0), rect(5, 8, 1), rect(9, 12, 1)]);
}

#[test]
fn carving_at_the_right_edge_keeps_the_left_part() {
    let mut rects = vec![rect(0, 1, 0), rect(3, 8, 1), rect(9, 12, 1)];
    carve_out(&mut rects, 1, &event(1, 6, 8));
    assert_eq!(rects, vec![rect(0, 1, 0), rect(3, 6, 1), rect(9, 12, 1)]);
}

#[test]
fn carving_inside_splits_the_stretch_in_place() {
    let mut rects = vec![rect(0, 1, 0), rect(3, 8, 1), rect(9, 12, 1)];
    carve_out(&mut rects, 1, &event(1, 4, 6));
    assert_eq!(rects, vec![rect(0, 1, 0), rect(3, 4, 1), rect(6, 8, 1), rect(9, 12, 1)]);
}

#[test]
fn carving_the_last_stretch() {
    let mut rects = vec![rect(3, 8, 4)];
    carve_out(&mut rects, 0, &event(1, 4, 6));
    assert_eq!(rects, vec![rect(3, 4, 4), rect(6, 8, 4)]);
    carve_out(&mut rects, 1, &event(2, 6, 8));
    assert_eq!(rects, vec![rect(3, 4, 4)]);
    carve_out(&mut rects, 0, &event(3, 3, 4));
    assert!(rects.is_empty());
}

#[test]
fn vacant_rects_lists_gaps_and_trailing_room_column_by_column() {
    let columns = vec![
        vec![event(1, 0, 5)],
        vec![event(2, 1, 3), event(4, 3, 6)],
        vec![event(3, 2, 4), event(5, 4, 7)],
    ];
    assert_eq!(
        vacant_rects(&columns, 0, 8),
        vec![rect(5, 8, 0), rect(0, 1, 1), rect(6, 8, 1), rect(0, 2, 2), rect(7, 8, 2)]
    );
    assert_eq!(vacant_rects(&columns, 0, 7), vec![rect(5, 7, 0), rect(0, 1, 1), rect(6, 7, 1), rect(0, 2, 2)]);
    assert_eq!(vacant_rects(&columns, 2, 5), vec![]);
    assert_eq!(vacant_rects(&Vec::new(), 0, 100), vec![]);
}

#[test]
fn vacant_rects_never_reach_back_behind_an_earlier_end() {
    // The second event ends before the first one does: the room behind the
    // column starts where the first one ends.
    let columns = vec![vec![event(1, 5, 9), event(2, 5, 5)]];
    assert_eq!(vacant_rects(&columns, 0, 12), vec![rect(0, 5, 0), rect(9, 12, 0)]);
}

#[test]
fn reuse_tracks_the_stretches_it_found() {
    let mut group = Group::new();
    group.add(event(1, 0, 5));
    assert!(group.free_rects().is_empty());
    group.add(event(2, 1, 3));
    assert!(group.free_rects().is_empty());
    group.add(event(3, 2, 4));
    assert!(group.free_rects().is_empty());
    assert_eq!(group.column_count(), 3);
    group.add(event(4, 3, 6));
    assert_eq!(
        group.free_rects(),
        &vec![rect(5, 6, 0), rect(0, 1, 1), rect(0, 2, 2), rect(4, 6, 2)]
    );
    group.add(event(5, 4, 7));
    assert_eq!(
        group.free_rects(),
        &vec![rect(5, 7, 0), rect(0, 1, 1), rect(6, 7, 1), rect(0, 2, 2)]
    );
    group.add(event(6, 5, 8));
    assert_eq!(
        group.free_rects(),
        &vec![rect(0, 1, 1), rect(6, 8, 1), rect(0, 2, 2), rect(7, 8, 2)]
    );
    assert_eq!(group.column_count(), 3);
    assert_eq!(spans(&group.columns()[0]), vec![(0, 5), (5, 8)]);
    assert_eq!(spans(&group.columns()[1]), vec![(1, 3), (3, 6)]);
    assert_eq!(spans(&group.columns()[2]), vec![(2, 4), (4, 7)]);
    assert_eq!((group.start(), group.end()), (0, 8));
}

#[test]
fn reuse_takes_a_tracked_stretch_before_it_scans_again() {
    let mut group = Group::new();
    group.add(event(1, 0, 10));
    group.add(event(2, 1, 2));
    // Nothing tracked: the scan finds [0,1) and [2,10) in column 1.
    group.add(event(3, 2, 3));
    assert_eq!(group.free_rects(), &vec![rect(0, 1, 1), rect(3, 10, 1)]);
    // Inside a tracked stretch: it splits.
    group.add(event(4, 5, 6));
    assert_eq!(group.free_rects(), &vec![rect(0, 1, 1), rect(3, 5, 1), rect(6, 10, 1)]);
    // At the right edge of a tracked stretch.
    group.add(event(5, 8, 10));
    assert_eq!(group.free_rects(), &vec![rect(0, 1, 1), rect(3, 5, 1), rect(6, 8, 1)]);
    // Fits nowhere, not even after a new scan: a new column, and the
    // tracked stretches stay.
    group.add(event(6, 9, 12));
    assert_eq!(group.free_rects(), &vec![rect(0, 1, 1), rect(3, 5, 1), rect(6, 8, 1)]);
    assert_eq!(group.column_count(), 3);
    assert_eq!(spans(&group.columns()[0]), vec![(0, 10)]);
    assert_eq!(spans(&group.columns()[1]), vec![(1, 2), (2, 3), (5, 6), (8, 10)]);
    assert_eq!(spans(&group.columns()[2]), vec![(9, 12)]);
    assert_eq!((group.start(), group.end()), (0, 12));
}

#[test]
fn reuse_consumes_an_exactly_matching_tracked_stretch() {
    let mut group = Group::new();
    group.add(event(1, 0, 5));
    group.add(event(2, 1, 3));
    group.add(event(3, 2, 4));
    group.add(event(4, 3, 6));
    group.add(event(5, 4, 6));
    assert_eq!(group.free_rects(), &vec![rect(5, 6, 0), rect(0, 1, 1), rect(0, 2, 2)]);
    assert_eq!(spans(&group.columns()[2]), vec![(2, 4), (4, 6)]);
    group.add(event(6, 5, 6));
    assert_eq!(group.free_rects(), &vec![rect(0, 1, 1), rect(0, 2, 2)]);
    assert_eq!(spans(&group.columns()[0]), vec![(0, 5), (5, 6)]);
}

#[test]
fn greedy_appends_to_the_first_column_that_has_ended() {
    let mut group = Group::with_policy(PackingPolicy::GreedyAppend);
    group.add(event(1, 0, 10));
    group.add(event(2, 1, 2));
    group.add(event(3, 2, 3));
    group.add(event(4, 5, 6));
    group.add(event(5, 8, 10));
    group.add(event(6, 9, 12));
    group.add(event(7, 10, 11));
    assert!(group.free_rects().is_empty());
    assert_eq!(group.column_count(), 3);
    assert_eq!(spans(&group.columns()[0]), vec![(0, 10), (10, 11)]);
    assert_eq!(spans(&group.columns()[1]), vec![(1, 2), (2, 3), (5, 6), (8, 10)]);
    assert_eq!(spans(&group.columns()[2]), vec![(9, 12)]);
    assert_eq!((group.start(), group.end()), (0, 12));
}

#[test]
fn reuse_needs_fewer_columns_than_greedy_for_an_instant() {
    let events = vec![event(1, 0, 6), event(2, 5, 9), event(3, 5, 5)];

    let reused = event_layout::process_events_with(&events, PackingPolicy::RectangleReuse);
    assert_eq!(reused.len(), 1);
    assert_eq!(reused[0].column_count, 2);
    let seats: Vec<(u64, usize)> = reused[0].items.iter().map(|i| (i.event.id, i.column)).collect();
    assert_eq!(seats, vec![(1, 0), (2, 1), (3, 1)]);
    assert_eq!((reused[0].items[2].top, reused[0].items[2].height, reused[0].items[2].bottom), (5, 0, 4));

    let greedy = event_layout::process_events_with(&events, PackingPolicy::GreedyAppend);
    assert_eq!(greedy.len(), 1);
    assert_eq!(greedy[0].column_count, 3);
    let seats: Vec<(u64, usize)> = greedy[0].items.iter().map(|i| (i.event.id, i.column)).collect();
    assert_eq!(seats, vec![(1, 0), (2, 1), (3, 2)]);
}

#[test]
fn layout_of_a_group_is_column_major() {
    let mut group = Group::new();
    group.add(event(1, 0, 2));
    group.add(event(2, 1, 3));
    group.add(event(3, 2, 4));
    let laid = group.calc_layout();
    assert_eq!((laid.start, laid.end, laid.column_count), (0, 4, 2));
    let seats: Vec<(u64, usize, u64, u64, u64)> =
        laid.items.iter().map(|i| (i.event.id, i.column, i.top, i.height, i.bottom)).collect();
    assert_eq!(seats, vec![(1, 0, 0, 2, 2), (3, 0, 2, 2, 0), (2, 1, 1, 2, 1)]);
}

#[test]
fn grouping_sweeps_the_events_in_order_of_start() {
    let events = vec![
        event(1, 8, 10),
        event(2, 0, 3),
        event(3, 20, 21),
        event(4, 2, 5),
        event(5, 6, 9),
        event(6, 4, 6),
    ];
    for policy in [PackingPolicy::RectangleReuse, PackingPolicy::GreedyAppend] {
        let groups = event_layout::group_events(&events, policy);
        assert_eq!(groups.len(), 3);
        assert_eq!((groups[0].start(), groups[0].end(), groups[0].column_count()), (0, 6, 2));
        assert_eq!((groups[1].start(), groups[1].end(), groups[1].column_count()), (6, 10, 2));
        assert_eq!((groups[2].start(), groups[2].end(), groups[2].column_count()), (20, 21, 1));
        let ids: Vec<Vec<Vec<u64>>> = groups
            .iter()
            .map(|g| g.columns().iter().map(|c| c.iter().map(|e| e.id).collect()).collect())
            .collect();
        assert_eq!(
            ids,
            vec![vec![vec![2, 6], vec![4]], vec![vec![5], vec![1]], vec![vec![3]]]
        );
        assert!(groups.iter().all(|g| g.policy() == policy));
    }
}

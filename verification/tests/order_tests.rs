use event_layout::order::sweep_positions;
use event_layout::Event;

fn event(id: u64, start: u64, end: u64) -> Event {
    Event { id, start, end }
}

#[test]
fn positions_of_nothing() {
    assert_eq!(sweep_positions(&[]), Vec::<usize>::new());
}

#[test]
fn positions_of_one_event() {
    assert_eq!(sweep_positions(&[event(9, 4, 5)]), vec![0]);
}

#[test]
fn earlier_start_goes_first() {
    let events = [event(1, 7, 8), event(2, 3, 4), event(3, 5, 6), event(4, 0, 100)];
    assert_eq!(sweep_positions(&events), vec![3, 1, 2, 0]);
}

#[test]
fn longer_event_goes_first_among_equal_starts() {
    let events = [event(1, 2, 3), event(2, 2, 9), event(3, 2, 5), event(4, 1, 2)];
    assert_eq!(sweep_positions(&events), vec![3, 1, 2, 0]);
}

#[test]
fn equal_spans_keep_their_input_order() {
    let events = [
        event(0, 5, 6),
        event(1, 0, 2),
        event(2, 0, 4),
        event(3, 5, 6),
        event(4, 0, 4),
        event(5, 5, 6),
    ];
    assert_eq!(sweep_positions(&events), vec![2, 4, 1, 0, 3, 5]);
}

#[test]
fn positions_are_a_permutation_in_sweep_order() {
    let mut events = Vec::new();
    let mut seed: u64 = 12345;
    for id in 0..257u64 {
        seed = seed.wrapping_mul(6364136223846793005).wrapping_add(1442695040888963407);
        let start = (seed >> 33) % 50;
        let length = (seed >> 20) % 7;
        events.push(event(id, start, start + length));
    }
    let order = sweep_positions(&events);
    let mut seen = vec![false; events.len()];
    for &p in &order {
        assert!(!seen[p]);
        seen[p] = true;
    }
    assert_eq!(order.len(), events.len());
    for pair in order.windows(2) {
        let (a, b) = (events[pair[0]], events[pair[1]]);
        let in_order = a.start < b.start
            || (a.start == b.start && (a.end > b.end || (a.end == b.end && pair[0] < pair[1])));
        assert!(in_order);
    }
}

use event_layout::keys::{is_nan_bits, order_key};

fn samples() -> Vec<f32> {
    let mut values = vec![
        0.0,
        -0.0,
        f32::MIN_POSITIVE,
        -f32::MIN_POSITIVE,
        f32::from_bits(1),
        -f32::from_bits(1),
        f32::from_bits(0x007f_ffff),
        0.5,
        -0.5,
        1.0,
        -1.0,
        1.5,
        2.0,
        -2.0,
        3.25,
        100.0,
        -100.0,
        16_777_216.0,
        f32::MAX,
        f32::MIN,
        f32::INFINITY,
        f32::NEG_INFINITY,
        f32::EPSILON,
    ];
    let mut state: u32 = 2463534242;
    for _ in 0..400 {
        state ^= state << 13;
        state ^= state >> 17;
        state ^= state << 5;
        let value = f32::from_bits(state);
        if !value.is_nan() {
            values.push(value);
        }
    }
    values
}

#[test]
fn keys_stand_in_the_order_of_the_numbers() {
    let values = samples();
    for &a in &values {
        for &b in &values {
            let (ka, kb) = (order_key(a.to_bits()), order_key(b.to_bits()));
            assert_eq!(a < b, ka < kb);
            assert_eq!(a == b, ka == kb);
            assert_eq!(a >= b, ka >= kb);
        }
    }
}

#[test]
fn keys_of_some_numbers() {
    assert_eq!(order_key(0.0f32.to_bits()), 0x8000_0000);
    assert_eq!(order_key((-0.0f32).to_bits()), 0x8000_0000);
    assert_eq!(order_key(1.0f32.to_bits()), 0x8000_0000 + 0x3f80_0000);
    assert_eq!(order_key((-1.0f32).to_bits()), 0x8000_0000 - 0x3f80_0000);
    assert_eq!(order_key(f32::INFINITY.to_bits()), 0x8000_0000 + 0x7f80_0000);
    assert_eq!(order_key(f32::NEG_INFINITY.to_bits()), 0x8000_0000 - 0x7f80_0000);
    assert_eq!(order_key(f32::from_bits(1).to_bits()), 0x8000_0001);
    assert_eq!(order_key(0xffff_ffff), 1);
    assert_eq!(order_key(0x7fff_ffff), 0xffff_ffff);
}

#[test]
fn patterns_that_stand_for_no_number() {
    assert!(is_nan_bits(f32::NAN.to_bits()));
    assert!(is_nan_bits((-f32::NAN).to_bits()));
    assert!(is_nan_bits(0x7f80_0001));
    assert!(is_nan_bits(0xffc0_0000));
    assert!(!is_nan_bits(f32::INFINITY.to_bits()));
    assert!(!is_nan_bits(f32::NEG_INFINITY.to_bits()));
    assert!(!is_nan_bits(f32::MAX.to_bits()));
    for value in samples() {
        assert_eq!(is_nan_bits(value.to_bits()), value.is_nan());
    }
}

#[test]
fn a_layout_by_keys_is_the_layout_of_the_numbers() {
    // Times with fractions and below zero, laid out by their keys.
    let times: Vec<(f32, f32)> = vec![(-2.5, -1.0), (-1.25, 0.75), (0.75, 1.5), (3.0, 3.5)];
    let events: Vec<event_layout::Event> = times
        .iter()
        .enumerate()
        .map(|(position, &(start, end))| event_layout::Event {
            id: position as u64,
            start: order_key(start.to_bits()),
            end: order_key(end.to_bits()),
        })
        .collect();
    let layout_groups = event_layout::process_events_impl(&events);
    assert_eq!(layout_groups.len(), 3);
    assert_eq!(layout_groups[0].start, order_key((-2.5f32).to_bits()));
    assert_eq!(layout_groups[0].end, order_key(0.75f32.to_bits()));
    assert_eq!(layout_groups[0].column_count, 2);
    let ids: Vec<Vec<u64>> = layout_groups
        .iter()
        .map(|group| group.items.iter().map(|item| item.event.id).collect())
        .collect();
    assert_eq!(ids, vec![vec![0, 1], vec![2], vec![3]]);
}

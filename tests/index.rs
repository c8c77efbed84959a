use viewers::index::{build_index, neighbors, AmplitudeRange, EventIndex, FrameEvents};

fn frame(time: u64, amplitudes: &[i64]) -> FrameEvents {
    FrameEvents { time, amplitudes: amplitudes.to_vec() }
}

fn frames() -> Vec<FrameEvents> {
    vec![
        frame(10, &[1_000, 30_000]),
        frame(20, &[]),
        frame(30, &[27_000]),
        frame(40, &[-5_000, 0]),
        frame(50, &[26_999, 50_000]),
    ]
}

#[test]
fn index_keeps_frames_with_an_event_in_half_open_range() {
    let range = AmplitudeRange { min: 0, max: 27_000 };
    assert_eq!(build_index(&frames(), &range), vec![10, 40, 50]);
}

#[test]
fn index_is_strictly_increasing() {
    let range = AmplitudeRange { min: -10_000, max: 100_000 };
    let index = build_index(&frames(), &range);
    assert_eq!(index, vec![10, 30, 40, 50]);
    for w in index.windows(2) {
        assert!(w[0] < w[1]);
    }
}

#[test]
fn empty_index_is_valid() {
    let range = AmplitudeRange { min: 200_000, max: 300_000 };
    assert!(build_index(&frames(), &range).is_empty());
    assert!(build_index(&Vec::new(), &range).is_empty());
}

#[test]
fn rebuilding_twice_gives_identical_index() {
    let range = AmplitudeRange { min: 0, max: 27_000 };
    let mut index = EventIndex::new();
    index.update_indexes(&frames(), &range);
    index.next();
    let first: Vec<u64> = (0..index.len()).map(|i| index.time_at(i)).collect();
    index.update_indexes(&frames(), &range);
    let second: Vec<u64> = (0..index.len()).map(|i| index.time_at(i)).collect();
    assert_eq!(first, second);
    assert_eq!(index.position_index(), 0);
}

#[test]
fn cursor_is_clamped_at_both_ends() {
    let range = AmplitudeRange { min: 0, max: 27_000 };
    let mut index = EventIndex::new();
    index.update_indexes(&frames(), &range);
    assert_eq!(index.current_time(), Some(10));
    index.prev();
    assert_eq!(index.position_index(), 0);
    index.next();
    index.next();
    index.next();
    index.next();
    assert_eq!(index.position_index(), 2);
    assert_eq!(index.current_time(), Some(50));
    index.prev();
    assert_eq!(index.current_time(), Some(40));
    index.jump(100);
    assert_eq!(index.position_index(), 2);
    index.jump(1);
    assert_eq!(index.position_index(), 1);
}

#[test]
fn cursor_on_empty_index_stays_at_zero() {
    let mut index = EventIndex::new();
    index.next();
    index.prev();
    index.jump(3);
    assert_eq!(index.position_index(), 0);
    assert_eq!(index.current_time(), None);
}

#[test]
fn cursor_stays_in_range_over_many_moves() {
    let range = AmplitudeRange { min: 0, max: 27_000 };
    let mut index = EventIndex::new();
    index.update_indexes(&frames(), &range);
    for k in 0..50u32 {
        if (k * 7) % 3 == 0 {
            index.prev();
        } else {
            index.next();
        }
        assert!(index.position_index() < index.len());
    }
}

#[test]
fn neighbours_within_window() {
    let times = vec![0, 5_000, 20_000, 21_000];
    assert_eq!(neighbors(&times, 2, 10_000), vec![21_000]);
}

#[test]
fn neighbours_on_both_sides() {
    let times = vec![0, 5_000, 9_000, 12_000, 30_000];
    assert_eq!(neighbors(&times, 2, 4_001), vec![5_000, 12_000]);
    assert_eq!(neighbors(&times, 2, 4_000), vec![12_000]);
    assert_eq!(neighbors(&times, 2, 3_000), Vec::<u64>::new());
    assert_eq!(neighbors(&times, 0, 100_000), vec![5_000, 9_000, 12_000, 30_000]);
}

use invocation_counter::counter::sum_window;
use invocation_counter::grid::Window;
use invocation_counter::slot::Slot;

#[test]
fn new_slot_is_untouched() {
    let slot = Slot::new();
    assert_eq!(slot.interval_start, 0);
    assert_eq!(slot.count, 0);
}

#[test]
fn record_in_the_same_interval_adds_one() {
    let mut slot = Slot { interval_start: 16, count: 5 };
    slot.record(16);
    assert_eq!((slot.interval_start, slot.count), (16, 6));
}

#[test]
fn record_in_another_interval_starts_again_at_one() {
    let mut slot = Slot { interval_start: 16, count: 5 };
    slot.record(144);
    assert_eq!((slot.interval_start, slot.count), (144, 1));
    slot.record(16);
    assert_eq!((slot.interval_start, slot.count), (16, 1));
}

#[test]
fn record_on_an_untouched_slot_at_time_zero_counts_one() {
    let mut slot = Slot::new();
    slot.record(0);
    assert_eq!((slot.interval_start, slot.count), (0, 1));
}

#[test]
fn record_wraps_the_count_at_its_limit() {
    let mut slot = Slot { interval_start: 8, count: u32::MAX };
    slot.record(8);
    assert_eq!((slot.interval_start, slot.count), (8, 0));
}

#[test]
fn sum_window_adds_the_counts_inside_the_window() {
    let slots = vec![
        Slot { interval_start: 16, count: 3 },
        Slot { interval_start: 4, count: 5 },
        Slot { interval_start: 8, count: 7 },
        Slot { interval_start: 12, count: 11 },
    ];
    assert_eq!(sum_window(&slots, Window { first: 4, last: 11 }), 12);
    assert_eq!(sum_window(&slots, Window { first: 8, last: 16 }), 21);
    assert_eq!(sum_window(&slots, Window { first: 0, last: 3 }), 0);
    assert_eq!(sum_window(&slots, Window { first: 5, last: 4 }), 0);
    assert_eq!(sum_window(&Vec::new(), Window { first: 0, last: u64::MAX }), 0);
}

#[test]
fn sum_window_wraps_at_the_limit_of_the_count() {
    let slots = vec![
        Slot { interval_start: 0, count: u32::MAX },
        Slot { interval_start: 4, count: 3 },
    ];
    assert_eq!(sum_window(&slots, Window { first: 0, last: 7 }), 2);
}

use invocation_counter::InvocationCounter;

#[test]
fn empty_counter_counts_nothing() {
    let counter = InvocationCounter::new(3, 4);
    assert_eq!(counter.count_in(0, 1), 0);
    assert_eq!(counter.count_in(0, u64::MAX), 0);
    assert_eq!(counter.count_trailing_window(0), 0);
    assert_eq!(counter.count_trailing_window(1_000), 0);
}

#[test]
fn empty_range_counts_nothing() {
    let mut counter = InvocationCounter::new(2, 3);
    counter.register(5);
    counter.register(6);
    assert_eq!(counter.count_in(5, 5), 0);
    assert_eq!(counter.count_in(6, 5), 0);
    assert_eq!(counter.count_in(u64::MAX, 0), 0);
    assert_eq!(counter.count_in(0, 0), 0);
    assert_eq!(counter.count_in(5, 6), 2);
}

#[test]
fn registration_is_counted_once_at_any_time() {
    for time in [0u64, 1, 7, 8, 1_000_000, u64::MAX - 1] {
        let mut counter = InvocationCounter::new(2, 3);
        counter.register(time);
        assert_eq!(counter.count_in(time, time + 1), 1);
    }
}

#[test]
fn registration_at_the_end_of_time_is_counted() {
    let mut counter = InvocationCounter::new(1, 2);
    counter.register(u64::MAX);
    assert_eq!(counter.count_in(u64::MAX - 1, u64::MAX), 1);
    assert_eq!(counter.count_in(u64::MAX - 3, u64::MAX), 1);
    assert_eq!(counter.count_in(0, u64::MAX - 3), 0);
    assert_eq!(counter.count_trailing_window(u64::MAX), 1);
}

#[test]
fn rollover_forgets_what_the_slot_held() {
    // 4 slots of 8 units: capacity 32.
    let mut counter = InvocationCounter::new(2, 3);
    counter.register(0);
    counter.register(0);
    assert_eq!(counter.count_in(0, 1), 2);
    counter.register(32);
    assert_eq!(counter.count_in(31, 33), 1);
    assert_eq!(counter.count_in(0, 33), 1);
    assert_eq!(counter.count_in(0, 8), 0);
}

#[test]
fn rollover_forgets_with_a_single_slot() {
    let mut counter = InvocationCounter::new(0, 2);
    counter.register(0);
    counter.register(0);
    counter.register(4);
    assert_eq!(counter.count_in(3, 5), 1);
}

#[test]
fn stale_slot_is_not_counted_before_it_is_reused() {
    // 2 slots of 4 units. Slot 1 still holds the interval 4..8 when time has
    // moved on to 16, but the ring then covers 12..20 only.
    let mut counter = InvocationCounter::new(1, 2);
    counter.register(4);
    counter.register(5);
    counter.register(16);
    assert_eq!(counter.count_in(4, 8), 0);
    assert_eq!(counter.count_in(0, 20), 1);
}

#[test]
fn registrations_in_one_interval_add_up() {
    let mut counter = InvocationCounter::new(3, 4);
    for (n, time) in [16u64, 31, 17, 16, 30].into_iter().enumerate() {
        counter.register(time);
        assert_eq!(counter.count_in(16, 32), n as u32 + 1);
    }
    assert_eq!(counter.count_in(0, 16), 0);
    assert_eq!(counter.count_in(32, 48), 0);
}

#[test]
fn end_of_range_is_exclusive_on_the_grid() {
    let mut counter = InvocationCounter::new(3, 4);
    counter.register(32);
    // The window that starts at the boundary has it.
    assert_eq!(counter.count_in(32, 33), 1);
    assert_eq!(counter.count_in(32, 48), 1);
    assert_eq!(counter.count_in(32, 1_000), 1);
    // The window that ends at the boundary has not.
    assert_eq!(counter.count_in(0, 32), 0);
    assert_eq!(counter.count_in(16, 32), 0);
    assert_eq!(counter.count_in(31, 32), 0);
    // One unit past the boundary takes in the whole interval.
    assert_eq!(counter.count_in(31, 33), 1);
}

#[test]
fn range_is_widened_to_whole_intervals() {
    let mut counter = InvocationCounter::new(3, 4);
    counter.register(20);
    assert_eq!(counter.count_in(16, 17), 1);
    assert_eq!(counter.count_in(31, 32), 1);
    assert_eq!(counter.count_in(25, 26), 1);
}

#[test]
fn older_registration_inside_the_ring_is_counted() {
    let mut counter = InvocationCounter::new(3, 4);
    counter.register(100);
    counter.register(10);
    assert_eq!(counter.count_in(10, 11), 1);
    assert_eq!(counter.count_in(0, 101), 2);
}

#[test]
fn older_registration_outside_the_ring_is_lost() {
    // 2 slots of 4 units: with the watermark at 100 the ring covers 96..104.
    let mut counter = InvocationCounter::new(1, 2);
    counter.register(100);
    counter.register(10);
    assert_eq!(counter.count_in(10, 11), 0);
    assert_eq!(counter.count_in(0, 200), 1);
}

#[test]
fn example_of_a_window_of_128_units() {
    let mut counter = InvocationCounter::new(3, 4);
    counter.register(10);
    counter.register(25);
    assert_eq!(counter.count_in(0, 26), 2);
    assert_eq!(counter.count_in(0, 16), 1);
    assert_eq!(counter.count_in(16, 32), 1);
    assert_eq!(counter.count_in(50, 60), 0);
    counter.register(200);
    assert_eq!(counter.count_in(200 - 128, 201), 1);
}

#[test]
fn example_of_ranges_over_three_registrations() {
    let mut counter = InvocationCounter::new(3, 4);
    counter.register(10);
    counter.register(25);
    counter.register(100);
    assert_eq!(counter.count_in(0, 50), 2);
    assert_eq!(counter.count_in(20, 120), 2);
    assert_eq!(counter.count_in(0, 200), 3);
}

#[test]
fn example_of_two_slots_of_four_units() {
    let mut counter = InvocationCounter::new(1, 2);
    for time in 0..4 {
        counter.register(time);
    }
    assert_eq!(counter.count_in(0, 4), 4);
    assert_eq!(counter.count_in(4, 8), 0);
    counter.register(4);
    assert_eq!(counter.count_in(0, 4), 4);
    assert_eq!(counter.count_in(4, 8), 1);
    assert_eq!(counter.count_in(0, 8), 5);
    counter.register(8);
    assert_eq!(counter.count_in(0, 4), 0);
    assert_eq!(counter.count_in(8, 12), 1);
}

#[test]
fn trailing_window_is_one_capacity_up_to_now() {
    // 4 slots of 8 units: capacity 32.
    let mut counter = InvocationCounter::new(2, 3);
    counter.register(0);
    counter.register(1);
    counter.register(8);
    counter.register(16);
    assert_eq!(counter.count_trailing_window(16), 4);
    assert_eq!(counter.count_trailing_window(16), counter.count_in(0, 17));
    assert_eq!(counter.count_trailing_window(100), counter.count_in(100 - 32, 101));
    assert_eq!(counter.count_trailing_window(100), 0);
    assert_eq!(counter.count_trailing_window(7), 2);
    counter.register(40);
    assert_eq!(counter.count_trailing_window(40), counter.count_in(8, 41));
    assert_eq!(counter.count_trailing_window(40), 2);
}

#[test]
fn try_new_makes_a_counter_or_tells_why_not() {
    assert!(InvocationCounter::try_new(2, 3).is_some());
    assert!(InvocationCounter::try_new(0, 63).is_some());
    assert!(InvocationCounter::try_new(1, 63).is_none());
    assert!(InvocationCounter::try_new(200, 200).is_none());
    let mut counter = InvocationCounter::try_new(2, 3).unwrap();
    counter.register(9);
    assert_eq!(counter.count_in(8, 16), 1);
}

#[test]
fn one_slot_of_the_largest_size_holds_every_time() {
    let mut counter = InvocationCounter::new(0, 63);
    counter.register(0);
    counter.register(u64::MAX >> 1);
    assert_eq!(counter.count_in(0, 1), 2);
    counter.register(u64::MAX);
    assert_eq!(counter.count_in(0, 1), 0);
    assert_eq!(counter.count_in(1u64 << 63, u64::MAX), 1);
}

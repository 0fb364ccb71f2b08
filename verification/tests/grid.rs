use invocation_counter::grid::{Grid, Window};

#[test]
fn grid_sizes_are_powers_of_two() {
    let grid = Grid::new(3, 4);
    assert_eq!(grid.slot_count_of(), 8);
    assert_eq!(grid.slot_size_of(), 16);
    assert_eq!(grid.capacity_of(), 128);
}

#[test]
fn grid_of_one_slot_of_one_unit() {
    let grid = Grid::new(0, 0);
    assert_eq!(grid.slot_count_of(), 1);
    assert_eq!(grid.slot_size_of(), 1);
    assert_eq!(grid.capacity_of(), 1);
    assert_eq!(grid.interval_start_of(77), 77);
    assert_eq!(grid.interval_last_of(77), 77);
    assert_eq!(grid.slot_index_of(77), 0);
}

#[test]
fn grid_with_the_largest_capacity() {
    let grid = Grid::new(1, 62);
    assert!(grid.fits());
    assert_eq!(grid.capacity_of(), 1u64 << 63);
    assert_eq!(grid.interval_start_of(u64::MAX), 3u64 << 62);
    assert_eq!(grid.interval_last_of(u64::MAX), u64::MAX);
    assert_eq!(grid.slot_index_of(u64::MAX), 1);
}

#[test]
fn grid_fits_up_to_a_sum_of_63() {
    assert!(Grid::new(0, 63).fits());
    assert!(Grid::new(20, 43).fits());
    assert!(!Grid::new(1, 63).fits());
    assert!(!Grid::new(32, 32).fits());
    assert!(!Grid::new(255, 255).fits());
    assert!(!Grid::new(64, 0).fits());
}

#[test]
fn interval_start_rounds_down_to_the_slot_size() {
    let grid = Grid::new(3, 4);
    assert_eq!(grid.interval_start_of(0), 0);
    assert_eq!(grid.interval_start_of(15), 0);
    assert_eq!(grid.interval_start_of(16), 16);
    assert_eq!(grid.interval_start_of(25), 16);
    assert_eq!(grid.interval_start_of(1_000_000), 1_000_000 - 1_000_000 % 16);
}

#[test]
fn interval_last_is_the_last_unit_of_the_interval() {
    let grid = Grid::new(3, 4);
    assert_eq!(grid.interval_last_of(0), 15);
    assert_eq!(grid.interval_last_of(15), 15);
    assert_eq!(grid.interval_last_of(16), 31);
    assert_eq!(grid.interval_last_of(u64::MAX), u64::MAX);
    assert_eq!(grid.interval_last_of(u64::MAX - 16), u64::MAX - 16);
}

#[test]
fn slot_index_wraps_around_the_ring() {
    let grid = Grid::new(3, 4);
    assert_eq!(grid.slot_index_of(0), 0);
    assert_eq!(grid.slot_index_of(15), 0);
    assert_eq!(grid.slot_index_of(16), 1);
    assert_eq!(grid.slot_index_of(127), 7);
    assert_eq!(grid.slot_index_of(128), 0);
    assert_eq!(grid.slot_index_of(200), 4);
}

#[test]
fn window_is_the_asked_range_on_the_grid_cut_to_the_ring() {
    // 2 slots of 4 units; the watermark 9 lies in the interval 8..12, so the
    // ring holds the interval starts 4 and 8.
    let grid = Grid::new(1, 2);
    let all = grid.window(9, 0, 100);
    assert_eq!((all.first, all.last), (4, 11));
    let early = grid.window(9, 0, 3);
    assert_eq!((early.first, early.last), (4, 3));
    let inside = grid.window(9, 5, 6);
    assert_eq!((inside.first, inside.last), (4, 7));
    let upto_boundary = grid.window(9, 4, 7);
    assert_eq!((upto_boundary.first, upto_boundary.last), (4, 7));
    let over_boundary = grid.window(9, 4, 8);
    assert_eq!((over_boundary.first, over_boundary.last), (4, 11));
}

#[test]
fn window_before_the_ring_is_full_starts_at_zero() {
    let grid = Grid::new(2, 3);
    let window = grid.window(5, 0, 40);
    assert_eq!((window.first, window.last), (0, 7));
}

#[test]
fn window_at_the_end_of_time_does_not_wrap() {
    let grid = Grid::new(1, 2);
    let window = grid.window(u64::MAX, 0, u64::MAX);
    assert_eq!((window.first, window.last), (u64::MAX - 7, u64::MAX));
    assert!(window.holds(u64::MAX - 3));
    assert!(window.holds(u64::MAX - 7));
    assert!(!window.holds(u64::MAX - 8));
}

#[test]
fn window_holds_its_two_ends() {
    let window = Window { first: 8, last: 15 };
    assert!(!window.holds(7));
    assert!(window.holds(8));
    assert!(window.holds(15));
    assert!(!window.holds(16));
    let empty = Window { first: 4, last: 3 };
    assert!(!empty.holds(3));
    assert!(!empty.holds(4));
}

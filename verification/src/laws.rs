//! What holds of every ring: how registrations show up in queries, when they
//! are forgotten, and how a query treats the boundaries of the grid.

use vstd::prelude::*;
use crate::grid::Grid;
use crate::ring::{lemma_tally_only, lemma_tally_update, Ring};
use crate::slot::Slot;

verus! {

/// A query for a range that ends no later than it starts counts nothing,
/// whatever the ring holds.
pub proof fn lemma_empty_range_counts_nothing(ring: Ring, start: int, end: int)
    requires
        start >= end,
    ensures
        ring.count_in(start, end) == 0,
{
}

/// On a ring that has seen a single registration, a query counts one if it
/// selects the interval of that registration, and nothing otherwise.
pub proof fn lemma_single_registration(grid: Grid, time: u64, start: int, end: int)
    requires
        grid.wf(),
    ensures
        Ring::fresh(grid).register(time).count_in(start, end) == if Ring::fresh(grid).register(
            time,
        ).selects(start, end, grid.interval_start(time as int)) {
            1int
        } else {
            0int
        },
{
    let fresh = Ring::fresh(grid);
    let ring = fresh.register(time);
    Ring::lemma_fresh_wf(grid);
    fresh.lemma_register_wf(time);
    let index = grid.slot_index(time as int);
    if start < end {
        let lo = grid.valid_start(ring.watermark as int, start);
        let hi = grid.valid_end(ring.watermark as int, end);
        assert forall|j: int| 0 <= j < ring.slots.len() && j != index implies (
        #[trigger] ring.slots[j]).counted_in(lo, hi) == 0 by {
            assert(ring.slots[j] == fresh.slots[j]);
        }
        lemma_tally_only(ring.slots, lo, hi, index);
    }
}

/// A single registration at any time is counted exactly once by the query
/// for that one time unit.
pub proof fn lemma_first_registration_counts_once(grid: Grid, time: u64)
    requires
        grid.wf(),
    ensures
        Ring::fresh(grid).register(time).count_in(time as int, time + 1) == 1,
{
    let fresh = Ring::fresh(grid);
    Ring::lemma_fresh_wf(grid);
    fresh.lemma_register_wf(time);
    grid.lemma_capacity();
    grid.lemma_interval(time as int);
    grid.lemma_aligned_end(time + 1);
    lemma_single_registration(grid, time, time as int, time + 1);
}

/// A registration whose interval the ring can still hold is counted by the
/// query for its time unit: that query reports the count of the slot on which
/// the interval falls, which is one after a rollover and one more than before
/// otherwise.
pub proof fn lemma_registration_is_counted(ring: Ring, time: u64)
    requires
        ring.wf(),
        ring.grid.ring_start(ring.register(time).watermark as int) <= ring.grid.interval_start(
            time as int,
        ),
    ensures
        ring.register(time).count_in(time as int, time + 1) == ring.register(
            time,
        ).slots[ring.grid.slot_index(time as int)].count,
        ring.register(time).slots[ring.grid.slot_index(time as int)]
            == ring.slots[ring.grid.slot_index(time as int)].recorded(
            ring.grid.interval_start(time as int) as u64,
        ),
{
    let grid = ring.grid;
    let next = ring.register(time);
    let boundary = grid.interval_start(time as int);
    ring.lemma_register_wf(time);
    grid.lemma_capacity();
    grid.lemma_interval(time as int);
    grid.lemma_interval(next.watermark as int);
    grid.lemma_aligned_end(time + 1);
    let lo = grid.valid_start(next.watermark as int, time as int);
    let hi = grid.valid_end(next.watermark as int, time + 1);
    assert(lo == boundary);
    assert(boundary < hi <= boundary + grid.slot_size()) by {
        if next.watermark == time {
        } else {
            grid.lemma_interval_order(time as int, next.watermark as int);
        }
    }
    next.lemma_tally_within_interval(lo, hi, boundary);
}

/// Once time has moved on by a whole capacity, what was registered before is
/// forgotten: after two registrations at time zero and one at the capacity,
/// the query around the capacity counts the last one only.
pub proof fn lemma_rollover_forgets(grid: Grid)
    requires
        grid.wf(),
    ensures
        grid.capacity() <= u64::MAX,
        Ring::fresh(grid).register(0).register(0).register(grid.capacity() as u64).count_in(
            grid.capacity() - 1,
            grid.capacity() + 1,
        ) == 1,
{
    let capacity = grid.capacity();
    grid.lemma_capacity();
    let time = capacity as u64;
    Ring::lemma_fresh_wf(grid);
    let fresh = Ring::fresh(grid);
    let once = fresh.register(0);
    fresh.lemma_register_wf(0);
    let twice = once.register(0);
    once.lemma_register_wf(0);
    let ring = twice.register(time);
    twice.lemma_register_wf(time);
    grid.lemma_interval(0);
    grid.lemma_interval(capacity);
    grid.lemma_aligned_end(capacity);
    grid.lemma_aligned_end(capacity + 1);
    grid.lemma_capacity_falls_on_first_slot();
    let lo = grid.valid_start(ring.watermark as int, capacity - 1);
    let hi = grid.valid_end(ring.watermark as int, capacity + 1);
    assert(ring.slots[0] == (Slot { interval_start: time, count: 1 }));
    assert forall|j: int| 0 <= j < ring.slots.len() && j != 0 implies (
    #[trigger] ring.slots[j]).counted_in(lo, hi) == 0 by {
        assert(ring.slots[j] == fresh.slots[j]);
    }
    lemma_tally_only(ring.slots, lo, hi, 0);
}

/// A query never selects an interval that lies a whole capacity or more
/// before the interval of the watermark.
pub proof fn lemma_stale_interval_is_not_selected(
    ring: Ring,
    start: int,
    end: int,
    interval_start: int,
)
    requires
        ring.grid.wf(),
        interval_start + ring.grid.capacity() <= ring.grid.interval_start(ring.watermark as int),
    ensures
        !ring.selects(start, end, interval_start),
{
    ring.grid.lemma_capacity();
    ring.grid.lemma_interval(ring.watermark as int);
}

/// Registrations in one interval add up: a second registration in the
/// interval of the first raises the count of their slot by one and leaves
/// every other slot as it was.
pub proof fn lemma_same_interval_accumulates(ring: Ring, first: u64, second: u64)
    requires
        ring.wf(),
        ring.grid.interval_start(first as int) == ring.grid.interval_start(second as int),
        ring.register(first).slots[ring.grid.slot_index(first as int)].count < u32::MAX,
    ensures
        ring.grid.slot_index(second as int) == ring.grid.slot_index(first as int),
        ring.register(first).register(second).slots[ring.grid.slot_index(first as int)].count
            == ring.register(first).slots[ring.grid.slot_index(first as int)].count + 1,
        ring.register(first).register(second).slots[ring.grid.slot_index(
            first as int,
        )].interval_start == ring.grid.interval_start(first as int),
        forall|j: int|
            0 <= j < ring.slots.len() && j != ring.grid.slot_index(first as int) ==> ring.register(
                first,
            ).register(second).slots[j] == ring.register(first).slots[j],
{
    ring.lemma_register_wf(first);
    ring.register(first).lemma_register_wf(second);
    ring.grid.lemma_interval(first as int);
    ring.grid.lemma_interval(second as int);
}

/// The end of a query is exclusive on the grid: a query that ends at a
/// boundary does not select the interval that starts there.
pub proof fn lemma_end_boundary_is_excluded(ring: Ring, start: int, boundary: int)
    requires
        ring.grid.is_boundary(boundary),
    ensures
        !ring.selects(start, boundary, boundary),
{
}

/// The start of a query is inclusive on the grid: a query that starts at a
/// boundary selects the interval that starts there, as long as the ring can
/// still hold that interval.
pub proof fn lemma_start_boundary_is_included(ring: Ring, boundary: int, end: int)
    requires
        ring.grid.wf(),
        ring.grid.is_boundary(boundary),
        ring.grid.ring_start(ring.watermark as int) <= boundary <= ring.watermark,
        boundary < end,
    ensures
        ring.selects(boundary, end, boundary),
{
    ring.grid.lemma_interval(ring.watermark as int);
    ring.grid.lemma_interval(end);
}

/// A registration exactly at a boundary belongs to the window that starts at
/// the boundary and not to the window that ends there.
pub proof fn lemma_boundary_registration(grid: Grid, boundary: u64, start: int, end: int)
    requires
        grid.wf(),
        grid.is_boundary(boundary as int),
        boundary < end,
    ensures
        Ring::fresh(grid).register(boundary).count_in(boundary as int, end) == 1,
        Ring::fresh(grid).register(boundary).count_in(start, boundary as int) == 0,
{
    let fresh = Ring::fresh(grid);
    let ring = fresh.register(boundary);
    Ring::lemma_fresh_wf(grid);
    fresh.lemma_register_wf(boundary);
    grid.lemma_capacity();
    grid.lemma_interval(boundary as int);
    lemma_single_registration(grid, boundary, boundary as int, end);
    lemma_single_registration(grid, boundary, start, boundary as int);
    lemma_end_boundary_is_excluded(ring, start, boundary as int);
    lemma_start_boundary_is_included(ring, boundary as int, end);
}

/// One more registration in an interval that its slot already stands for
/// raises by one, modulo 2^32, what the window that starts at the interval's
/// boundary reports, and leaves what the window that ends at that boundary
/// reports as it was.
pub proof fn lemma_boundary_registration_again(ring: Ring, boundary: u64, start: int, end: int)
    requires
        ring.wf(),
        ring.grid.is_boundary(boundary as int),
        ring.slots[ring.grid.slot_index(boundary as int)].interval_start == boundary,
        ring.grid.ring_start(ring.watermark as int) <= boundary <= ring.watermark,
        boundary < end,
    ensures
        ring.register(boundary).count_in(boundary as int, end) == (ring.count_in(
            boundary as int,
            end,
        ) + 1) % 0x1_0000_0000,
        ring.register(boundary).count_in(start, boundary as int) == ring.count_in(
            start,
            boundary as int,
        ),
{
    let grid = ring.grid;
    let next = ring.register(boundary);
    let index = grid.slot_index(boundary as int);
    ring.lemma_register_wf(boundary);
    grid.lemma_interval(boundary as int);
    lemma_start_boundary_is_included(ring, boundary as int, end);
    lemma_end_boundary_is_excluded(ring, start, boundary as int);
    let slot = ring.slots[index].recorded(boundary);
    lemma_tally_update(
        ring.slots,
        grid.valid_start(ring.watermark as int, boundary as int),
        grid.valid_end(ring.watermark as int, end),
        index,
        slot,
    );
    if start < boundary {
        lemma_tally_update(
            ring.slots,
            grid.valid_start(ring.watermark as int, start),
            grid.valid_end(ring.watermark as int, boundary as int),
            index,
            slot,
        );
    }
}

} // verus!

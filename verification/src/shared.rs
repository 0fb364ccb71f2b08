//! The counter for many owners at once: the same ring, held in atomics and
//! used through a shared reference, without a lock.
//!
//! Other threads may write between any two reads, so the operations here
//! promise less than those of the counter for a single owner: what a query
//! returns is what the ring's rule makes of one reading of the watermark and
//! one reading of each slot.

use std::sync::atomic::{AtomicU32, AtomicU64, Ordering};
use vstd::prelude::*;
use vstd::bits::lemma_usize_pow2_no_overflow;
use crate::grid::{Grid, Window};
use crate::ring::{lemma_tally_step, tally, Ring};
use crate::slot::Slot;

verus! {

/// A time bucket that several threads may write at once. The interval and
/// the count are two atomics, so a reader may see the interval of one
/// registration with the count of another.
#[derive(Debug)]
struct SharedSlot {
    interval_start: AtomicU64,
    counter: AtomicU32,
}

impl SharedSlot {
    /// An untouched slot.
    fn new() -> (slot: SharedSlot) {
        SharedSlot { interval_start: AtomicU64::new(0), counter: AtomicU32::new(0) }
    }

    /// Reads the interval and then the count.
    fn read(&self) -> (seen: Slot) {
        let interval_start: u64 = self.interval_start.load(Ordering::Acquire);
        let count: u32 = self.counter.load(Ordering::Acquire);
        Slot { interval_start, count }
    }

    /// Records one invocation in the interval that starts at
    /// `interval_start`: one more where the slot is seen to stand for that
    /// interval, otherwise the slot is taken over with a count of one.
    fn record(&self, interval_start: u64) {
        let time_in_slot: u64 = self.interval_start.load(Ordering::Acquire);
        if time_in_slot == interval_start {
            self.counter.fetch_add(1, Ordering::Relaxed);
        } else {
            self.interval_start.store(interval_start, Ordering::Release);
            self.counter.store(1, Ordering::Release);
        }
    }
}

/// Reads the highest time seen so far.
fn load_watermark(watermark: &AtomicU64) -> (seen: u64) {
    watermark.load(Ordering::Acquire)
}

/// Tries once to raise the watermark from `seen` to `time`. Where another
/// thread has written it since it was seen, the watermark stays as that
/// thread left it.
fn raise_watermark(watermark: &AtomicU64, seen: u64, time: u64) {
    let _ = watermark.compare_exchange(seen, time, Ordering::Release, Ordering::Relaxed);
}

/// Reads every slot once and sums, modulo 2^32, the counts of those seen
/// with an interval start in `window`.
fn sum_readings(slots: &Vec<SharedSlot>, window: Window) -> (count: u32)
    ensures
        exists|seen: Seq<Slot>|
            seen.len() == slots.len() && count == #[trigger] tally(
                seen,
                window.first as int,
                window.last + 1,
            ) % 0x1_0000_0000,
{
    let mut count: u32 = 0;
    let mut i: usize = 0;
    let ghost mut seen: Seq<Slot> = Seq::empty();
    while i < slots.len()
        invariant
            i <= slots.len(),
            seen.len() == i,
            count == tally(seen, window.first as int, window.last + 1) % 0x1_0000_0000,
        decreases slots.len() - i,
    {
        let slot: Slot = slots[i].read();
        proof {
            let longer = seen.push(slot);
            lemma_tally_step(longer, window.first as int, window.last + 1, i as int);
            assert(longer.take(i as int) =~= seen);
            assert(longer.take(i + 1) =~= longer);
            seen = longer;
        }
        if window.holds(slot.interval_start) {
            count = count.wrapping_add(slot.count);
        }
        i += 1;
    }
    count
}

/// Counts invocations over a sliding window of time, for callers that share
/// one counter between threads.
#[derive(Debug)]
pub struct SharedInvocationCounter {
    slots: Vec<SharedSlot>,
    grid: Grid,
    max_current_time: AtomicU64,
}

impl SharedInvocationCounter {
    #[verifier::type_invariant]
    spec fn inv(self) -> bool {
        &&& self.grid.wf()
        &&& self.slots.len() == self.grid.slot_count()
    }

    /// The exponents the counter was made with.
    pub closed spec fn grid(&self) -> Grid {
        self.grid
    }

    /// Whether `ring` is one reading of this counter: it has the counter's
    /// grid and as many slots.
    pub open spec fn may_read(&self, ring: Ring) -> bool {
        &&& ring.grid == self.grid()
        &&& ring.slots.len() == self.grid().slot_count()
    }

    /// Creates a counter with `2^slot_count_exp` slots of `2^slot_size_exp`
    /// time units each, on which nothing has been registered.
    pub fn new(slot_count_exp: u8, slot_size_exp: u8) -> (counter: Self)
        requires
            slot_count_exp + slot_size_exp <= 63,
            slot_count_exp < usize::BITS,
        ensures
            counter.grid() == (Grid { slot_count_exp, slot_size_exp }),
    {
        let grid = Grid::new(slot_count_exp, slot_size_exp);
        proof {
            lemma_usize_pow2_no_overflow(slot_count_exp as nat);
        }
        let slot_count: usize = grid.slot_count_of() as usize;
        let mut slots: Vec<SharedSlot> = Vec::new();
        let mut i: usize = 0;
        while i < slot_count
            invariant
                i <= slot_count,
                slots.len() == i,
            decreases slot_count - i,
        {
            slots.push(SharedSlot::new());
            i += 1;
        }
        SharedInvocationCounter { slots, grid, max_current_time: AtomicU64::new(0) }
    }

    /// Creates a counter as `new` does where the exponents allow it, and
    /// reports by `None` where they do not.
    pub fn try_new(slot_count_exp: u8, slot_size_exp: u8) -> (made: Option<Self>)
        ensures
            made.is_some() <==> slot_count_exp + slot_size_exp <= 63 && slot_count_exp
                < usize::BITS,
            made matches Some(counter) ==> counter.grid() == (Grid {
                slot_count_exp,
                slot_size_exp,
            }),
    {
        if Grid::new(slot_count_exp, slot_size_exp).fits() {
            Some(SharedInvocationCounter::new(slot_count_exp, slot_size_exp))
        } else {
            None
        }
    }

    /// Registers one invocation at `time`.
    ///
    /// The slot on which the interval of `time` falls records it, and the
    /// watermark is raised to `time` if it is seen to be lower. Two threads
    /// that register at once may each overwrite part of what the other
    /// wrote; the counter stays usable and the count approximate.
    pub fn register(&self, time: u64) {
        proof {
            use_type_invariant(self);
            self.grid.lemma_interval(time as int);
        }
        let start: u64 = self.grid.interval_start_of(time);
        let index: usize = self.grid.slot_index_of(time) as usize;
        self.slots[index].record(start);
        let seen: u64 = load_watermark(&self.max_current_time);
        if seen < time {
            raise_watermark(&self.max_current_time, seen, time);
        }
    }

    /// Returns the approximate number of invocations with a time in
    /// `[start_time, end_time)`: nothing for an empty range, otherwise what
    /// the ring's rule counts on one reading of the watermark and of each
    /// slot.
    pub fn count_in(&self, start_time: u64, end_time: u64) -> (count: u32)
        ensures
            start_time >= end_time ==> count == 0,
            exists|ring: Ring|
                self.may_read(ring) && count == #[trigger] ring.count_in(
                    start_time as int,
                    end_time as int,
                ),
    {
        proof {
            use_type_invariant(self);
        }
        let watermark: u64 = load_watermark(&self.max_current_time);
        if start_time >= end_time {
            proof {
                let ring = Ring { grid: self.grid, slots: Ring::fresh(self.grid).slots, watermark };
                assert(self.may_read(ring) && 0 == ring.count_in(
                    start_time as int,
                    end_time as int,
                ));
            }
            return 0;
        }
        let window = self.grid.window(watermark, start_time, end_time - 1);
        let count: u32 = sum_readings(&self.slots, window);
        proof {
            let seen = choose|seen: Seq<Slot>|
                seen.len() == self.slots.len() && count == #[trigger] tally(
                    seen,
                    window.first as int,
                    window.last + 1,
                ) % 0x1_0000_0000;
            let ring = Ring { grid: self.grid, slots: seen, watermark };
            assert(self.may_read(ring) && count == ring.count_in(
                start_time as int,
                end_time as int,
            ));
        }
        count
    }

    /// Returns the approximate number of invocations in the window of one
    /// capacity that ends with `now`, on one reading of the watermark and of
    /// each slot.
    pub fn count_trailing_window(&self, now: u64) -> (count: u32)
        ensures
            exists|ring: Ring|
                self.may_read(ring) && count == #[trigger] ring.count_trailing_window(now),
    {
        proof {
            use_type_invariant(self);
            self.grid.lemma_capacity();
            self.grid.lemma_interval(now - self.grid.capacity());
            self.grid.lemma_interval(0);
        }
        let watermark: u64 = load_watermark(&self.max_current_time);
        let capacity: u64 = self.grid.capacity_of();
        let start: u64 = if now >= capacity {
            now - capacity
        } else {
            0
        };
        proof {
            self.grid.lemma_interval(watermark as int);
        }
        let window = self.grid.window(watermark, start, now);
        let count: u32 = sum_readings(&self.slots, window);
        proof {
            let seen = choose|seen: Seq<Slot>|
                seen.len() == self.slots.len() && count == #[trigger] tally(
                    seen,
                    window.first as int,
                    window.last + 1,
                ) % 0x1_0000_0000;
            let ring = Ring { grid: self.grid, slots: seen, watermark };
            assert(self.may_read(ring) && count == ring.count_trailing_window(now));
        }
        count
    }
}

} // verus!

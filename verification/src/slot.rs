//! One bucket of the ring: the interval it stands for and how many
//! invocations were recorded in it.

use vstd::prelude::*;

verus! {

/// A time bucket. `interval_start` is the first time unit of the interval the
/// bucket currently stands for, `count` the number of invocations recorded in
/// that interval, modulo 2^32.
#[derive(Clone, Copy, Debug)]
pub struct Slot {
    pub interval_start: u64,
    pub count: u32,
}

impl Slot {
    /// Whether the slot is untouched: no interval yet and nothing counted.
    pub open spec fn is_empty(self) -> bool {
        self.interval_start == 0 && self.count == 0
    }

    /// What the slot adds to a query for the interval starts in `[lo, hi)`:
    /// its count if its interval starts there, otherwise nothing.
    pub open spec fn counted_in(self, lo: int, hi: int) -> int {
        if lo <= self.interval_start < hi {
            self.count as int
        } else {
            0
        }
    }

    /// What the slot holds after one more invocation in the interval that
    /// starts at `interval_start`: one more if it already stood for that
    /// interval, otherwise a fresh count of one for the new interval.
    pub open spec fn recorded(self, interval_start: u64) -> Slot {
        if self.interval_start == interval_start {
            Slot { interval_start, count: self.count.wrapping_add(1) }
        } else {
            Slot { interval_start, count: 1 }
        }
    }

    /// An untouched slot.
    pub fn new() -> (slot: Slot)
        ensures
            slot == (Slot { interval_start: 0, count: 0 }),
    {
        Slot { interval_start: 0, count: 0 }
    }

    /// Records one invocation in the interval that starts at `interval_start`.
    pub fn record(&mut self, interval_start: u64)
        ensures
            *final(self) == old(self).recorded(interval_start),
    {
        if self.interval_start == interval_start {
            self.count = self.count.wrapping_add(1);
        } else {
            self.interval_start = interval_start;
            self.count = 1;
        }
    }
}

} // verus!

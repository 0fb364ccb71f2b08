//! The ring as a mathematical value: its grid, the contents of its slots and
//! the highest time it has seen, with the two operations defined on it.

use vstd::prelude::*;
use crate::grid::Grid;
use crate::slot::Slot;

verus! {

/// Sum of what the slots contribute to a query for the interval starts in
/// `[lo, hi)`.
pub open spec fn tally(slots: Seq<Slot>, lo: int, hi: int) -> int
    decreases slots.len(),
{
    if slots.len() == 0 {
        0
    } else {
        tally(slots.drop_last(), lo, hi) + slots.last().counted_in(lo, hi)
    }
}

/// The state of a counter.
pub struct Ring {
    /// The exponents the ring was made with.
    pub grid: Grid,
    /// The slots, by index.
    pub slots: Seq<Slot>,
    /// The highest time registered so far, zero before the first.
    pub watermark: u64,
}

impl Ring {
    /// Slot `i` stands for an interval that begins on a boundary, not after
    /// the watermark, and that falls on index `i`; or it is untouched.
    pub open spec fn slot_wf(self, i: int) -> bool {
        let slot = self.slots[i];
        &&& self.grid.is_boundary(slot.interval_start as int)
        &&& slot.interval_start <= self.watermark
        &&& (slot.is_empty() || self.grid.slot_index(slot.interval_start as int) == i)
    }

    /// The ring has as many slots as its grid says, each of them well formed.
    pub open spec fn wf(self) -> bool {
        &&& self.grid.wf()
        &&& self.slots.len() == self.grid.slot_count()
        &&& forall|i: int| 0 <= i < self.slots.len() ==> #[trigger] self.slot_wf(i)
    }

    /// A ring on which nothing has been registered.
    pub open spec fn fresh(grid: Grid) -> Ring {
        Ring {
            grid,
            slots: Seq::new(grid.slot_count() as nat, |i: int| Slot { interval_start: 0, count: 0 }),
            watermark: 0,
        }
    }

    /// The ring after one invocation at `time`: the slot on which the
    /// interval of `time` falls records it, and the watermark rises to `time`
    /// if it was lower.
    pub open spec fn register(self, time: u64) -> Ring {
        let index = self.grid.slot_index(time as int);
        let start = self.grid.interval_start(time as int) as u64;
        Ring {
            grid: self.grid,
            slots: self.slots.update(index, self.slots[index].recorded(start)),
            watermark: if self.watermark < time {
                time
            } else {
                self.watermark
            },
        }
    }

    /// Whether a query for `[start, end)` counts a slot that stands for the
    /// interval beginning at `interval_start`.
    pub open spec fn selects(self, start: int, end: int, interval_start: int) -> bool {
        self.grid.selects(self.watermark as int, start, end, interval_start)
    }

    /// The approximate number of invocations in `[start, end)`: nothing for
    /// an empty range, otherwise the counts of the slots that the query
    /// selects, summed modulo 2^32.
    pub open spec fn count_in(self, start: int, end: int) -> int {
        if start >= end {
            0
        } else {
            tally(
                self.slots,
                self.grid.valid_start(self.watermark as int, start),
                self.grid.valid_end(self.watermark as int, end),
            ) % 0x1_0000_0000
        }
    }

    /// The approximate number of invocations in the window of one capacity
    /// that ends with `now`.
    pub open spec fn count_trailing_window(self, now: u64) -> int {
        self.count_in(now - self.grid.capacity(), now + 1)
    }

    /// A fresh ring is well formed.
    pub proof fn lemma_fresh_wf(grid: Grid)
        requires
            grid.wf(),
        ensures
            Ring::fresh(grid).wf(),
    {
        let ring = Ring::fresh(grid);
        grid.lemma_capacity();
        assert forall|i: int| 0 <= i < ring.slots.len() implies #[trigger] ring.slot_wf(i) by {
            grid.lemma_interval(0);
        }
    }

    /// Registering keeps a ring well formed, and leaves its grid and the
    /// number of its slots as they were.
    pub proof fn lemma_register_wf(self, time: u64)
        requires
            self.wf(),
        ensures
            self.register(time).wf(),
            self.register(time).grid == self.grid,
            self.register(time).slots.len() == self.slots.len(),
            self.register(time).watermark >= self.watermark,
            self.register(time).watermark >= time,
            0 <= self.grid.slot_index(time as int) < self.slots.len(),
            0 <= self.grid.interval_start(time as int) <= time,
    {
        let next = self.register(time);
        let index = self.grid.slot_index(time as int);
        self.grid.lemma_interval(time as int);
        assert forall|i: int| 0 <= i < next.slots.len() implies #[trigger] next.slot_wf(i) by {
            assert(self.slot_wf(i));
        }
    }
}

/// The sum over the first `n + 1` slots is the sum over the first `n` plus
/// what slot `n` contributes.
pub proof fn lemma_tally_step(slots: Seq<Slot>, lo: int, hi: int, n: int)
    requires
        0 <= n < slots.len(),
    ensures
        tally(slots.take(n + 1), lo, hi) == tally(slots.take(n), lo, hi) + slots[n].counted_in(
            lo,
            hi,
        ),
{
    assert(slots.take(n + 1).drop_last() =~= slots.take(n));
}

/// Replacing one slot changes the sum by the difference of the two
/// contributions.
pub proof fn lemma_tally_update(slots: Seq<Slot>, lo: int, hi: int, i: int, slot: Slot)
    requires
        0 <= i < slots.len(),
    ensures
        tally(slots.update(i, slot), lo, hi) == tally(slots, lo, hi) - slots[i].counted_in(lo, hi)
            + slot.counted_in(lo, hi),
    decreases slots.len(),
{
    let updated = slots.update(i, slot);
    if i == slots.len() - 1 {
        assert(updated.drop_last() =~= slots.drop_last());
    } else {
        assert(updated.drop_last() =~= slots.drop_last().update(i, slot));
        lemma_tally_update(slots.drop_last(), lo, hi, i, slot);
    }
}

/// Slots that contribute nothing sum to nothing.
pub proof fn lemma_tally_none(slots: Seq<Slot>, lo: int, hi: int)
    requires
        forall|j: int| 0 <= j < slots.len() ==> (#[trigger] slots[j]).counted_in(lo, hi) == 0,
    ensures
        tally(slots, lo, hi) == 0,
    decreases slots.len(),
{
    if slots.len() > 0 {
        let front = slots.drop_last();
        assert forall|j: int| 0 <= j < front.len() implies (#[trigger] front[j]).counted_in(lo, hi)
            == 0 by {
            assert(front[j] == slots[j]);
        }
        lemma_tally_none(front, lo, hi);
    }
}

/// Where only slot `i` contributes, the sum is its contribution.
pub proof fn lemma_tally_only(slots: Seq<Slot>, lo: int, hi: int, i: int)
    requires
        0 <= i < slots.len(),
        forall|j: int|
            0 <= j < slots.len() && j != i ==> (#[trigger] slots[j]).counted_in(lo, hi) == 0,
    ensures
        tally(slots, lo, hi) == slots[i].counted_in(lo, hi),
{
    let blank = Slot { interval_start: 0, count: 0 };
    let others = slots.update(i, blank);
    assert forall|j: int| 0 <= j < others.len() implies (#[trigger] others[j]).counted_in(lo, hi)
        == 0 by {
        if j != i {
            assert(others[j] == slots[j]);
        }
    }
    lemma_tally_none(others, lo, hi);
    lemma_tally_update(slots, lo, hi, i, blank);
}

impl Ring {
    /// In a well-formed ring only the slot on which an interval falls can
    /// hold a count for it: a query that stays within one interval sees that
    /// slot alone.
    pub proof fn lemma_tally_within_interval(self, lo: int, hi: int, boundary: int)
        requires
            self.wf(),
            self.grid.is_boundary(boundary),
            boundary <= lo,
            hi <= boundary + self.grid.slot_size(),
        ensures
            0 <= self.grid.slot_index(boundary) < self.slots.len(),
            tally(self.slots, lo, hi) == self.slots[self.grid.slot_index(boundary)].counted_in(
                lo,
                hi,
            ),
    {
        let index = self.grid.slot_index(boundary);
        self.grid.lemma_interval(boundary);
        assert forall|j: int| 0 <= j < self.slots.len() && j != index implies (
        #[trigger] self.slots[j]).counted_in(lo, hi) == 0 by {
            let slot = self.slots[j];
            assert(self.slot_wf(j));
            if lo <= slot.interval_start < hi {
                self.grid.lemma_boundary_within(boundary, slot.interval_start as int);
            }
        }
        lemma_tally_only(self.slots, lo, hi, index);
    }
}

} // verus!

//! The counter for a single owner: every operation is specified exactly
//! against the ring it stands for.

use vstd::prelude::*;
use vstd::bits::lemma_usize_pow2_no_overflow;
use crate::grid::{Grid, Window};
use crate::ring::{lemma_tally_step, tally, Ring};
use crate::slot::Slot;

verus! {

/// Counts invocations over a sliding window of time.
///
/// Time is divided into intervals of `2^slot_size_exp` units, and a ring of
/// `2^slot_count_exp` slots holds one count per interval. A slot is taken over
/// by a later interval once time has moved on by a whole ring, so the counter
/// remembers at most `2^(slot_count_exp + slot_size_exp)` time units, at the
/// resolution of one slot.
#[derive(Debug)]
pub struct InvocationCounter {
    slots: Vec<Slot>,
    grid: Grid,
    max_current_time: u64,
}

impl View for InvocationCounter {
    type V = Ring;

    closed spec fn view(&self) -> Ring {
        Ring { grid: self.grid, slots: self.slots@, watermark: self.max_current_time }
    }
}

/// Sums, modulo 2^32, the counts of the slots whose interval starts lie in
/// `window`.
pub fn sum_window(slots: &Vec<Slot>, window: Window) -> (count: u32)
    ensures
        count == tally(slots@, window.first as int, window.last + 1) % 0x1_0000_0000,
{
    let mut count: u32 = 0;
    let mut i: usize = 0;
    while i < slots.len()
        invariant
            i <= slots.len(),
            count == tally(slots@.take(i as int), window.first as int, window.last + 1)
                % 0x1_0000_0000,
        decreases slots.len() - i,
    {
        let slot = slots[i];
        proof {
            lemma_tally_step(slots@, window.first as int, window.last + 1, i as int);
        }
        if window.holds(slot.interval_start) {
            count = count.wrapping_add(slot.count);
        }
        i += 1;
    }
    proof {
        assert(slots@.take(slots.len() as int) =~= slots@);
    }
    count
}

/// Puts `slot` at `index`.
fn store(slots: &mut Vec<Slot>, index: usize, slot: Slot)
    requires
        index < old(slots).len(),
    ensures
        final(slots)@ == old(slots)@.update(index as int, slot),
    no_unwind
{
    slots[index] = slot;
}

impl InvocationCounter {
    #[verifier::type_invariant]
    spec fn inv(self) -> bool {
        self@.wf()
    }

    /// Creates a counter with `2^slot_count_exp` slots of `2^slot_size_exp`
    /// time units each, on which nothing has been registered.
    pub fn new(slot_count_exp: u8, slot_size_exp: u8) -> (counter: Self)
        requires
            slot_count_exp + slot_size_exp <= 63,
            slot_count_exp < usize::BITS,
        ensures
            counter@ == Ring::fresh((Grid { slot_count_exp, slot_size_exp })),
            counter@.wf(),
    {
        let grid = Grid::new(slot_count_exp, slot_size_exp);
        proof {
            lemma_usize_pow2_no_overflow(slot_count_exp as nat);
        }
        let slot_count: usize = grid.slot_count_of() as usize;
        let mut slots: Vec<Slot> = Vec::new();
        let mut i: usize = 0;
        while i < slot_count
            invariant
                i <= slot_count,
                slots.len() == i,
                forall|j: int| 0 <= j < i ==> slots[j] == (Slot { interval_start: 0, count: 0 }),
            decreases slot_count - i,
        {
            slots.push(Slot::new());
            i += 1;
        }
        proof {
            assert(slots@ =~= Ring::fresh(grid).slots);
            Ring::lemma_fresh_wf(grid);
        }
        InvocationCounter { slots, grid, max_current_time: 0 }
    }

    /// Creates a counter as `new` does where the exponents allow it, and
    /// reports by `None` where they do not.
    pub fn try_new(slot_count_exp: u8, slot_size_exp: u8) -> (made: Option<Self>)
        ensures
            made.is_some() <==> slot_count_exp + slot_size_exp <= 63 && slot_count_exp
                < usize::BITS,
            made matches Some(counter) ==> counter@ == Ring::fresh(
                (Grid { slot_count_exp, slot_size_exp }),
            ) && counter@.wf(),
    {
        if Grid::new(slot_count_exp, slot_size_exp).fits() {
            Some(InvocationCounter::new(slot_count_exp, slot_size_exp))
        } else {
            None
        }
    }

    /// Registers one invocation at `time`.
    ///
    /// The slot on which the interval of `time` falls counts one more if it
    /// already stands for that interval; otherwise it is taken over by that
    /// interval with a count of one, and what it held is forgotten.
    pub fn register(&mut self, time: u64)
        ensures
            final(self)@ == old(self)@.register(time),
            final(self)@.wf(),
    {
        let ghost before = self@;
        proof {
            use_type_invariant(&*self);
            before.lemma_register_wf(time);
        }
        let start: u64 = self.grid.interval_start_of(time);
        let position: u64 = self.grid.slot_index_of(time);
        assert(position < self.slots.len());
        let index: usize = position as usize;
        if self.max_current_time < time {
            proof {
                let raised = Ring { grid: self.grid, slots: self.slots@, watermark: time };
                assert forall|i: int| 0 <= i < raised.slots.len() implies #[trigger] raised.slot_wf(
                    i,
                ) by {
                    assert(self@.slot_wf(i));
                }
            }
            self.max_current_time = time;
        }
        let mut slot: Slot = self.slots[index];
        slot.record(start);
        store(&mut self.slots, index, slot);
    }

    /// Returns the approximate number of invocations with a time in
    /// `[start_time, end_time)`.
    ///
    /// The range is widened to whole intervals and cut to the window of one
    /// capacity that ends with the interval of the highest time registered;
    /// the counts of the slots whose intervals start in what is left are
    /// summed modulo 2^32. An empty range counts nothing.
    pub fn count_in(&self, start_time: u64, end_time: u64) -> (count: u32)
        ensures
            count == self@.count_in(start_time as int, end_time as int),
            start_time >= end_time ==> count == 0,
    {
        if start_time >= end_time {
            return 0;
        }
        proof {
            use_type_invariant(self);
        }
        let window = self.grid.window(self.max_current_time, start_time, end_time - 1);
        sum_window(&self.slots, window)
    }

    /// Returns the approximate number of invocations in the window of one
    /// capacity that ends with `now`, that is in `[now - capacity, now]`.
    pub fn count_trailing_window(&self, now: u64) -> (count: u32)
        ensures
            count == self@.count_trailing_window(now),
    {
        proof {
            use_type_invariant(self);
            self.grid.lemma_capacity();
            self.grid.lemma_interval(now - self.grid.capacity());
            self.grid.lemma_interval(0);
            self.grid.lemma_interval(self.max_current_time as int);
        }
        let capacity: u64 = self.grid.capacity_of();
        let start: u64 = if now >= capacity {
            now - capacity
        } else {
            0
        };
        let window = self.grid.window(self.max_current_time, start, now);
        sum_window(&self.slots, window)
    }
}

} // verus!

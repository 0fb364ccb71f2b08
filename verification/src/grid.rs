//! The time grid: how time units fall into intervals of a power-of-two size,
//! how intervals fall onto the slots of a ring, and which intervals a query
//! may still see once the ring has moved on.

use vstd::prelude::*;
use vstd::arithmetic::div_mod::{
    lemma_div_multiples_vanish,
    lemma_fundamental_div_mod,
    lemma_fundamental_div_mod_converse,
    lemma_mod_bound,
    lemma_mod_multiples_basic,
    lemma_mod_self_0,
};
use vstd::arithmetic::power2::{
    lemma2_to64,
    lemma2_to64_rest,
    lemma_pow2_adds,
    lemma_pow2_pos,
    pow2,
};
use vstd::bits::{lemma_u64_pow2_no_overflow, lemma_u64_shl_is_mul, lemma_u64_shr_is_div};

verus! {

/// The two exponents that fix a ring for its lifetime: it has
/// `2^slot_count_exp` slots, each spanning `2^slot_size_exp` time units.
#[derive(Clone, Copy, Debug)]
pub struct Grid {
    pub slot_count_exp: u8,
    pub slot_size_exp: u8,
}

/// A closed range of interval starts, `first ..= last`; empty when
/// `first > last`.
#[derive(Clone, Copy, Debug)]
pub struct Window {
    pub first: u64,
    pub last: u64,
}

impl Window {
    /// Whether `interval_start` lies in the range.
    pub open spec fn contains(self, interval_start: int) -> bool {
        self.first <= interval_start <= self.last
    }

    /// Whether `interval_start` lies in the range.
    pub fn holds(&self, interval_start: u64) -> (inside: bool)
        ensures
            inside == self.contains(interval_start as int),
    {
        self.first <= interval_start && interval_start <= self.last
    }
}

impl Grid {
    /// The capacity `2^(slot_count_exp + slot_size_exp)` must fit in 64 bits
    /// with room to spare for the end of the last interval.
    pub open spec fn wf(self) -> bool {
        self.slot_count_exp + self.slot_size_exp <= 63
    }

    /// Time units per slot.
    pub open spec fn slot_size(self) -> int {
        pow2(self.slot_size_exp as nat) as int
    }

    /// Number of slots in the ring.
    pub open spec fn slot_count(self) -> int {
        pow2(self.slot_count_exp as nat) as int
    }

    /// Length of the trailing window the ring can hold.
    pub open spec fn capacity(self) -> int {
        self.slot_count() * self.slot_size()
    }

    /// Whether `time` is the first time unit of an interval.
    pub open spec fn is_boundary(self, time: int) -> bool {
        time % self.slot_size() == 0
    }

    /// First time unit of the interval that contains `time`.
    pub open spec fn interval_start(self, time: int) -> int {
        time - time % self.slot_size()
    }

    /// First time unit after the interval that contains `time`.
    pub open spec fn interval_end(self, time: int) -> int {
        self.interval_start(time) + self.slot_size()
    }

    /// The slot on which the interval that contains `time` falls.
    pub open spec fn slot_index(self, time: int) -> int {
        (time / self.slot_size()) % self.slot_count()
    }

    /// The exclusive end of a query rounded to the grid: `end` itself when it
    /// is a boundary, otherwise the end of the interval that contains it.
    pub open spec fn aligned_end(self, end: int) -> int {
        if self.is_boundary(end) {
            end
        } else {
            self.interval_end(end)
        }
    }

    /// End of the ring's valid window: the end of the interval that contains
    /// the watermark.
    pub open spec fn ring_end(self, watermark: int) -> int {
        self.interval_end(watermark)
    }

    /// Start of the ring's valid window: one capacity before its end, but not
    /// before time zero.
    pub open spec fn ring_start(self, watermark: int) -> int {
        if self.ring_end(watermark) >= self.capacity() {
            self.ring_end(watermark) - self.capacity()
        } else {
            0
        }
    }

    /// First interval start that a query from `start` may count.
    pub open spec fn valid_start(self, watermark: int, start: int) -> int {
        if self.ring_start(watermark) >= self.interval_start(start) {
            self.ring_start(watermark)
        } else {
            self.interval_start(start)
        }
    }

    /// End (exclusive) of the interval starts that a query up to `end`
    /// (exclusive) may count.
    pub open spec fn valid_end(self, watermark: int, end: int) -> int {
        if self.ring_end(watermark) <= self.aligned_end(end) {
            self.ring_end(watermark)
        } else {
            self.aligned_end(end)
        }
    }

    /// Whether a query for `[start, end)` counts a slot that stands for the
    /// interval beginning at `interval_start`, given the ring's watermark.
    pub open spec fn selects(self, watermark: int, start: int, end: int, interval_start: int) -> bool {
        &&& start < end
        &&& self.valid_start(watermark, start) <= interval_start
        &&& interval_start < self.valid_end(watermark, end)
    }

    /// The slot size is positive, and the interval of `time` starts on a
    /// boundary, contains `time`, and falls on the same slot as `time`.
    pub proof fn lemma_interval(self, time: int)
        ensures
            self.slot_size() > 0,
            self.slot_count() > 0,
            self.is_boundary(self.interval_start(time)),
            self.interval_start(time) <= time < self.interval_end(time),
            self.interval_start(time) == (time / self.slot_size()) * self.slot_size(),
            self.interval_start(time) / self.slot_size() == time / self.slot_size(),
            self.slot_index(self.interval_start(time)) == self.slot_index(time),
            0 <= self.slot_index(time) < self.slot_count(),
            time >= 0 ==> self.interval_start(time) >= 0,
    {
        let d = self.slot_size();
        lemma_pow2_pos(self.slot_size_exp as nat);
        lemma_pow2_pos(self.slot_count_exp as nat);
        lemma_fundamental_div_mod(time, d);
        lemma_mod_bound(time, d);
        let q = time / d;
        assert(self.interval_start(time) == d * q);
        assert(d * q == q * d) by (nonlinear_arith);
        lemma_mod_multiples_basic(q, d);
        lemma_div_multiples_vanish(q, d);
        lemma_mod_bound(q, self.slot_count());
        if time >= 0 {
            assert(q >= 0) by (nonlinear_arith)
                requires
                    time >= 0,
                    d > 0,
                    q == time / d,
            ;
            assert(d * q >= 0) by (nonlinear_arith)
                requires
                    q >= 0,
                    d > 0,
            ;
        }
    }

    /// Two boundaries less than one slot size apart are the same boundary.
    pub proof fn lemma_boundary_within(self, start: int, boundary: int)
        requires
            self.is_boundary(start),
            self.is_boundary(boundary),
            start <= boundary < start + self.slot_size(),
        ensures
            boundary == start,
    {
        let d = self.slot_size();
        lemma_pow2_pos(self.slot_size_exp as nat);
        lemma_fundamental_div_mod(start, d);
        lemma_fundamental_div_mod(boundary, d);
        let a = start / d;
        let b = boundary / d;
        assert(a == b) by (nonlinear_arith)
            requires
                d > 0,
                d * a <= d * b < d * a + d,
        ;
    }

    /// Rounding an exclusive end up to the grid is the same as taking the end
    /// of the interval that contains the last time unit before it.
    pub proof fn lemma_aligned_end(self, end: int)
        ensures
            self.aligned_end(end) == self.interval_end(end - 1),
    {
        let d = self.slot_size();
        lemma_pow2_pos(self.slot_size_exp as nat);
        lemma_fundamental_div_mod(end, d);
        lemma_mod_bound(end, d);
        let q = end / d;
        let r = end % d;
        if r == 0 {
            assert(end - 1 == (q - 1) * d + (d - 1)) by (nonlinear_arith)
                requires
                    end == d * q,
            ;
            lemma_fundamental_div_mod_converse(end - 1, d, q - 1, d - 1);
        } else {
            assert(end - 1 == q * d + (r - 1)) by (nonlinear_arith)
                requires
                    end == d * q + r,
            ;
            lemma_fundamental_div_mod_converse(end - 1, d, q, r - 1);
        }
    }

    /// The capacity is `2^(slot_count_exp + slot_size_exp)`, at most `2^63`.
    pub proof fn lemma_capacity(self)
        requires
            self.wf(),
        ensures
            self.capacity() == pow2((self.slot_count_exp + self.slot_size_exp) as nat),
            0 < self.slot_size() <= self.capacity() <= 0x8000_0000_0000_0000,
            0 < self.slot_count() <= 0x8000_0000_0000_0000,
            self.capacity() % self.slot_size() == 0,
    {
        let k = self.slot_count_exp as nat;
        let s = self.slot_size_exp as nat;
        lemma_pow2_adds(k, s);
        lemma_pow2_pos(k);
        lemma_pow2_pos(s);
        lemma_pow2_adds((63 - k - s) as nat, k + s);
        lemma_pow2_pos((63 - k - s) as nat);
        lemma_pow2_adds((63 - k) as nat, k);
        lemma_pow2_pos((63 - k) as nat);
        lemma2_to64();
        lemma2_to64_rest();
        let c = pow2(k + s) as int;
        let rest = pow2((63 - k - s) as nat) as int;
        assert(c <= rest * c) by (nonlinear_arith)
            requires
                rest >= 1,
                c >= 0,
        ;
        let n = self.slot_count();
        let rest_k = pow2((63 - k) as nat) as int;
        assert(n <= rest_k * n) by (nonlinear_arith)
            requires
                rest_k >= 1,
                n >= 0,
        ;
        let d = self.slot_size();
        assert(d <= n * d) by (nonlinear_arith)
            requires
                n >= 1,
                d >= 0,
        ;
        lemma_mod_multiples_basic(n, d);
    }

    /// A whole capacity after time zero the ring is back on its first slot:
    /// the capacity is a boundary and falls on slot zero.
    pub proof fn lemma_capacity_falls_on_first_slot(self)
        requires
            self.wf(),
        ensures
            self.is_boundary(self.capacity()),
            self.interval_start(self.capacity()) == self.capacity(),
            self.slot_index(self.capacity()) == 0,
    {
        let d = self.slot_size();
        let n = self.slot_count();
        self.lemma_capacity();
        lemma_div_multiples_vanish(n, d);
        assert(n * d == d * n) by (nonlinear_arith);
        lemma_mod_self_0(n);
    }

    /// Later times lie in later intervals, or in the same one.
    pub proof fn lemma_interval_order(self, earlier: int, later: int)
        requires
            earlier <= later,
        ensures
            self.interval_start(earlier) <= self.interval_start(later),
    {
        let d = self.slot_size();
        self.lemma_interval(earlier);
        self.lemma_interval(later);
        let a = earlier / d;
        let b = later / d;
        assert(a <= b) by (nonlinear_arith)
            requires
                d > 0,
                a * d <= earlier,
                earlier <= later,
                later < b * d + d,
        ;
        assert(a * d <= b * d) by (nonlinear_arith)
            requires
                d > 0,
                a <= b,
        ;
    }

    /// The interval of any 64-bit time ends no later than `2^64`.
    pub proof fn lemma_interval_end_fits(self, time: u64)
        requires
            self.slot_size_exp <= 63,
        ensures
            self.interval_end(time as int) <= 0x1_0000_0000_0000_0000,
    {
        let s = self.slot_size_exp as nat;
        let d = self.slot_size();
        let top = pow2((64 - s) as nat) as int;
        lemma_pow2_pos(s);
        lemma_pow2_adds((64 - s) as nat, s);
        lemma2_to64();
        self.lemma_interval(time as int);
        let q = time as int / d;
        assert(q < top) by (nonlinear_arith)
            requires
                q * d <= time,
                time < top * d,
                d > 0,
        ;
        assert((q + 1) * d <= top * d) by (nonlinear_arith)
            requires
                q + 1 <= top,
                d > 0,
        ;
        assert((q + 1) * d == q * d + d) by (nonlinear_arith);
    }

    /// Builds the grid for the two exponents.
    pub fn new(slot_count_exp: u8, slot_size_exp: u8) -> (grid: Grid)
        ensures
            grid == (Grid { slot_count_exp, slot_size_exp }),
    {
        Grid { slot_count_exp, slot_size_exp }
    }

    /// Whether a ring can be built on this grid: the capacity fits in 64
    /// bits and the number of slots in a `usize`.
    pub fn fits(&self) -> (ok: bool)
        ensures
            ok == (self.wf() && self.slot_count_exp < usize::BITS),
    {
        let sum: u16 = self.slot_count_exp as u16 + self.slot_size_exp as u16;
        sum <= 63 && (self.slot_count_exp as u32) < usize::BITS
    }

    /// Time units per slot, `2^slot_size_exp`.
    pub fn slot_size_of(&self) -> (size: u64)
        requires
            self.slot_size_exp <= 63,
        ensures
            size == self.slot_size(),
    {
        let shift: u64 = self.slot_size_exp as u64;
        proof {
            lemma_u64_pow2_no_overflow(shift as nat);
            lemma_u64_shl_is_mul(1, shift);
        }
        1u64 << shift
    }

    /// Number of slots in the ring, `2^slot_count_exp`.
    pub fn slot_count_of(&self) -> (count: u64)
        requires
            self.slot_count_exp <= 63,
        ensures
            count == self.slot_count(),
    {
        let shift: u64 = self.slot_count_exp as u64;
        proof {
            lemma_u64_pow2_no_overflow(shift as nat);
            lemma_u64_shl_is_mul(1, shift);
        }
        1u64 << shift
    }

    /// Length of the trailing window, `2^(slot_count_exp + slot_size_exp)`.
    pub fn capacity_of(&self) -> (capacity: u64)
        requires
            self.wf(),
        ensures
            capacity == self.capacity(),
    {
        let shift: u64 = self.slot_count_exp as u64 + self.slot_size_exp as u64;
        proof {
            self.lemma_capacity();
            lemma_u64_pow2_no_overflow(shift as nat);
            lemma_u64_shl_is_mul(1, shift);
        }
        1u64 << shift
    }

    /// First time unit of the interval that contains `time`.
    pub fn interval_start_of(&self, time: u64) -> (start: u64)
        requires
            self.slot_size_exp <= 63,
        ensures
            start == self.interval_start(time as int),
    {
        let shift: u64 = self.slot_size_exp as u64;
        let quotient: u64 = time >> shift;
        proof {
            self.lemma_interval(time as int);
            lemma_u64_shr_is_div(time, shift);
            lemma_u64_shl_is_mul(quotient, shift);
        }
        quotient << shift
    }

    /// Last time unit of the interval that contains `time`.
    pub fn interval_last_of(&self, time: u64) -> (last: u64)
        requires
            self.slot_size_exp <= 63,
        ensures
            last == self.interval_end(time as int) - 1,
    {
        let start: u64 = self.interval_start_of(time);
        let size: u64 = self.slot_size_of();
        proof {
            lemma_pow2_pos(self.slot_size_exp as nat);
            self.lemma_interval_end_fits(time);
        }
        start + (size - 1)
    }

    /// The slot on which the interval that contains `time` falls.
    pub fn slot_index_of(&self, time: u64) -> (index: u64)
        requires
            self.slot_size_exp <= 63,
            self.slot_count_exp <= 63,
        ensures
            index == self.slot_index(time as int),
    {
        let shift: u64 = self.slot_size_exp as u64;
        let count: u64 = self.slot_count_of();
        proof {
            lemma_pow2_pos(self.slot_count_exp as nat);
            lemma_u64_shr_is_div(time, shift);
        }
        (time >> shift) % count
    }

    /// The interval starts that a query for the times `start ..= last` may
    /// count when the ring's watermark is `watermark`.
    pub fn window(&self, watermark: u64, start: u64, last: u64) -> (window: Window)
        requires
            self.wf(),
            start <= last,
        ensures
            window.first == self.valid_start(watermark as int, start as int),
            window.last == self.valid_end(watermark as int, last + 1) - 1,
            forall|interval_start: int|
                window.contains(interval_start) <==> self.selects(
                    watermark as int,
                    start as int,
                    last + 1,
                    interval_start,
                ),
    {
        proof {
            self.lemma_capacity();
        }
        let ring_last: u64 = self.interval_last_of(watermark);
        let span: u64 = self.capacity_of() - 1;
        let ring_first: u64 = if ring_last >= span {
            ring_last - span
        } else {
            0
        };
        let asked_first: u64 = self.interval_start_of(start);
        let asked_last: u64 = self.interval_last_of(last);
        proof {
            self.lemma_aligned_end(last + 1);
        }
        Window {
            first: if ring_first >= asked_first {
                ring_first
            } else {
                asked_first
            },
            last: if ring_last <= asked_last {
                ring_last
            } else {
                asked_last
            },
        }
    }
}

} // verus!

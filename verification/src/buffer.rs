//! A ring of a fixed number of slots that keeps a running sum of the values
//! pushed into it.

use vstd::prelude::*;
use vstd::std_specs::ops::{AddSpec, SubSpec};
use std::ops::{Add, Sub};
use crate::element::is_default;

verus! {

/// The mathematical model of a buffer: its slots in storage order, the slot
/// that the next value goes to, the number of counted pushes, and the sum.
pub struct Ring<T> {
    pub slots: Seq<T>,
    pub next: nat,
    pub pushes: nat,
    pub sum: T,
}

impl<T> Ring<T> {
    /// The number of slots.
    pub open spec fn capacity(self) -> nat {
        self.slots.len()
    }

    /// The slot to write next is one of the slots; with no slots it is 0.
    pub open spec fn well_formed(self) -> bool {
        if self.capacity() == 0 {
            self.next == 0
        } else {
            self.next < self.capacity()
        }
    }

    /// As many pushes were counted as there are slots, or more: a counted
    /// push now takes the value it overwrites out of the sum.
    pub open spec fn wrapped(self) -> bool {
        self.pushes >= self.capacity()
    }

    /// The slot that follows `next`, going round at the end.
    pub open spec fn following(self) -> nat {
        if self.next + 1 >= self.capacity() {
            0
        } else {
            self.next + 1
        }
    }

    /// The slot that lies `ind` places after the one written last, going
    /// round at the end: for 0 the newest value.
    pub open spec fn place(self, ind: int) -> int {
        (self.next + self.capacity() - 1 + ind) % (self.capacity() as int)
    }

    /// The value in the slot `place(ind)`.
    pub open spec fn recent(self, ind: int) -> T {
        self.slots[self.place(ind)]
    }

    /// This ring after `val` was written to the slot `next`, with the sum
    /// and the count untouched.
    pub open spec fn stored(self, val: T) -> Ring<T> {
        Ring {
            slots: self.slots.update(self.next as int, val),
            next: self.following(),
            pushes: self.pushes,
            sum: self.sum,
        }
    }
}

impl<T: Add<Output = T> + Sub<Output = T>> Ring<T> {
    /// The additions and the subtraction that a counted push of `val` makes
    /// are ones that `T` allows.
    pub open spec fn admits(self, val: T) -> bool {
        if self.wrapped() {
            &&& self.sum.sub_req(self.slots[self.next as int])
            &&& forall|rest: T| #[trigger]
                call_ensures(T::sub, (self.sum, self.slots[self.next as int]), rest)
                    ==> rest.add_req(val)
        } else {
            self.sum.add_req(val)
        }
    }

    /// `total` is a sum that a counted push of `val` may leave, by the
    /// subtraction and the addition of `T`.
    pub open spec fn sums_to(self, val: T, total: T) -> bool {
        if self.wrapped() {
            exists|rest: T|
                #![trigger call_ensures(T::add, (rest, val), total)]
                call_ensures(T::sub, (self.sum, self.slots[self.next as int]), rest)
                    && call_ensures(T::add, (rest, val), total)
        } else {
            call_ensures(T::add, (self.sum, val), total)
        }
    }

    /// The sum once the value that a counted push overwrites has left it,
    /// which it does when the ring has wrapped.
    pub open spec fn reduced(self) -> T {
        if self.wrapped() {
            self.sum.sub_spec(self.slots[self.next as int])
        } else {
            self.sum
        }
    }

    /// The sum after a counted push of `val`: the value that gets
    /// overwritten has left it, and `val` has entered it.
    pub open spec fn sum_with(self, val: T) -> T {
        self.reduced().add_spec(val)
    }

    /// This ring after a counted push of `val`.
    pub open spec fn pushed(self, val: T) -> Ring<T> {
        Ring {
            slots: self.slots.update(self.next as int, val),
            next: self.following(),
            pushes: self.pushes + 1,
            sum: self.sum_with(val),
        }
    }
}

/// The total of the slots, each counted as the number that `value` gives
/// it.
pub open spec fn slots_total<T>(slots: Seq<T>, value: spec_fn(T) -> int) -> int
    decreases slots.len(),
{
    if slots.len() == 0 {
        0
    } else {
        slots_total(slots.drop_last(), value) + value(slots.last())
    }
}

impl<T> Ring<T> {
    /// The sum is the total of the slots; and until the ring wraps, the
    /// slots are written in turn from the first, and those not written yet
    /// count as nothing.
    pub open spec fn steady(self, value: spec_fn(T) -> int) -> bool {
        &&& value(self.sum) == slots_total(self.slots, value)
        &&& !self.wrapped() ==> self.next == self.pushes
        &&& !self.wrapped() ==> forall|k: int|
            self.pushes <= k < self.capacity() ==> value(#[trigger] self.slots[k]) == 0
    }
}

/// Slots that all count as nothing have a total of nothing.
pub proof fn lemma_total_of_nothing<T>(slots: Seq<T>, value: spec_fn(T) -> int)
    requires
        forall|k: int| 0 <= k < slots.len() ==> value(#[trigger] slots[k]) == 0,
    ensures
        slots_total(slots, value) == 0,
    decreases slots.len(),
{
    if slots.len() > 0 {
        lemma_total_of_nothing(slots.drop_last(), value);
    }
}

/// Writing a slot takes what it held out of the total and puts the new value
/// in.
pub proof fn lemma_total_after_update<T>(slots: Seq<T>, value: spec_fn(T) -> int, k: int, val: T)
    requires
        0 <= k < slots.len(),
    ensures
        slots_total(slots.update(k, val), value) == slots_total(slots, value) - value(slots[k])
            + value(val),
    decreases slots.len(),
{
    let after = slots.update(k, val);
    if k == slots.len() - 1 {
        assert(after.drop_last() =~= slots.drop_last());
    } else {
        assert(after.drop_last() =~= slots.drop_last().update(k, val));
        lemma_total_after_update(slots.drop_last(), value, k, val);
    }
}

/// A ring with nothing pushed, whose slots and sum count as nothing, is
/// steady.
pub proof fn lemma_fresh_ring_is_steady<T>(ring: Ring<T>, value: spec_fn(T) -> int)
    requires
        ring.next == 0,
        ring.pushes == 0,
        value(ring.sum) == 0,
        forall|k: int| 0 <= k < ring.capacity() ==> value(#[trigger] ring.slots[k]) == 0,
    ensures
        ring.steady(value),
{
    lemma_total_of_nothing(ring.slots, value);
}

/// Counted pushes keep a ring steady, so that its sum stays the total of
/// its slots, as long as the subtraction and the addition that a push makes
/// are those of the numbers that `value` gives.
pub proof fn lemma_push_keeps_steady<T: Add<Output = T> + Sub<Output = T>>(
    ring: Ring<T>,
    val: T,
    value: spec_fn(T) -> int,
)
    requires
        ring.well_formed(),
        ring.capacity() > 0,
        ring.steady(value),
        ring.wrapped() ==> value(ring.reduced()) == value(ring.sum) - value(
            ring.slots[ring.next as int],
        ),
        value(ring.sum_with(val)) == value(ring.reduced()) + value(val),
    ensures
        ring.pushed(val).well_formed(),
        ring.pushed(val).steady(value),
{
    let after = ring.pushed(val);
    lemma_total_after_update(ring.slots, value, ring.next as int, val);
    if !ring.wrapped() {
        assert(value(ring.slots[ring.next as int]) == 0);
    }
    if !after.wrapped() {
        assert forall|k: int| after.pushes <= k < after.capacity() implies value(
            #[trigger] after.slots[k],
        ) == 0 by {
            assert(after.slots[k] == ring.slots[k]);
        }
    }
}

/// A value that was just stored is the newest one.
pub proof fn lemma_stored_is_newest<T>(ring: Ring<T>, val: T)
    requires
        ring.well_formed(),
        ring.capacity() > 0,
    ensures
        ring.stored(val).well_formed(),
        ring.stored(val).place(0) == ring.next,
        ring.stored(val).recent(0) == val,
{
    let after = ring.stored(val);
    let capacity = ring.capacity() as int;
    if ring.next + 1 >= capacity {
        assert((capacity - 1) % capacity == capacity - 1) by (nonlinear_arith)
            requires
                capacity > 0,
        ;
    } else {
        assert((ring.next + capacity) % capacity == ring.next) by (nonlinear_arith)
            requires
                0 <= ring.next < capacity,
        ;
    }
}

/// Every place is one of the slots.
pub proof fn lemma_place_in_range<T>(ring: Ring<T>, ind: int)
    requires
        ring.capacity() > 0,
        ind >= 0,
    ensures
        0 <= ring.place(ind) < ring.capacity(),
{
    let capacity = ring.capacity() as int;
    let x = ring.next + capacity - 1 + ind;
    assert(0 <= x % capacity < capacity) by (nonlinear_arith)
        requires
            capacity > 0,
            x >= 0,
    ;
}

/// A buffer over a fixed number of slots. Values go to the slots in turn,
/// each new one over the oldest once all slots were written, and the sum
/// follows the counted pushes. Its view is the `Ring` of its slots, which is
/// well-formed at all times.
pub struct Buffer<T> {
    vals: Vec<T>,
    len: usize,
    pushes: usize,
    index: usize,
    sum: T,
}

impl<T> Buffer<T> {
    #[verifier::type_invariant]
    spec fn slots_hold(self) -> bool {
        &&& self.vals@.len() == self.len
        &&& self.len == 0 ==> self.index == 0
        &&& self.len > 0 ==> self.index < self.len
    }
}

impl<T> View for Buffer<T> {
    type V = Ring<T>;

    closed spec fn view(&self) -> Ring<T> {
        Ring {
            slots: self.vals@,
            next: self.index as nat,
            pushes: self.pushes as nat,
            sum: self.sum,
        }
    }
}

impl<T> Buffer<T> where T: Default + Copy + Add<Output = T> + Sub<Output = T> {
    /// A buffer of `len` slots, each holding one default value of `T`, with
    /// nothing pushed yet and a default value for its sum.
    pub fn new(len: usize) -> (buffer: Self)
        ensures
            buffer@.well_formed(),
            buffer@.capacity() == len,
            buffer@.next == 0,
            buffer@.pushes == 0,
            is_default(buffer@.sum),
            exists|value: T| #[trigger]
                is_default(value) && buffer@.slots == Seq::new(len as nat, |k: int| value),
    {
        let value = T::default();
        let mut vals: Vec<T> = Vec::with_capacity(len);
        let mut filled: usize = 0;
        while filled < len
            invariant
                filled <= len,
                vals@.len() == filled,
                is_default(value),
                forall|k: int| 0 <= k < filled ==> vals@[k] == value,
            decreases len - filled,
        {
            vals.push(value);
            filled += 1;
        }
        let buffer = Buffer { vals, len, pushes: 0, index: 0, sum: T::default() };
        proof {
            assert(buffer@.slots =~= Seq::new(len as nat, |k: int| value));
            assert(is_default(value) && buffer@.slots == Seq::new(len as nat, |k: int| value));
        }
        buffer
    }

    /// Writes `val` to the next slot and counts it: once the buffer has
    /// wrapped, the value that it overwrites is first taken out of the sum,
    /// then `val` is added to it. The buffer needs a slot, the count room
    /// for one more, and `T` has to allow the arithmetic.
    pub fn push(&mut self, val: T)
        requires
            old(self)@.capacity() > 0,
            old(self)@.pushes < usize::MAX,
            old(self)@.admits(val),
        ensures
            final(self)@.well_formed(),
            final(self)@.slots == old(self)@.slots.update(old(self)@.next as int, val),
            final(self)@.next == old(self)@.following(),
            final(self)@.pushes == old(self)@.pushes + 1,
            T::obeys_add_spec() && T::obeys_sub_spec() ==> final(self)@ == old(self)@.pushed(val),
            old(self)@.sums_to(val, final(self)@.sum),
    {
        proof {
            use_type_invariant(&*self);
        }
        if self.pushes >= self.len {
            self.sum = self.sum - self.vals[self.index];
        }
        self.sum = self.sum + val;
        self.vals[self.index] = val;
        self.pushes += 1;
        self.index = if self.index + 1 >= self.len {
            0
        } else {
            self.index + 1
        };
    }

    /// Writes `val` to the next slot without counting it: the sum and the
    /// number of pushes stay as they are. The buffer needs a slot.
    pub fn qpush(&mut self, val: T)
        requires
            old(self)@.capacity() > 0,
        ensures
            final(self)@.well_formed(),
            final(self)@ == old(self)@.stored(val),
    {
        proof {
            use_type_invariant(&*self);
        }
        self.vals[self.index] = val;
        self.index = if self.index + 1 >= self.len {
            0
        } else {
            self.index + 1
        };
    }

    /// The value `ind` slots after the one written last, going round at the
    /// end: the newest value for 0, then the oldest, then the ones after it.
    /// The buffer needs a slot, and the sums that lead to `next + capacity -
    /// 1 + ind` have to fit in `usize`.
    pub fn get_value(&self, ind: usize) -> (value: T)
        requires
            self@.capacity() > 0,
            self@.next + self@.capacity() <= usize::MAX,
            self@.next + self@.capacity() - 1 + ind <= usize::MAX,
        ensures
            self@.well_formed(),
            0 <= self@.place(ind as int) < self@.capacity(),
            value == self@.recent(ind as int),
    {
        proof {
            use_type_invariant(self);
            lemma_place_in_range(self@, ind as int);
        }
        self.vals[(self.index + self.len - 1 + ind) % self.len]
    }

    /// The running sum.
    pub fn get_sum(&self) -> (sum: T)
        ensures
            self@.well_formed(),
            sum == self@.sum,
    {
        proof {
            use_type_invariant(self);
        }
        self.sum
    }
}

} // verus!

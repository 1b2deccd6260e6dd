//! The mathematical model of the table: the slot array as a sequence of
//! optional values, and what insertion, growth, lookup and removal make of it.

use crate::equality::eq_yields;
use crate::hashable::{home_slot, Hashable};
use vstd::prelude::*;

verus! {

/// By how much the capacity is multiplied when a full, growable table grows.
pub const GROWTH_FACTOR: usize = 2;

/// A slot array of `capacity` empty slots.
pub open spec fn empty_slots<T>(capacity: nat) -> Seq<Option<T>> {
    Seq::new(capacity, |i: int| None::<T>)
}

/// The number of occupied slots.
pub open spec fn occupied<T>(slots: Seq<Option<T>>) -> nat
    decreases slots.len(),
{
    if slots.len() == 0 {
        0
    } else {
        occupied(slots.drop_last()) + if slots.last() is Some {
            1nat
        } else {
            0nat
        }
    }
}

/// Every slot is occupied.
pub open spec fn is_full<T>(slots: Seq<Option<T>>) -> bool {
    occupied(slots) == slots.len()
}

/// The slot that a probe starting at `home` visits at its `step`-th step:
/// linear probing with wrap-around.
pub open spec fn probe_index(home: int, step: int, capacity: int) -> int {
    (home + step) % capacity
}

/// The slot that follows `index`, wrapping at the end of the array.
pub open spec fn next_slot(index: int, capacity: int) -> int {
    if index + 1 == capacity {
        0
    } else {
        index + 1
    }
}

/// A probe starting at `home` meets its first empty slot at step `step`.
pub open spec fn first_empty<T>(slots: Seq<Option<T>>, home: int, step: int) -> bool {
    &&& 0 <= step < slots.len()
    &&& slots[probe_index(home, step, slots.len() as int)] is None
    &&& forall|j: int|
        0 <= j < step ==> slots[#[trigger] probe_index(home, j, slots.len() as int)] is Some
}

/// The slot array after `value` was placed in the first empty slot that a
/// probe starting at `home` meets. A full array is left as it is.
pub open spec fn placed<T>(slots: Seq<Option<T>>, home: int, value: T) -> Seq<Option<T>> {
    if exists|step: int| first_empty(slots, home, step) {
        let step = choose|step: int| first_empty(slots, home, step);
        slots.update(probe_index(home, step, slots.len() as int), Some(value))
    } else {
        slots
    }
}

/// The array of `capacity` slots that results from placing the occupants of
/// the first `count` slots of `old_slots`, in slot order, each from its home
/// slot under the new capacity.
pub open spec fn rehashed<T: Hashable>(old_slots: Seq<Option<T>>, count: nat, capacity: nat) -> Seq<
    Option<T>,
>
    decreases count,
{
    if count == 0 {
        empty_slots(capacity)
    } else {
        let before = rehashed(old_slots, (count - 1) as nat, capacity);
        match old_slots[count - 1] {
            Some(value) => placed(before, home_slot(value.hash_spec(), capacity as int), value),
            None => before,
        }
    }
}

/// The slot array after growth: `GROWTH_FACTOR` times as many slots, every
/// occupant placed anew.
pub open spec fn grown<T: Hashable>(slots: Seq<Option<T>>) -> Seq<Option<T>> {
    rehashed(slots, slots.len(), GROWTH_FACTOR as nat * slots.len())
}

/// An insertion into this slot array succeeds.
pub open spec fn accepts<T>(slots: Seq<Option<T>>, growable: bool) -> bool {
    growable || !is_full(slots)
}

/// The slot array in which an insertion places its value: the array itself, or
/// the grown one where the array is full and may grow.
pub open spec fn placing_ground<T: Hashable>(slots: Seq<Option<T>>, growable: bool) -> Seq<
    Option<T>,
> {
    if is_full(slots) && growable {
        grown(slots)
    } else {
        slots
    }
}

/// The slot array after an insertion of `value`.
///
/// A full table grows first if it may, and is left unchanged if it may not.
/// The probe starts at the home slot that `value` has under the capacity with
/// which the insertion begins, also where the table grows.
pub open spec fn inserted<T: Hashable>(slots: Seq<Option<T>>, growable: bool, value: T) -> Seq<
    Option<T>,
> {
    if accepts(slots, growable) {
        placed(
            placing_ground(slots, growable),
            home_slot(value.hash_spec(), slots.len() as int),
            value,
        )
    } else {
        slots
    }
}

/// The slot array after the insertion of each of `values` in turn.
pub open spec fn inserted_all<T: Hashable>(
    slots: Seq<Option<T>>,
    growable: bool,
    values: Seq<T>,
) -> Seq<Option<T>>
    decreases values.len(),
{
    if values.len() == 0 {
        slots
    } else {
        inserted(inserted_all(slots, growable, values.drop_last()), growable, values.last())
    }
}

/// The capacity of a growable table that had `capacity` slots, `size` of them
/// occupied, after `count` insertions.
pub open spec fn capacity_after(capacity: nat, size: nat, count: nat) -> nat
    decreases count,
{
    if count == 0 {
        capacity
    } else {
        let before = capacity_after(capacity, size, (count - 1) as nat);
        if size + count - 1 == before {
            GROWTH_FACTOR as nat * before
        } else {
            before
        }
    }
}

/// Some slot holds `value` itself.
pub open spec fn holds<T>(slots: Seq<Option<T>>, value: T) -> bool {
    exists|i: int| 0 <= i < slots.len() && #[trigger] slots[i] == Some(value)
}

/// `copies` are clones of the first values of `values`, one for one and in order.
pub open spec fn clones_of_prefix<T: Clone>(values: Seq<T>, copies: Seq<T>) -> bool {
    &&& copies.len() <= values.len()
    &&& forall|i: int| 0 <= i < copies.len() ==> cloned(values[i], #[trigger] copies[i])
}

/// The slot holds a value that `==` may find equal to `value`. In what a lookup
/// or a removal ensures, it is the slot for which `==` yielded `true`.
pub open spec fn hit<T: PartialEq>(slot: Option<T>, value: T) -> bool {
    slot matches Some(held) && eq_yields(held, value, true)
}

/// The slot is empty, or holds a value that `==` may find unequal to `value`.
/// In what a lookup or a removal ensures, it is a slot that the probe passed.
pub open spec fn miss<T: PartialEq>(slot: Option<T>, value: T) -> bool {
    slot matches Some(held) ==> eq_yields(held, value, false)
}

/// The slot that a probe for `value` visits at its `step`-th step. The probe
/// starts at the home slot of `value`.
pub open spec fn probed_slot<T: Hashable>(slots: Seq<Option<T>>, value: T, step: int) -> int {
    probe_index(home_slot(value.hash_spec(), slots.len() as int), step, slots.len() as int)
}

/// A probe for `value` has its first hit at step `step`.
pub open spec fn first_hit<T: Hashable + PartialEq>(
    slots: Seq<Option<T>>,
    value: T,
    step: int,
) -> bool {
    &&& 0 <= step < slots.len()
    &&& hit(slots[probed_slot(slots, value, step)], value)
    &&& forall|j: int| 0 <= j < step ==> miss(slots[#[trigger] probed_slot(slots, value, j)], value)
}

/// Every slot is empty or holds a value that `==` may find unequal to `value`.
pub open spec fn no_hit<T: PartialEq>(slots: Seq<Option<T>>, value: T) -> bool {
    forall|i: int| 0 <= i < slots.len() ==> miss(#[trigger] slots[i], value)
}

/// `found` is what a lookup of `value` may yield: the occupant of the first
/// slot, in probing order from the home slot of `value`, that `==` finds equal
/// to `value`, and nothing where a full cycle meets no such slot. Empty slots
/// do not end the probe.
pub open spec fn looked_up<T: Hashable + PartialEq>(
    slots: Seq<Option<T>>,
    value: T,
    found: Option<T>,
) -> bool {
    match found {
        Some(held) => exists|step: int|
            first_hit(slots, value, step) && slots[#[trigger] probed_slot(slots, value, step)]
                == Some(held),
        None => no_hit(slots, value),
    }
}

/// A removal of `value` from `slots` may leave `after` and yield `removed`: the
/// slot that a lookup finds is emptied and its occupant handed out, and no
/// other slot changes; where a lookup finds nothing, nothing changes.
pub open spec fn taken_out<T: Hashable + PartialEq>(
    slots: Seq<Option<T>>,
    value: T,
    after: Seq<Option<T>>,
    removed: Option<T>,
) -> bool {
    match removed {
        Some(held) => exists|step: int|
            {
                let index = #[trigger] probed_slot(slots, value, step);
                &&& first_hit(slots, value, step)
                &&& slots[index] == Some(held)
                &&& after == slots.update(index, None)
            },
        None => no_hit(slots, value) && after == slots,
    }
}

} // verus!

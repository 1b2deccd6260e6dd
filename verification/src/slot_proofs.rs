//! Lemmas on the model of the slot array.

use crate::hashable::{home_slot, Hashable};
use crate::slots::{
    accepts, capacity_after, empty_slots, first_empty, first_hit, grown, hit, holds, inserted,
    is_full, next_slot, occupied, placed, placing_ground, probe_index, probed_slot, rehashed,
    GROWTH_FACTOR,
};
use vstd::arithmetic::div_mod::lemma_mod_bound;
use vstd::prelude::*;

verus! {

/// A home slot is a slot of the array.
pub proof fn lemma_home_slot(hash: usize, capacity: int)
    requires
        capacity > 0,
    ensures
        0 <= home_slot(hash, capacity) < capacity,
{
    lemma_mod_bound(hash as int, capacity);
}

/// Within one cycle, probing is addition with a single wrap, and stays in the array.
pub proof fn lemma_probe_index(home: int, step: int, capacity: int)
    requires
        0 <= home < capacity,
        0 <= step <= capacity,
    ensures
        probe_index(home, step, capacity) == (if home + step < capacity {
            home + step
        } else {
            home + step - capacity
        }),
        0 <= probe_index(home, step, capacity) < capacity,
{
    if home + step < capacity {
        assert((home + step) % capacity == home + step) by (nonlinear_arith)
            requires
                0 <= home + step < capacity,
        ;
    } else {
        assert((home + step) % capacity == home + step - capacity) by (nonlinear_arith)
            requires
                capacity <= home + step < 2 * capacity,
        ;
    }
}

/// Each step of a probe moves to the slot that follows, wrapping at the end.
pub proof fn lemma_probe_step(home: int, step: int, capacity: int)
    requires
        0 <= home < capacity,
        0 <= step < capacity,
    ensures
        probe_index(home, step + 1, capacity) == next_slot(
            probe_index(home, step, capacity),
            capacity,
        ),
        probe_index(home, 0, capacity) == home,
        probe_index(home, capacity, capacity) == home,
        step > 0 ==> probe_index(home, step, capacity) != home,
{
    lemma_probe_index(home, step, capacity);
    lemma_probe_index(home, step + 1, capacity);
    lemma_probe_index(home, 0, capacity);
    lemma_probe_index(home, capacity, capacity);
}

/// A probe reaches every slot within one cycle: the step at which a probe
/// from `home` visits `index`.
pub proof fn lemma_probe_reaches(home: int, index: int, capacity: int) -> (step: int)
    requires
        0 <= home < capacity,
        0 <= index < capacity,
    ensures
        0 <= step < capacity,
        probe_index(home, step, capacity) == index,
{
    let step = if index >= home {
        index - home
    } else {
        index - home + capacity
    };
    lemma_probe_index(home, step, capacity);
    step
}

/// The number of occupied slots never exceeds the number of slots.
pub proof fn lemma_occupied_bound<T>(slots: Seq<Option<T>>)
    ensures
        occupied(slots) <= slots.len(),
    decreases slots.len(),
{
    if slots.len() > 0 {
        lemma_occupied_bound(slots.drop_last());
    }
}

/// An array of empty slots has no occupant.
pub proof fn lemma_occupied_empty<T>(capacity: nat)
    ensures
        occupied(empty_slots::<T>(capacity)) == 0,
    decreases capacity,
{
    if capacity > 0 {
        assert(empty_slots::<T>(capacity).drop_last() =~= empty_slots::<T>((capacity - 1) as nat));
        lemma_occupied_empty::<T>((capacity - 1) as nat);
    }
}

/// Writing one slot changes the count by what left and what came.
pub proof fn lemma_occupied_update<T>(slots: Seq<Option<T>>, index: int, slot: Option<T>)
    requires
        0 <= index < slots.len(),
    ensures
        occupied(slots.update(index, slot)) + (if slots[index] is Some {
            1nat
        } else {
            0nat
        }) == occupied(slots) + (if slot is Some {
            1nat
        } else {
            0nat
        }),
    decreases slots.len(),
{
    let updated = slots.update(index, slot);
    if index == slots.len() - 1 {
        assert(updated.drop_last() =~= slots.drop_last());
    } else {
        assert(updated.drop_last() =~= slots.drop_last().update(index, slot));
        lemma_occupied_update(slots.drop_last(), index, slot);
    }
}

/// The count over a prefix grows by one for each occupied slot taken in.
pub proof fn lemma_occupied_take<T>(slots: Seq<Option<T>>, count: int)
    requires
        0 <= count < slots.len(),
    ensures
        occupied(slots.take(count + 1)) == occupied(slots.take(count)) + (if slots[count] is Some {
            1nat
        } else {
            0nat
        }),
        occupied(slots.take(0)) == 0,
        occupied(slots.take(slots.len() as int)) == occupied(slots),
{
    assert(slots.take(count + 1).drop_last() =~= slots.take(count));
    assert(slots.take(slots.len() as int) =~= slots);
}

/// The slot of the first hit of a probe, and that it holds what was hit.
pub proof fn lemma_first_hit_slot<T: Hashable + PartialEq>(
    slots: Seq<Option<T>>,
    value: T,
    step: int,
) -> (index: int)
    requires
        first_hit(slots, value, step),
    ensures
        index == probed_slot(slots, value, step),
        0 <= index < slots.len(),
        hit(slots[index], value),
{
    let capacity = slots.len() as int;
    lemma_home_slot(value.hash_spec(), capacity);
    lemma_probe_index(home_slot(value.hash_spec(), capacity), step, capacity);
    probed_slot(slots, value, step)
}

/// A slot array that is not full has an empty slot.
pub proof fn lemma_not_full_has_empty<T>(slots: Seq<Option<T>>) -> (index: int)
    requires
        !is_full(slots),
    ensures
        0 <= index < slots.len(),
        slots[index] is None,
    decreases slots.len(),
{
    lemma_occupied_bound(slots);
    if slots.last() is None {
        slots.len() - 1
    } else {
        lemma_occupied_bound(slots.drop_last());
        lemma_not_full_has_empty(slots.drop_last())
    }
}

/// A probe has at most one first empty slot.
pub proof fn lemma_first_empty_unique<T>(slots: Seq<Option<T>>, home: int, a: int, b: int)
    requires
        first_empty(slots, home, a),
        first_empty(slots, home, b),
    ensures
        a == b,
{
    let capacity = slots.len() as int;
    if a < b {
        assert(slots[probe_index(home, a, capacity)] is Some);
    }
    if b < a {
        assert(slots[probe_index(home, b, capacity)] is Some);
    }
}

/// The first empty slot of a probe that has passed `from` occupied slots and
/// will meet an empty one at `bound`.
proof fn lemma_scan_for_empty<T>(
    slots: Seq<Option<T>>,
    home: int,
    from: int,
    bound: int,
) -> (step: int)
    requires
        0 <= from <= bound < slots.len(),
        slots[probe_index(home, bound, slots.len() as int)] is None,
        forall|j: int|
            0 <= j < from ==> slots[#[trigger] probe_index(home, j, slots.len() as int)] is Some,
    ensures
        first_empty(slots, home, step),
    decreases bound - from,
{
    if slots[probe_index(home, from, slots.len() as int)] is None {
        from
    } else {
        lemma_scan_for_empty(slots, home, from + 1, bound)
    }
}

/// In a slot array that is not full, a probe from any slot meets an empty one.
pub proof fn lemma_has_first_empty<T>(slots: Seq<Option<T>>, home: int) -> (step: int)
    requires
        0 <= home < slots.len(),
        !is_full(slots),
    ensures
        first_empty(slots, home, step),
{
    let capacity = slots.len() as int;
    let index = lemma_not_full_has_empty(slots);
    let bound = lemma_probe_reaches(home, index, capacity);
    lemma_scan_for_empty(slots, home, 0, bound)
}

/// Placing fills the first empty slot of the probe, and no other slot changes.
pub proof fn lemma_placed<T>(slots: Seq<Option<T>>, home: int, value: T, step: int)
    requires
        0 <= home < slots.len(),
        first_empty(slots, home, step),
    ensures
        placed(slots, home, value) == slots.update(
            probe_index(home, step, slots.len() as int),
            Some(value),
        ),
        occupied(placed(slots, home, value)) == occupied(slots) + 1,
{
    let capacity = slots.len() as int;
    let chosen = choose|k: int| first_empty(slots, home, k);
    lemma_first_empty_unique(slots, home, chosen, step);
    lemma_probe_index(home, step, capacity);
    lemma_occupied_update(slots, probe_index(home, step, capacity), Some(value));
}

/// A growable table never shrinks: its capacity after more insertions is no smaller.
pub proof fn lemma_capacity_after_monotone(capacity: nat, size: nat, fewer: nat, more: nat)
    requires
        fewer <= more,
    ensures
        capacity_after(capacity, size, fewer) <= capacity_after(capacity, size, more),
    decreases more,
{
    if fewer < more {
        lemma_capacity_after_monotone(capacity, size, fewer, (more - 1) as nat);
    }
}

/// What rehashing yields: an array of the new capacity that holds every
/// occupant of the slots taken in, and as many occupants as they had.
pub proof fn lemma_rehashed<T: Hashable>(old_slots: Seq<Option<T>>, count: nat, capacity: nat)
    requires
        count <= old_slots.len() <= capacity,
    ensures
        rehashed(old_slots, count, capacity).len() == capacity,
        occupied(rehashed(old_slots, count, capacity)) == occupied(old_slots.take(count as int)),
        forall|j: int|
            0 <= j < count && (#[trigger] old_slots[j]) is Some ==> holds(
                rehashed(old_slots, count, capacity),
                old_slots[j]->0,
            ),
    decreases count,
{
    if count == 0 {
        lemma_occupied_empty::<T>(capacity);
        assert(old_slots.take(0).len() == 0);
    } else {
        let before = rehashed(old_slots, (count - 1) as nat, capacity);
        let after = rehashed(old_slots, count, capacity);
        lemma_rehashed(old_slots, (count - 1) as nat, capacity);
        lemma_occupied_take(old_slots, count - 1);
        lemma_occupied_bound(old_slots.take(count - 1));
        match old_slots[count - 1] {
            Some(value) => {
                let home = home_slot(value.hash_spec(), capacity as int);
                let step = lemma_has_first_empty(before, home);
                lemma_placed(before, home, value, step);
                lemma_probe_index(home, step, capacity as int);
                let index = probe_index(home, step, capacity as int);
                assert(after[index] == Some(value));
                assert forall|j: int|
                    0 <= j < count && (#[trigger] old_slots[j]) is Some implies holds(
                    after,
                    old_slots[j]->0,
                ) by {
                    if j < count - 1 {
                        let i = choose|i: int|
                            0 <= i < before.len() && #[trigger] before[i] == Some(old_slots[j]->0);
                        assert(after[i] == Some(old_slots[j]->0));
                    }
                }
            },
            None => {},
        }
    }
}

/// What growth yields: `GROWTH_FACTOR` times the slots, the same occupants.
pub proof fn lemma_grown<T: Hashable>(slots: Seq<Option<T>>)
    ensures
        grown(slots).len() == GROWTH_FACTOR * slots.len(),
        occupied(grown(slots)) == occupied(slots),
        forall|j: int|
            0 <= j < slots.len() && (#[trigger] slots[j]) is Some ==> holds(
                grown(slots),
                slots[j]->0,
            ),
{
    lemma_rehashed(slots, slots.len(), GROWTH_FACTOR as nat * slots.len());
    assert(slots.take(slots.len() as int) =~= slots);
}

/// Where an insertion that succeeds puts its value: in a slot of the placing
/// ground that was empty. Nothing else changes there.
pub proof fn lemma_inserted_at<T: Hashable>(
    slots: Seq<Option<T>>,
    growable: bool,
    value: T,
) -> (index: int)
    requires
        slots.len() > 0,
        accepts(slots, growable),
    ensures
        0 <= index < placing_ground(slots, growable).len(),
        placing_ground(slots, growable)[index] is None,
        inserted(slots, growable, value) == placing_ground(slots, growable).update(
            index,
            Some(value),
        ),
        occupied(inserted(slots, growable, value)) == occupied(slots) + 1,
        placing_ground(slots, growable).len() == (if is_full(slots) {
            GROWTH_FACTOR * slots.len()
        } else {
            slots.len() as int
        }),
{
    let ground = placing_ground(slots, growable);
    let home = home_slot(value.hash_spec(), slots.len() as int);
    lemma_grown(slots);
    lemma_occupied_bound(slots);
    let step = lemma_has_first_empty(ground, home);
    lemma_placed(ground, home, value, step);
    lemma_probe_index(home, step, ground.len() as int);
    probe_index(home, step, ground.len() as int)
}

/// An insertion moves no occupant out: what the array held, it holds afterwards,
/// whether the insertion succeeded, grew the table, or failed.
pub proof fn lemma_inserted_keeps<T: Hashable>(
    slots: Seq<Option<T>>,
    growable: bool,
    value: T,
    other: T,
)
    requires
        slots.len() > 0,
        holds(slots, other),
    ensures
        holds(inserted(slots, growable, value), other),
{
    if accepts(slots, growable) {
        let ground = placing_ground(slots, growable);
        lemma_grown(slots);
        assert(holds(ground, other));
        let at = choose|at: int| 0 <= at < ground.len() && #[trigger] ground[at] == Some(other);
        lemma_inserted_at(slots, growable, value);
        assert(inserted(slots, growable, value)[at] == Some(other));
    }
}

} // verus!

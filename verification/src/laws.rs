//! What holds of every table: laws that relate insertion, lookup and removal.

use crate::equality::{eq_decided, eq_yields};
use crate::hashable::Hashable;
use crate::slot_proofs::{
    lemma_first_hit_slot, lemma_grown, lemma_inserted_at, lemma_inserted_keeps,
    lemma_occupied_bound, lemma_occupied_empty, lemma_occupied_update,
};
use crate::slots::{
    accepts, capacity_after, empty_slots, first_hit, hit, holds, inserted, inserted_all,
    looked_up, miss, occupied, placing_ground, probed_slot, taken_out, GROWTH_FACTOR,
};
use vstd::prelude::*;

verus! {

/// A lookup finds what the table holds: where some slot holds a value that
/// cannot compare unequal to `value`, a lookup of `value` yields an occupant
/// that compared equal to it.
pub proof fn lemma_lookup_finds_held<T: Hashable + PartialEq>(
    slots: Seq<Option<T>>,
    value: T,
    found: Option<T>,
    index: int,
)
    requires
        looked_up(slots, value, found),
        0 <= index < slots.len(),
        slots[index] matches Some(held) && !eq_yields(held, value, false),
    ensures
        found matches Some(held) && eq_yields(held, value, true) && holds(slots, held),
{
    match found {
        Some(held) => {
            let step = choose|step: int|
                first_hit(slots, value, step) && slots[#[trigger] probed_slot(slots, value, step)]
                    == Some(held);
            let at = lemma_first_hit_slot(slots, value, step);
            assert(slots[at] == Some(held));
        },
        None => {
            assert(miss(slots[index], value));
        },
    }
}

/// A lookup finds nothing that the table does not hold: where no slot holds a
/// value that could compare equal to `value`, a lookup of `value` yields nothing.
pub proof fn lemma_lookup_finds_nothing_absent<T: Hashable + PartialEq>(
    slots: Seq<Option<T>>,
    value: T,
    found: Option<T>,
)
    requires
        looked_up(slots, value, found),
        forall|i: int| 0 <= i < slots.len() ==> !hit(#[trigger] slots[i], value),
    ensures
        found is None,
{
    if found is Some {
        let step = choose|step: int|
            first_hit(slots, value, step) && slots[#[trigger] probed_slot(slots, value, step)]
                == Some(found->0);
        lemma_first_hit_slot(slots, value, step);
    }
}

/// Wherever the element type's `==` leaves one outcome for each occupant, a
/// lookup has one result.
pub proof fn lemma_lookup_is_determined<T: Hashable + PartialEq>(
    slots: Seq<Option<T>>,
    value: T,
    one: Option<T>,
    other: Option<T>,
)
    requires
        looked_up(slots, value, one),
        looked_up(slots, value, other),
        forall|i: int|
            0 <= i < slots.len() && (#[trigger] slots[i]) is Some ==> eq_decided(
                slots[i]->0,
                value,
            ),
    ensures
        one == other,
{
    if one is Some {
        let step = choose|step: int|
            first_hit(slots, value, step) && slots[#[trigger] probed_slot(slots, value, step)]
                == Some(one->0);
        let at = lemma_first_hit_slot(slots, value, step);
        if other is Some {
            let other_step = choose|other_step: int|
                first_hit(slots, value, other_step) && slots[#[trigger] probed_slot(
                    slots,
                    value,
                    other_step,
                )] == Some(other->0);
            let other_at = lemma_first_hit_slot(slots, value, other_step);
            if step < other_step {
                assert(miss(slots[at], value));
            }
            if other_step < step {
                assert(miss(slots[other_at], value));
            }
        } else {
            assert(miss(slots[at], value));
        }
    } else if other is Some {
        let other_step = choose|other_step: int|
            first_hit(slots, value, other_step) && slots[#[trigger] probed_slot(
                slots,
                value,
                other_step,
            )] == Some(other->0);
        let other_at = lemma_first_hit_slot(slots, value, other_step);
        assert(miss(slots[other_at], value));
    }
}

/// Round trip: a lookup of a value, right after its insertion succeeded, yields
/// an occupant that compared equal to it. The value must be one that cannot
/// compare unequal to itself.
pub proof fn lemma_lookup_after_insert<T: Hashable + PartialEq>(
    slots: Seq<Option<T>>,
    growable: bool,
    value: T,
    found: Option<T>,
)
    requires
        slots.len() > 0,
        accepts(slots, growable),
        !eq_yields(value, value, false),
        looked_up(inserted(slots, growable, value), value, found),
    ensures
        found matches Some(held) && eq_yields(held, value, true),
{
    let index = lemma_inserted_at(slots, growable, value);
    lemma_lookup_finds_held(inserted(slots, growable, value), value, found, index);
}

/// What a run of insertions does to a table that accepts them all: each adds
/// one occupant, the array never shrinks, and at the end the table holds every
/// value inserted and whatever it held before.
pub proof fn lemma_inserted_all<T: Hashable>(slots: Seq<Option<T>>, growable: bool, values: Seq<T>)
    requires
        slots.len() > 0,
        growable || occupied(slots) + values.len() <= slots.len(),
    ensures
        occupied(inserted_all(slots, growable, values)) == occupied(slots) + values.len(),
        inserted_all(slots, growable, values).len() >= slots.len(),
        !growable ==> inserted_all(slots, growable, values).len() == slots.len(),
        forall|i: int|
            0 <= i < values.len() ==> holds(
                inserted_all(slots, growable, values),
                #[trigger] values[i],
            ),
        forall|other: T|
            holds(slots, other) ==> #[trigger] holds(inserted_all(slots, growable, values), other),
    decreases values.len(),
{
    if values.len() > 0 {
        let before = inserted_all(slots, growable, values.drop_last());
        let after = inserted_all(slots, growable, values);
        lemma_inserted_all(slots, growable, values.drop_last());
        let index = lemma_inserted_at(before, growable, values.last());
        assert(after[index] == Some(values.last()));
        assert forall|i: int| 0 <= i < values.len() implies holds(after, #[trigger] values[i]) by {
            if i < values.len() - 1 {
                assert(values.drop_last()[i] == values[i]);
                lemma_inserted_keeps(before, growable, values.last(), values[i]);
            }
        }
        assert forall|other: T| holds(slots, other) implies #[trigger] holds(after, other) by {
            lemma_inserted_keeps(before, growable, values.last(), other);
        }
    }
}

/// Size consistency: after `n` insertions into a new table that accepts them
/// all, `n` slots are occupied, whether or not the values differ.
pub proof fn lemma_size_after_inserts<T: Hashable>(capacity: nat, growable: bool, values: Seq<T>)
    requires
        capacity > 0,
        growable || values.len() <= capacity,
    ensures
        occupied(inserted_all(empty_slots::<T>(capacity), growable, values)) == values.len(),
{
    lemma_occupied_empty::<T>(capacity);
    lemma_inserted_all(empty_slots::<T>(capacity), growable, values);
}

/// Capacity ceiling: a new table of `capacity` slots that may not grow is full
/// after `capacity` insertions, and a further insertion is not accepted and
/// changes nothing.
pub proof fn lemma_capacity_ceiling<T: Hashable>(capacity: nat, values: Seq<T>, extra: T)
    requires
        capacity > 0,
        values.len() == capacity,
    ensures
        ({
            let full = inserted_all(empty_slots::<T>(capacity), false, values);
            &&& full.len() == capacity
            &&& occupied(full) == capacity
            &&& !accepts(full, false)
            &&& inserted(full, false, extra) == full
        }),
{
    lemma_occupied_empty::<T>(capacity);
    lemma_inserted_all(empty_slots::<T>(capacity), false, values);
}

/// Growth preserves membership: a growable table accepts any run of insertions,
/// and a lookup of any of the values afterwards yields an occupant that
/// compared equal to it, however often the table grew in between. The value
/// looked up must be one that cannot compare unequal to itself.
pub proof fn lemma_growth_preserves_membership<T: Hashable + PartialEq>(
    slots: Seq<Option<T>>,
    values: Seq<T>,
    which: int,
    found: Option<T>,
)
    requires
        slots.len() > 0,
        0 <= which < values.len(),
        !eq_yields(values[which], values[which], false),
        looked_up(inserted_all(slots, true, values), values[which], found),
    ensures
        occupied(inserted_all(slots, true, values)) == occupied(slots) + values.len(),
        holds(inserted_all(slots, true, values), values[which]),
        found matches Some(held) && eq_yields(held, values[which], true),
{
    let after = inserted_all(slots, true, values);
    lemma_inserted_all(slots, true, values);
    assert(holds(after, values[which]));
    let index = choose|i: int| 0 <= i < after.len() && #[trigger] after[i] == Some(values[which]);
    lemma_lookup_finds_held(after, values[which], found, index);
}

/// A growing table stays below twice what it holds: after any run of
/// insertions the capacity is the initial one, or less than `GROWTH_FACTOR`
/// times the number of occupants.
pub proof fn lemma_capacity_after_bound(capacity: nat, size: nat, count: nat)
    requires
        0 < capacity,
        size <= capacity,
    ensures
        size + count <= capacity_after(capacity, size, count),
        capacity_after(capacity, size, count) == capacity || capacity_after(capacity, size, count)
            < GROWTH_FACTOR * (size + count),
    decreases count,
{
    if count > 0 {
        lemma_capacity_after_bound(capacity, size, (count - 1) as nat);
    }
}

/// Collision placement: two values inserted one after the other occupy two
/// different slots, whatever their home slots are, and so also where these
/// coincide; and a lookup of either yields an occupant that compared equal to
/// it. Each must be a value that cannot compare unequal to itself.
pub proof fn lemma_two_inserts_take_two_slots<T: Hashable + PartialEq>(
    slots: Seq<Option<T>>,
    growable: bool,
    first: T,
    second: T,
    found_first: Option<T>,
    found_second: Option<T>,
)
    requires
        slots.len() > 0,
        growable || occupied(slots) + 2 <= slots.len(),
        !eq_yields(first, first, false),
        !eq_yields(second, second, false),
        looked_up(
            inserted(inserted(slots, growable, first), growable, second),
            first,
            found_first,
        ),
        looked_up(
            inserted(inserted(slots, growable, first), growable, second),
            second,
            found_second,
        ),
    ensures
        ({
            let after = inserted(inserted(slots, growable, first), growable, second);
            exists|i: int, j: int|
                0 <= i < after.len() && 0 <= j < after.len() && i != j && #[trigger] after[i]
                    == Some(first) && #[trigger] after[j] == Some(second)
        }),
        found_first matches Some(held) && eq_yields(held, first, true),
        found_second matches Some(held) && eq_yields(held, second, true),
{
    let between = inserted(slots, growable, first);
    let after = inserted(between, growable, second);
    lemma_occupied_bound(slots);
    let at_first = lemma_inserted_at(slots, growable, first);
    assert(between[at_first] == Some(first));
    let ground = placing_ground(between, growable);
    lemma_grown(between);
    assert(holds(ground, first));
    let i = choose|i: int| 0 <= i < ground.len() && #[trigger] ground[i] == Some(first);
    let j = lemma_inserted_at(between, growable, second);
    assert(after[i] == Some(first));
    assert(after[j] == Some(second));
    lemma_lookup_finds_held(after, first, found_first, i);
    lemma_lookup_finds_held(after, second, found_second, j);
}

/// Removal of a value that the table holds: where some slot holds a value that
/// cannot compare unequal to `value`, the removal hands out an occupant that
/// compared equal to it, and the table has exactly one occupant fewer.
pub proof fn lemma_remove_held<T: Hashable + PartialEq>(
    slots: Seq<Option<T>>,
    value: T,
    after: Seq<Option<T>>,
    removed: Option<T>,
    index: int,
)
    requires
        taken_out(slots, value, after, removed),
        0 <= index < slots.len(),
        slots[index] matches Some(held) && !eq_yields(held, value, false),
    ensures
        removed matches Some(held) && eq_yields(held, value, true) && holds(slots, held),
        after.len() == slots.len(),
        occupied(after) + 1 == occupied(slots),
{
    match removed {
        Some(held) => {
            let step = choose|step: int|
                {
                    let at = #[trigger] probed_slot(slots, value, step);
                    &&& first_hit(slots, value, step)
                    &&& slots[at] == Some(held)
                    &&& after == slots.update(at, None)
                };
            let at = lemma_first_hit_slot(slots, value, step);
            assert(slots[at] == Some(held));
            lemma_occupied_update(slots, at, None);
        },
        None => {
            assert(miss(slots[index], value));
        },
    }
}

/// Removal and re-lookup: where at most one slot holds a value that could
/// compare equal to `value`, a lookup of `value` after its removal finds
/// nothing. (Where two slots hold such values, the removal empties the first
/// and the lookup finds the second.)
pub proof fn lemma_lookup_after_remove<T: Hashable + PartialEq>(
    slots: Seq<Option<T>>,
    value: T,
    after: Seq<Option<T>>,
    removed: Option<T>,
    found: Option<T>,
)
    requires
        taken_out(slots, value, after, removed),
        removed is Some,
        looked_up(after, value, found),
        forall|i: int, j: int|
            0 <= i < slots.len() && 0 <= j < slots.len() && hit(#[trigger] slots[i], value) && hit(
                #[trigger] slots[j],
                value,
            ) ==> i == j,
    ensures
        found is None,
{
    let step = choose|step: int|
        {
            let at = #[trigger] probed_slot(slots, value, step);
            &&& first_hit(slots, value, step)
            &&& slots[at] == Some(removed->0)
            &&& after == slots.update(at, None)
        };
    let at = lemma_first_hit_slot(slots, value, step);
    if found is Some {
        let other_step = choose|other_step: int|
            first_hit(after, value, other_step) && after[#[trigger] probed_slot(
                after,
                value,
                other_step,
            )] == Some(found->0);
        let other = lemma_first_hit_slot(after, value, other_step);
        assert(after[other] == slots[other]);
        assert(hit(slots[other], value));
    }
}

/// Removal of a value that the table does not hold: where no slot holds a value
/// that could compare equal to `value`, the removal hands out nothing and
/// changes nothing.
pub proof fn lemma_remove_absent<T: Hashable + PartialEq>(
    slots: Seq<Option<T>>,
    value: T,
    after: Seq<Option<T>>,
    removed: Option<T>,
)
    requires
        taken_out(slots, value, after, removed),
        forall|i: int| 0 <= i < slots.len() ==> !hit(#[trigger] slots[i], value),
    ensures
        removed is None,
        after == slots,
        occupied(after) == occupied(slots),
{
    if removed is Some {
        let step = choose|step: int|
            {
                let at = #[trigger] probed_slot(slots, value, step);
                &&& first_hit(slots, value, step)
                &&& slots[at] == Some(removed->0)
                &&& after == slots.update(at, None)
            };
        lemma_first_hit_slot(slots, value, step);
    }
}

/// Wherever the element type's `==` leaves one outcome for each occupant, a
/// removal has one result: what it hands out and what it leaves.
pub proof fn lemma_removal_is_determined<T: Hashable + PartialEq>(
    slots: Seq<Option<T>>,
    value: T,
    one_after: Seq<Option<T>>,
    one: Option<T>,
    other_after: Seq<Option<T>>,
    other: Option<T>,
)
    requires
        taken_out(slots, value, one_after, one),
        taken_out(slots, value, other_after, other),
        forall|i: int|
            0 <= i < slots.len() && (#[trigger] slots[i]) is Some ==> eq_decided(
                slots[i]->0,
                value,
            ),
    ensures
        one == other,
        one_after == other_after,
{
    if one is Some {
        let step = choose|step: int|
            {
                let at = #[trigger] probed_slot(slots, value, step);
                &&& first_hit(slots, value, step)
                &&& slots[at] == Some(one->0)
                &&& one_after == slots.update(at, None)
            };
        let at = lemma_first_hit_slot(slots, value, step);
        if other is Some {
            let other_step = choose|other_step: int|
                {
                    let at = #[trigger] probed_slot(slots, value, other_step);
                    &&& first_hit(slots, value, other_step)
                    &&& slots[at] == Some(other->0)
                    &&& other_after == slots.update(at, None)
                };
            let other_at = lemma_first_hit_slot(slots, value, other_step);
            if step < other_step {
                assert(miss(slots[at], value));
            }
            if other_step < step {
                assert(miss(slots[other_at], value));
            }
        } else {
            assert(miss(slots[at], value));
        }
    } else if other is Some {
        let other_step = choose|other_step: int|
            {
                let at = #[trigger] probed_slot(slots, value, other_step);
                &&& first_hit(slots, value, other_step)
                &&& slots[at] == Some(other->0)
                &&& other_after == slots.update(at, None)
            };
        let other_at = lemma_first_hit_slot(slots, value, other_step);
        assert(miss(slots[other_at], value));
    }
}

} // verus!

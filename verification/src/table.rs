//! The table itself.

use crate::hashable::{hash_function, home_slot, Hashable};
use crate::slot_proofs::{
    lemma_capacity_after_monotone, lemma_has_first_empty, lemma_occupied_bound,
    lemma_occupied_empty, lemma_occupied_take, lemma_occupied_update, lemma_placed,
    lemma_probe_index, lemma_probe_reaches, lemma_probe_step,
};
use crate::slots::{
    capacity_after, clones_of_prefix, empty_slots, first_empty, first_hit, grown, inserted,
    inserted_all, is_full, looked_up, miss, next_slot, occupied, placed, probe_index,
    probed_slot, rehashed, taken_out, GROWTH_FACTOR,
};
use std::fmt::Debug;
use vstd::prelude::*;

verus! {

/// The error of an insertion into a table that is full and may not grow: the
/// capacity is exceeded. The table is unchanged, and the caller may remove
/// something and try again.
pub const CAPACITY_EXCEEDED: &'static str = "Capacity reached";

/// A hash table with open addressing and linear probing.
///
/// Its view is the slot array: one entry per slot, in slot order, `None` for an
/// empty slot. The capacity is the length of that array.
#[derive(Debug)]
pub struct HashTable<T> where T: Debug + Hashable + Clone + PartialEq {
    capacity: usize,
    growable: bool,
    cells: Vec<Option<T>>,
}

impl<T> View for HashTable<T> where T: Debug + Hashable + Clone + PartialEq {
    type V = Seq<Option<T>>;

    closed spec fn view(&self) -> Seq<Option<T>> {
        self.cells@
    }
}

impl<T> HashTable<T> where T: Debug + Hashable + Clone + PartialEq {
    /// The table is well formed: it has as many slots as its capacity says, and at least one.
    pub closed spec fn wf(&self) -> bool {
        &&& self.capacity == self.cells@.len()
        &&& self.capacity > 0
    }

    /// Whether the table grows when an insertion finds it full.
    pub closed spec fn is_growable(&self) -> bool {
        self.growable
    }

    /// A well-formed table has at least one slot, and no more occupants than slots.
    pub proof fn lemma_wf(&self)
        requires
            self.wf(),
        ensures
            0 < self@.len() <= usize::MAX,
            occupied(self@) <= self@.len(),
    {
        lemma_occupied_bound(self@);
    }

    /// Creates a table of `capacity` empty slots.
    pub fn new(capacity: usize, growable: bool) -> (table: Self)
        requires
            capacity > 0,
        ensures
            table.wf(),
            table@ == empty_slots::<T>(capacity as nat),
            table.is_growable() == growable,
    {
        let cells: Vec<Option<T>> = vec![None; capacity];
        assert(cells@ =~= empty_slots::<T>(capacity as nat));
        Self { capacity, growable, cells }
    }

    /// The number of slots.
    pub fn capacity(&self) -> (capacity: usize)
        requires
            self.wf(),
        ensures
            capacity == self@.len(),
            capacity > 0,
    {
        self.capacity
    }

    /// Whether no slot is occupied.
    pub fn is_empty(&self) -> (empty: bool)
        requires
            self.wf(),
        ensures
            empty == (occupied(self@) == 0),
    {
        self.size() == 0
    }

    /// The content of the slot at `index`.
    pub fn get_index(&self, index: usize) -> (content: Option<&T>)
        requires
            self.wf(),
            index < self@.len(),
        ensures
            content == (match self@[index as int] {
                Some(held) => Some(&held),
                None => None,
            }),
    {
        match &self.cells[index] {
            Some(s) => Some(s),
            None => None,
        }
    }

    /// The number of occupied slots, counted by a scan of the slot array.
    pub fn size(&self) -> (size: usize)
        requires
            self.wf(),
        ensures
            size == occupied(self@),
    {
        let mut count: usize = 0;
        let mut index: usize = 0;
        proof {
            lemma_occupied_take(self@, 0);
        }
        while index < self.capacity
            invariant
                self.wf(),
                index <= self.capacity,
                count == occupied(self@.take(index as int)),
                count <= index,
            decreases self.capacity - index,
        {
            proof {
                lemma_occupied_take(self@, index as int);
            }
            if self.cells[index].is_some() {
                count = count + 1;
            }
            index = index + 1;
        }
        proof {
            lemma_occupied_take(self@, 0);
        }
        count
    }

    /// Inserts `input`: into its home slot if that is empty, else into the first
    /// empty slot that linear probing meets from there. A full table grows first
    /// if it is growable; if it is not, the insertion fails and nothing changes.
    /// The home slot is the one that `input` has under the capacity with which
    /// the insertion begins.
    ///
    /// Values already held are not compared with `input`: a second insertion of
    /// an equal value occupies a second slot.
    ///
    /// Growth needs `GROWTH_FACTOR` times the capacity to be a `usize`.
    pub fn insert(&mut self, input: T) -> (result: Result<(), &str>)
        requires
            old(self).wf(),
            old(self).is_growable() && is_full(old(self)@) ==> GROWTH_FACTOR * old(self)@.len()
                <= usize::MAX,
        ensures
            final(self).wf(),
            final(self).is_growable() == old(self).is_growable(),
            final(self)@ == inserted(old(self)@, old(self).is_growable(), input),
            result is Err <==> is_full(old(self)@) && !old(self).is_growable(),
            result is Err ==> result == Err::<(), &str>(CAPACITY_EXCEEDED) && final(self)@ == old(
                self,
            )@,
            result is Ok ==> occupied(final(self)@) == occupied(old(self)@) + 1,
            result is Ok && !is_full(old(self)@) ==> (exists|index: int|
                0 <= index < old(self)@.len() && old(self)@[index] is None && final(self)@
                    == #[trigger] old(self)@.update(index, Some(input))),
            result is Ok ==> final(self)@.len() == (if is_full(old(self)@) {
                GROWTH_FACTOR * old(self)@.len()
            } else {
                old(self)@.len() as int
            }),
    {
        let input_hash: usize = hash_function(&input, self.capacity);
        if self.size() == self.capacity {
            if self.growable {
                self.grow_cells();
            } else {
                return Err(CAPACITY_EXCEEDED);
            }
        }
        proof {
            lemma_occupied_bound(self@);
            let step = lemma_has_first_empty(self@, input_hash as int);
            lemma_placed(self@, input_hash as int, input, step);
            lemma_probe_index(input_hash as int, step, self@.len() as int);
        }
        self.place(input, input_hash);
        Ok(())
    }

    /// Looks `input` up: probes from its home slot, past empty slots too, and
    /// yields the first occupant that compares equal to it. `None` is known only
    /// after a full cycle, so a lookup of a value that the table does not hold
    /// visits every slot.
    pub fn get(&self, input: &T) -> (found: Option<&T>)
        requires
            self.wf(),
        ensures
            looked_up(
                self@,
                *input,
                match found {
                    Some(held) => Some(*held),
                    None => None,
                },
            ),
    {
        let hash_index: usize = hash_function(input, self.capacity);
        proof {
            lemma_probe_step(hash_index as int, 0, self@.len() as int);
        }
        match &self.cells[hash_index] {
            Some(s) => {
                if *s == *input {
                    proof {
                        assert(first_hit(self@, *input, 0));
                        assert(self@[probed_slot(self@, *input, 0)] == Some(*s));
                    }
                    Some(s)
                } else {
                    self.get_next(input, hash_index)
                }
            },
            None => self.get_next(input, hash_index),
        }
    }

    /// Removes the first occupant, in probing order from the home slot of
    /// `input`, that compares equal to `input`, and hands it out. The slot
    /// becomes empty; no other occupant moves. Where a full cycle meets no
    /// such occupant, nothing changes.
    pub fn remove(&mut self, input: T) -> (removed: Option<T>)
        requires
            old(self).wf(),
        ensures
            final(self).wf(),
            final(self).is_growable() == old(self).is_growable(),
            taken_out(old(self)@, input, final(self)@, removed),
            final(self)@.len() == old(self)@.len(),
            occupied(final(self)@) + (if removed is Some {
                1nat
            } else {
                0nat
            }) == occupied(old(self)@),
    {
        let hash_index: usize = hash_function(&input, self.capacity);
        proof {
            lemma_probe_step(hash_index as int, 0, self@.len() as int);
        }
        let at_home = match &self.cells[hash_index] {
            Some(s) => *s == input,
            None => false,
        };
        if at_home {
            proof {
                assert(first_hit(self@, input, 0));
                lemma_occupied_update(self@, hash_index as int, None);
            }
            let mut cell: Option<T> = None;
            self.cells.set_and_swap(hash_index, &mut cell);
            proof {
                assert(old(self)@[probed_slot(old(self)@, input, 0)] == cell);
            }
            cell
        } else {
            self.remove_next(input, hash_index)
        }
    }

    /// Inserts a clone of each value of `my_vector`, in order, and stops at the
    /// first insertion that fails. What was inserted before that stays.
    ///
    /// A growable table needs the capacity that it ends with to be a `usize`.
    pub fn insert_vector(&mut self, my_vector: &[T]) -> (result: Result<(), &str>)
        requires
            old(self).wf(),
            old(self).is_growable() ==> capacity_after(
                old(self)@.len(),
                occupied(old(self)@),
                my_vector@.len(),
            ) <= usize::MAX,
        ensures
            final(self).wf(),
            final(self).is_growable() == old(self).is_growable(),
            result is Ok <==> old(self).is_growable() || occupied(old(self)@) + my_vector@.len()
                <= old(self)@.len(),
            result is Err ==> result == Err::<(), &str>(CAPACITY_EXCEEDED),
            (exists|copies: Seq<T>|
                {
                    &&& clones_of_prefix(my_vector@, copies)
                    &&& #[trigger] inserted_all(old(self)@, old(self).is_growable(), copies)
                        == final(self)@
                    &&& occupied(final(self)@) == occupied(old(self)@) + copies.len()
                    &&& final(self)@.len() == (if old(self).is_growable() {
                        capacity_after(old(self)@.len(), occupied(old(self)@), copies.len())
                    } else {
                        old(self)@.len()
                    })
                    &&& result is Ok ==> copies.len() == my_vector@.len()
                    &&& result is Err ==> is_full(final(self)@)
                }),
    {
        let ghost mut copies: Seq<T> = Seq::empty();
        let mut index: usize = 0;
        while index < my_vector.len()
            invariant
                self.wf(),
                self.growable == old(self).growable,
                index <= my_vector@.len(),
                copies.len() == index,
                clones_of_prefix(my_vector@, copies),
                self@ == inserted_all(old(self)@, old(self).growable, copies),
                occupied(self@) == occupied(old(self)@) + index,
                self.growable ==> self@.len() == capacity_after(
                    old(self)@.len(),
                    occupied(old(self)@),
                    index as nat,
                ),
                !self.growable ==> self@.len() == old(self)@.len(),
                old(self).growable ==> capacity_after(
                    old(self)@.len(),
                    occupied(old(self)@),
                    my_vector@.len(),
                ) <= usize::MAX,
            decreases my_vector@.len() - index,
        {
            let copy = my_vector[index].clone();
            proof {
                lemma_occupied_bound(self@);
                lemma_capacity_after_monotone(
                    old(self)@.len(),
                    occupied(old(self)@),
                    (index + 1) as nat,
                    my_vector@.len(),
                );
                assert(copies.push(copy).drop_last() =~= copies);
            }
            match self.insert(copy) {
                Ok(_) => {},
                Err(_) => {
                    return Err(CAPACITY_EXCEEDED);
                },
            }
            proof {
                copies = copies.push(copy);
            }
            index = index + 1;
        }
        proof {
            lemma_occupied_bound(self@);
        }
        Ok(())
    }

    /// Replaces the slot array by one of `GROWTH_FACTOR` times the capacity and
    /// places every occupant anew, in slot order, each from its home slot under
    /// the new capacity.
    fn grow_cells(&mut self)
        requires
            old(self).wf(),
            GROWTH_FACTOR * old(self)@.len() <= usize::MAX,
        ensures
            final(self).wf(),
            final(self).is_growable() == old(self).is_growable(),
            final(self)@ == grown(old(self)@),
            final(self)@.len() == GROWTH_FACTOR * old(self)@.len(),
            occupied(final(self)@) == occupied(old(self)@),
    {
        let new_capacity: usize = self.capacity * GROWTH_FACTOR;
        let mut previous = Self::new(new_capacity, self.growable);
        core::mem::swap(self, &mut previous);
        let mut index: usize = 0;
        proof {
            lemma_occupied_take(old(self)@, 0);
            lemma_occupied_empty::<T>(new_capacity as nat);
        }
        while index < previous.capacity
            invariant
                self.wf(),
                previous.wf(),
                self.growable == old(self).growable,
                previous@.len() == old(self)@.len(),
                self@.len() == new_capacity,
                new_capacity == GROWTH_FACTOR * old(self)@.len(),
                index <= previous.capacity,
                forall|j: int| index <= j < previous@.len() ==> previous@[j] == old(self)@[j],
                self@ == rehashed(old(self)@, index as nat, new_capacity as nat),
                occupied(self@) == occupied(old(self)@.take(index as int)),
            decreases previous.capacity - index,
        {
            proof {
                lemma_occupied_take(old(self)@, index as int);
                lemma_occupied_bound(old(self)@.take(index as int));
            }
            let mut cell: Option<T> = None;
            previous.cells.set_and_swap(index, &mut cell);
            match cell {
                Some(value) => {
                    let home: usize = hash_function(&value, self.capacity);
                    self.place(value, home);
                },
                None => {},
            }
            index = index + 1;
        }
        proof {
            lemma_occupied_take(old(self)@, 0);
        }
    }

    /// Places `input` in the first empty slot that a probe from `home` meets.
    fn place(&mut self, input: T, home: usize)
        requires
            old(self).wf(),
            home < old(self)@.len(),
            !is_full(old(self)@),
        ensures
            final(self).wf(),
            final(self).growable == old(self).growable,
            final(self)@ == placed(old(self)@, home as int, input),
            final(self)@.len() == old(self)@.len(),
            occupied(final(self)@) == occupied(old(self)@) + 1,
    {
        if self.cells[home].is_some() {
            self.insert_next_index(input, home);
        } else {
            proof {
                lemma_probe_step(home as int, 0, self@.len() as int);
                assert(first_empty(self@, home as int, 0));
                lemma_placed(self@, home as int, input, 0);
            }
            self.cells.set(home, Some(input));
        }
    }

    /// Places `input` in the first empty slot after the occupied slot
    /// `previous_index`, in probing order.
    fn insert_next_index(&mut self, input: T, previous_index: usize)
        requires
            old(self).wf(),
            previous_index < old(self)@.len(),
            old(self)@[previous_index as int] is Some,
            !is_full(old(self)@),
        ensures
            final(self).wf(),
            final(self).growable == old(self).growable,
            final(self)@ == placed(old(self)@, previous_index as int, input),
            final(self)@.len() == old(self)@.len(),
            occupied(final(self)@) == occupied(old(self)@) + 1,
    {
        let ghost home = previous_index as int;
        let ghost capacity = self@.len() as int;
        let ghost target = lemma_has_first_empty(self@, home);
        let ghost mut step: int = 1;
        let mut index: usize = self.next_index(previous_index);
        proof {
            lemma_probe_step(home, 0, capacity);
            assert(self@[probe_index(home, 0, capacity)] is Some);
        }
        while self.cells[index].is_some()
            invariant
                self.wf(),
                *self == *old(self),
                capacity == self@.len(),
                0 <= home < capacity,
                first_empty(self@, home, target),
                1 <= step <= target,
                index == probe_index(home, step, capacity),
                forall|j: int|
                    0 <= j < step ==> self@[#[trigger] probe_index(home, j, capacity)] is Some,
            decreases target - step,
        {
            proof {
                lemma_probe_step(home, step, capacity);
            }
            index = self.next_index(index);
            proof {
                step = step + 1;
            }
        }
        proof {
            assert(first_empty(self@, home, step));
            lemma_placed(self@, home, input, step);
        }
        self.cells.set(index, Some(input));
    }

    /// Continues a lookup of `input` behind its home slot `previous_index`, to
    /// the end of the cycle.
    fn get_next(&self, input: &T, previous_index: usize) -> (found: Option<&T>)
        requires
            self.wf(),
            previous_index == home_slot(input.hash_spec(), self@.len() as int),
            miss(self@[previous_index as int], *input),
        ensures
            looked_up(
                self@,
                *input,
                match found {
                    Some(held) => Some(*held),
                    None => None,
                },
            ),
    {
        let ghost home = previous_index as int;
        let ghost capacity = self@.len() as int;
        let ghost mut step: int = 1;
        let mut index: usize = self.next_index(previous_index);
        proof {
            lemma_probe_step(home, 0, capacity);
        }
        while index != previous_index
            invariant
                self.wf(),
                capacity == self@.len(),
                home == previous_index,
                home == home_slot(input.hash_spec(), capacity),
                0 <= home < capacity,
                1 <= step <= capacity,
                index == probed_slot(self@, *input, step),
                forall|j: int|
                    0 <= j < step ==> miss(self@[#[trigger] probed_slot(self@, *input, j)], *input),
            decreases capacity - step,
        {
            proof {
                lemma_probe_step(home, 0, capacity);
                lemma_probe_step(home, step, capacity);
            }
            match &self.cells[index] {
                Some(s) => {
                    if *s == *input {
                        proof {
                            assert(first_hit(self@, *input, step));
                            assert(self@[probed_slot(self@, *input, step)] == Some(*s));
                        }
                        return Some(s);
                    }
                },
                None => {},
            }
            index = self.next_index(index);
            proof {
                step = step + 1;
            }
        }
        proof {
            if step < capacity {
                lemma_probe_step(home, step, capacity);
            }
            assert forall|i: int| 0 <= i < self@.len() implies miss(
                #[trigger] self@[i],
                *input,
            ) by {
                let at = lemma_probe_reaches(home, i, capacity);
                assert(miss(self@[probed_slot(self@, *input, at)], *input));
            }
        }
        None
    }

    /// Continues a removal of `input` behind its home slot `previous_index`, to
    /// the end of the cycle.
    fn remove_next(&mut self, input: T, previous_index: usize) -> (removed: Option<T>)
        requires
            old(self).wf(),
            previous_index == home_slot(input.hash_spec(), old(self)@.len() as int),
            miss(old(self)@[previous_index as int], input),
        ensures
            final(self).wf(),
            final(self).growable == old(self).growable,
            taken_out(old(self)@, input, final(self)@, removed),
            final(self)@.len() == old(self)@.len(),
            occupied(final(self)@) + (if removed is Some {
                1nat
            } else {
                0nat
            }) == occupied(old(self)@),
    {
        let ghost home = previous_index as int;
        let ghost capacity = self@.len() as int;
        let ghost mut step: int = 1;
        let mut index: usize = self.next_index(previous_index);
        proof {
            lemma_probe_step(home, 0, capacity);
        }
        while index != previous_index
            invariant
                self.wf(),
                *self == *old(self),
                capacity == self@.len(),
                home == previous_index,
                home == home_slot(input.hash_spec(), capacity),
                0 <= home < capacity,
                1 <= step <= capacity,
                index == probed_slot(self@, input, step),
                forall|j: int|
                    0 <= j < step ==> miss(self@[#[trigger] probed_slot(self@, input, j)], input),
            decreases capacity - step,
        {
            proof {
                lemma_probe_step(home, 0, capacity);
                lemma_probe_step(home, step, capacity);
            }
            let here = match &self.cells[index] {
                Some(s) => *s == input,
                None => false,
            };
            if here {
                proof {
                    assert(first_hit(self@, input, step));
                    lemma_occupied_update(self@, index as int, None);
                }
                let mut cell: Option<T> = None;
                self.cells.set_and_swap(index, &mut cell);
                proof {
                    assert(old(self)@[probed_slot(old(self)@, input, step)] == cell);
                }
                return cell;
            }
            index = self.next_index(index);
            proof {
                step = step + 1;
            }
        }
        proof {
            if step < capacity {
                lemma_probe_step(home, step, capacity);
            }
            assert forall|i: int| 0 <= i < self@.len() implies miss(
                #[trigger] self@[i],
                input,
            ) by {
                let at = lemma_probe_reaches(home, i, capacity);
                assert(miss(self@[probed_slot(self@, input, at)], input));
            }
        }
        None
    }

    /// The slot that follows `previous_index`, wrapping at the end of the array.
    fn next_index(&self, previous_index: usize) -> (next: usize)
        requires
            self.wf(),
            previous_index < self@.len(),
        ensures
            next == next_slot(previous_index as int, self@.len() as int),
            next < self@.len(),
    {
        let next_index: usize = previous_index + 1;
        if next_index == self.capacity {
            0
        } else {
            next_index
        }
    }
}

} // verus!

//! The hashing capability that an element type supplies.

use vstd::prelude::*;

verus! {

/// The hashing capability of an element type: one function from a value to a
/// non-negative integer. It need not spread values well; the table reduces the
/// integer modulo its capacity and resolves collisions by probing.
pub trait Hashable {
    /// The integer that `hash` yields for this value. An implementation states
    /// it; left as it stands here, nothing is known of it.
    open spec fn hash_spec(&self) -> usize {
        arbitrary()
    }

    /// The hash of this value: the same integer whenever it is asked for.
    fn hash(&self) -> (h: usize)
        ensures
            h == self.hash_spec(),
    ;
}

/// The home slot of a value whose hash is `hash`, in a table of `table_size` slots.
pub open spec fn home_slot(hash: usize, table_size: int) -> int {
    hash as int % table_size
}

/// The home slot of `input` in a table of `table_size` slots: its hash modulo
/// the number of slots.
pub fn hash_function<T>(input: &T, table_size: usize) -> (index: usize) where T: Hashable + ?Sized
    requires
        table_size > 0,
    ensures
        index == home_slot(input.hash_spec(), table_size as int),
        index < table_size,
{
    input.hash() % table_size
}

} // verus!

//! A hash table with open addressing and linear probing, verified with Verus.
//!
//! [`HashTable`] is the table; [`Hashable`] is what an element type supplies.
//! The module `slots` holds the mathematical model that the contracts speak
//! of, `laws` what follows from them.

pub mod equality;
pub mod hashable;
pub mod laws;
pub mod premade_type_hashes;
pub mod slot_proofs;
pub mod slots;
pub mod table;

pub use hashable::{hash_function, Hashable};
pub use slots::GROWTH_FACTOR;
pub use table::{HashTable, CAPACITY_EXCEEDED};

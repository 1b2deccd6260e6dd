//! The hashes of the built-in types. An integer hashes to itself, converted to
//! `usize` as `as` converts: a negative value, or one too wide, wraps. A text
//! hashes to the sum of its code points.

use crate::hashable::Hashable;
use vstd::arithmetic::div_mod::{lemma_add_mod_noop, lemma_mod_bound, lemma_small_mod};
use vstd::prelude::*;

verus! {

impl Hashable for usize {
    open spec fn hash_spec(&self) -> usize {
        *self
    }

    fn hash(&self) -> (h: usize) {
        *self
    }
}

impl Hashable for u8 {
    open spec fn hash_spec(&self) -> usize {
        *self as usize
    }

    fn hash(&self) -> (h: usize) {
        *self as usize
    }
}

impl Hashable for u16 {
    open spec fn hash_spec(&self) -> usize {
        *self as usize
    }

    fn hash(&self) -> (h: usize) {
        *self as usize
    }
}

impl Hashable for u32 {
    open spec fn hash_spec(&self) -> usize {
        *self as usize
    }

    fn hash(&self) -> (h: usize) {
        *self as usize
    }
}

impl Hashable for u64 {
    open spec fn hash_spec(&self) -> usize {
        *self as usize
    }

    fn hash(&self) -> (h: usize) {
        #[verifier::truncate]
        (*self as usize)
    }
}

impl Hashable for u128 {
    open spec fn hash_spec(&self) -> usize {
        *self as usize
    }

    fn hash(&self) -> (h: usize) {
        #[verifier::truncate]
        (*self as usize)
    }
}

impl Hashable for i8 {
    open spec fn hash_spec(&self) -> usize {
        *self as usize
    }

    fn hash(&self) -> (h: usize) {
        #[verifier::truncate]
        (*self as usize)
    }
}

impl Hashable for i16 {
    open spec fn hash_spec(&self) -> usize {
        *self as usize
    }

    fn hash(&self) -> (h: usize) {
        #[verifier::truncate]
        (*self as usize)
    }
}

impl Hashable for i32 {
    open spec fn hash_spec(&self) -> usize {
        *self as usize
    }

    fn hash(&self) -> (h: usize) {
        #[verifier::truncate]
        (*self as usize)
    }
}

impl Hashable for i64 {
    open spec fn hash_spec(&self) -> usize {
        *self as usize
    }

    fn hash(&self) -> (h: usize) {
        #[verifier::truncate]
        (*self as usize)
    }
}

impl Hashable for i128 {
    open spec fn hash_spec(&self) -> usize {
        *self as usize
    }

    fn hash(&self) -> (h: usize) {
        #[verifier::truncate]
        (*self as usize)
    }
}

/// The sum of the code points of `chars`.
pub open spec fn code_point_sum(chars: Seq<char>) -> nat
    decreases chars.len(),
{
    if chars.len() == 0 {
        0
    } else {
        code_point_sum(chars.drop_last()) + chars.last() as nat
    }
}

/// The hash of a text: the sum of its code points, reduced to the range of
/// `usize` where it exceeds it.
pub open spec fn text_hash(chars: Seq<char>) -> usize {
    (code_point_sum(chars) % (usize::MAX as nat + 1)) as usize
}

/// A text whose code points sum to no more than `usize::MAX` has that sum as its hash.
pub proof fn lemma_text_hash_is_the_sum(chars: Seq<char>)
    requires
        code_point_sum(chars) <= usize::MAX,
    ensures
        text_hash(chars) == code_point_sum(chars),
{
    lemma_small_mod(code_point_sum(chars), usize::MAX as nat + 1);
}

impl Hashable for &str {
    open spec fn hash_spec(&self) -> usize {
        text_hash(self@)
    }

    fn hash(&self) -> (h: usize) {
        hash_string_like_types(self)
    }
}

impl Hashable for str {
    open spec fn hash_spec(&self) -> usize {
        text_hash(self@)
    }

    fn hash(&self) -> (h: usize) {
        hash_string_like_types(self)
    }
}

impl Hashable for String {
    open spec fn hash_spec(&self) -> usize {
        text_hash(self@)
    }

    fn hash(&self) -> (h: usize) {
        hash_string_like_types(self.as_str())
    }
}

/// The code point of `c`.
fn code_point(c: char) -> (n: usize)
    ensures
        n == c as nat,
        n <= 0x10FFFF,
{
    c as usize
}

/// Sums the code points of `input`, wrapping where the sum leaves the range of `usize`.
fn hash_string_like_types(input: &str) -> (sum: usize)
    ensures
        sum == text_hash(input@),
{
    let mut sum: usize = 0;
    assert(code_point_sum(input@.take(0)) == 0);
    for c in it: input.chars()
        invariant
            it.seq() == input@,
            sum == text_hash(input@.take(it.index())),
    {
        let n: usize = code_point(c);
        proof {
            let i = it.index();
            let range = usize::MAX as int + 1;
            let before = code_point_sum(input@.take(i)) as int;
            assert(input@.take(i + 1).drop_last() =~= input@.take(i));
            assert(input@.take(i + 1).last() == c);
            lemma_add_mod_noop(before, n as int, range);
            lemma_small_mod(n as nat, range as nat);
            lemma_mod_bound(before, range);
        }
        sum = sum.wrapping_add(n);
    }
    assert(input@.take(input@.len() as int) =~= input@);
    sum
}

} // verus!

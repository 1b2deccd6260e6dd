//! How the contracts speak of the element type's `==`.

use vstd::prelude::*;
use vstd::std_specs::cmp::PartialEqSpec;

verus! {

/// The element type's contract allows `a == b` to evaluate to `outcome`.
///
/// The table never decides equality itself: it calls the element type's `==`
/// and acts on what comes back. Its contracts therefore speak of what that call
/// may yield. For a type whose `==` is a function of its operands, at most one
/// outcome is possible for each pair of values; the two lemmas below say which,
/// for the types that obey their `eq_spec` and for `String`.
pub open spec fn eq_yields<T: PartialEq>(a: T, b: T, outcome: bool) -> bool {
    call_ensures(T::eq, (&a, &b), outcome)
}

/// The element type's contract leaves `a == b` at most one outcome.
pub open spec fn eq_decided<T: PartialEq>(a: T, b: T) -> bool {
    !(eq_yields(a, b, true) && eq_yields(a, b, false))
}

/// For a type that obeys its `eq_spec`, `==` yields what `eq_spec` says and
/// nothing else.
pub proof fn lemma_eq_spec_decides<T: PartialEq>(a: T, b: T)
    requires
        T::obeys_eq_spec(),
    ensures
        eq_decided(a, b),
        eq_yields(a, b, true) ==> a.eq_spec(&b),
        eq_yields(a, b, false) ==> !a.eq_spec(&b),
{
}

/// For strings, `==` yields whether the two hold the same characters and
/// nothing else.
pub proof fn lemma_string_eq_decides(a: String, b: String)
    ensures
        eq_decided(a, b),
        eq_yields(a, b, true) ==> a@ == b@,
        eq_yields(a, b, false) ==> a@ != b@,
{
}

} // verus!

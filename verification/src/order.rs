//! The order on the element type, as the window reasons about it.
//!
//! The window is generic over `T: Ord + Clone`. What it promises about the
//! median holds for element types whose comparisons and clones are
//! [`lawful`]; everything here is stated over the two relations [`lt`] and
//! [`le`].

use vstd::prelude::*;
use vstd::laws_cmp::{obeys_cmp, obeys_cmp_ord, obeys_cmp_partial_ord, obeys_partial_cmp_spec_properties};
use vstd::laws_eq::obeys_concrete_eq;
use vstd::relations::total_ordering;
use vstd::std_specs::cmp::{PartialEqSpec, PartialOrdIs, PartialOrdSpec};

verus! {

/// `T` behaves as a totally ordered, duplicable value: its comparison
/// operators agree with one total order, two values compare equal only when
/// they are the same value, and a clone is the value it was cloned from.
pub open spec fn lawful<T: Ord + Clone>() -> bool {
    &&& obeys_cmp::<T>()
    &&& obeys_concrete_eq::<T>()
    &&& forall|a: T, b: T| #[trigger] cloned::<T>(a, b) ==> a == b
}

/// `a` is strictly before `b` in `T`'s order.
pub open spec fn lt<T: Ord>(a: T, b: T) -> bool {
    a.is_lt(&b)
}

/// `a` is before `b` in `T`'s order, or equal to it.
pub open spec fn le<T: Ord>(a: T, b: T) -> bool {
    a.is_le(&b)
}

/// [`le`] as a relation, in the form that `vstd`'s sorting vocabulary takes.
pub open spec fn ascending<T: Ord>() -> spec_fn(T, T) -> bool {
    |a: T, b: T| le(a, b)
}

/// The primitive integer types are lawful.
pub proof fn lemma_integers_lawful()
    ensures
        lawful::<u8>(),
        lawful::<u16>(),
        lawful::<u32>(),
        lawful::<u64>(),
        lawful::<u128>(),
        lawful::<usize>(),
        lawful::<i8>(),
        lawful::<i16>(),
        lawful::<i32>(),
        lawful::<i64>(),
        lawful::<i128>(),
        lawful::<isize>(),
{
}

/// For a lawful `T`, the comparison operators compute what they are named
/// for: `<` and `<=` are [`lt`] and [`le`] by definition, `>` and `>=` are
/// their converses, and `==` is identity.
pub proof fn lemma_operators<T: Ord + Clone>()
    requires
        lawful::<T>(),
    ensures
        T::obeys_eq_spec(),
        T::obeys_partial_cmp_spec(),
        forall|a: T, b: T| #[trigger] a.eq_spec(&b) <==> (a == b),
        forall|a: T, b: T| #![trigger a.partial_cmp_spec(&b)] a.is_gt(&b) <==> lt(b, a),
        forall|a: T, b: T| #![trigger a.partial_cmp_spec(&b)] a.is_ge(&b) <==> le(b, a),
{
    reveal(obeys_cmp_partial_ord);
    reveal(obeys_concrete_eq);
    reveal(obeys_partial_cmp_spec_properties);
}

/// For a lawful `T`, [`lt`] is a strict total order and [`le`] is its
/// reflexive closure.
pub proof fn lemma_strict_total<T: Ord + Clone>()
    requires
        lawful::<T>(),
    ensures
        forall|a: T, b: T| #![trigger lt(a, b)] lt(a, b) || a == b || lt(b, a),
        forall|a: T, b: T| #![trigger lt(a, b)] !(lt(a, b) && lt(b, a)) && !(lt(a, b) && a == b),
        forall|a: T, b: T, c: T| #![trigger lt(a, b), lt(b, c)] lt(a, b) && lt(b, c) ==> lt(a, c),
        forall|a: T, b: T| #![trigger le(a, b)] le(a, b) <==> !lt(b, a),
        forall|a: T, b: T, c: T| #![trigger le(a, b), le(b, c)] le(a, b) && le(b, c) ==> le(a, c),
{
    reveal(obeys_cmp_ord);
    reveal(obeys_concrete_eq);
    reveal(obeys_partial_cmp_spec_properties);
}

/// For a lawful `T`, [`ascending`] is a total ordering in `vstd`'s sense.
pub proof fn lemma_ascending_total<T: Ord + Clone>()
    requires
        lawful::<T>(),
    ensures
        total_ordering(ascending::<T>()),
{
    lemma_strict_total::<T>();
}

} // verus!

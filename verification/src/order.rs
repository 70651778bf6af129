//! The order on the elements.
//!
//! A tree compares its elements with `Ord::cmp` and nothing else. This module
//! names the three outcomes of a comparison as predicates and derives, from the
//! laws that `vstd` states for a well-behaved `Ord`, the facts that the proofs
//! about search trees use.

use std::cmp::Ordering;
use vstd::prelude::*;
use vstd::std_specs::cmp::OrdSpec;

verus! {

/// `T::cmp` is a function of its arguments and orders `T` totally: it is
/// antisymmetric and transitive, and `Equal` is an equivalence relation.
///
/// Every integer type satisfies this (see `vstd::laws_cmp::group_laws_cmp`).
pub open spec fn total_order<T: Ord>() -> bool {
    vstd::laws_cmp::obeys_cmp::<T>()
}

/// `a` compares `Less` than `b`.
pub open spec fn lt<T: Ord>(a: T, b: T) -> bool {
    a.cmp_spec(&b) == Ordering::Less
}

/// `a` compares `Equal` to `b`.
pub open spec fn equiv<T: Ord>(a: T, b: T) -> bool {
    a.cmp_spec(&b) == Ordering::Equal
}

/// A call of `cmp` returns what `lt` and `equiv` say.
pub proof fn lemma_compare_agrees<T: Ord>()
    requires
        total_order::<T>(),
    ensures
        T::obeys_cmp_spec(),
{
    reveal(vstd::laws_cmp::obeys_cmp_ord);
}

/// Of `lt(a, b)`, `equiv(a, b)` and `lt(b, a)` exactly one holds.
pub proof fn lemma_trichotomy<T: Ord>(a: T, b: T)
    requires
        total_order::<T>(),
    ensures
        lt(a, b) || equiv(a, b) || lt(b, a),
        !(lt(a, b) && equiv(a, b)),
        !(lt(a, b) && lt(b, a)),
        !(equiv(a, b) && lt(b, a)),
        equiv(a, b) <==> equiv(b, a),
{
    reveal(vstd::laws_cmp::obeys_cmp_ord);
    reveal(vstd::laws_cmp::obeys_partial_cmp_spec_properties);
}

/// Every element is equivalent to itself.
pub proof fn lemma_equiv_reflexive<T: Ord>(a: T)
    requires
        total_order::<T>(),
    ensures
        equiv(a, a),
{
    lemma_trichotomy(a, a);
}

/// `lt` is transitive.
pub proof fn lemma_lt_transitive<T: Ord>(a: T, b: T, c: T)
    requires
        total_order::<T>(),
        lt(a, b),
        lt(b, c),
    ensures
        lt(a, c),
{
    reveal(vstd::laws_cmp::obeys_cmp_ord);
    reveal(vstd::laws_cmp::obeys_partial_cmp_spec_properties);
}

/// `equiv` is transitive.
pub proof fn lemma_equiv_transitive<T: Ord>(a: T, b: T, c: T)
    requires
        total_order::<T>(),
        equiv(a, b),
        equiv(b, c),
    ensures
        equiv(a, c),
{
    reveal(vstd::laws_cmp::obeys_cmp_ord);
    reveal(vstd::laws_cmp::obeys_cmp_partial_ord);
    reveal(vstd::laws_eq::obeys_eq_spec_properties);
}

/// Equivalent elements stand in the same relations: one may replace the
/// smaller side of `lt` by an equivalent element.
pub proof fn lemma_lt_left_equiv<T: Ord>(a: T, b: T, c: T)
    requires
        total_order::<T>(),
        equiv(a, b),
        lt(b, c),
    ensures
        lt(a, c),
{
    lemma_trichotomy(a, c);
    lemma_trichotomy(a, b);
    if equiv(a, c) {
        lemma_equiv_transitive(b, a, c);
    } else if lt(c, a) {
        lemma_lt_transitive(b, c, a);
    }
}

/// One may replace the larger side of `lt` by an equivalent element.
pub proof fn lemma_lt_right_equiv<T: Ord>(a: T, b: T, c: T)
    requires
        total_order::<T>(),
        lt(a, b),
        equiv(b, c),
    ensures
        lt(a, c),
{
    lemma_trichotomy(a, c);
    lemma_trichotomy(b, c);
    if equiv(a, c) {
        lemma_equiv_transitive(a, c, b);
    } else if lt(c, a) {
        lemma_lt_transitive(c, a, b);
    }
}

} // verus!

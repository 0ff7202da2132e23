//! The order on elements, as the comparison operators of the element type
//! define it, and the facts that hold of it for a lawful `Ord`.

use core::cmp::Ordering;
use vstd::laws_cmp::obeys_cmp;
use vstd::prelude::*;
use vstd::std_specs::cmp::{PartialEqSpec, PartialOrdSpec};

verus! {

/// `a` sorts strictly before `b`: what `a < b` computes.
pub open spec fn precedes<E: Ord>(a: E, b: E) -> bool {
    a.partial_cmp_spec(&b) == Some(Ordering::Less)
}

/// `a` and `b` count as the same element: what `a == b` computes.
pub open spec fn equivalent<E: Ord>(a: E, b: E) -> bool {
    a.eq_spec(&b)
}

/// For a lawful element type the operators `==` and `<` compute
/// [`equivalent`] and [`precedes`].
pub proof fn lemma_operators_follow_spec<E: Ord>()
    requires
        obeys_cmp::<E>(),
    ensures
        E::obeys_eq_spec(),
        E::obeys_partial_cmp_spec(),
{
    reveal(vstd::laws_cmp::obeys_cmp_partial_ord);
}

/// Any two elements compare one way or the other, or are equivalent.
pub proof fn lemma_total<E: Ord>(a: E, b: E)
    requires
        obeys_cmp::<E>(),
    ensures
        precedes(a, b) || equivalent(a, b) || precedes(b, a),
{
    reveal(vstd::laws_cmp::obeys_cmp_ord);
    reveal(vstd::laws_cmp::obeys_partial_cmp_spec_properties);
    assert(b.partial_cmp_spec(&a) == Some(Ordering::Less) <==> a.partial_cmp_spec(&b) == Some(
        Ordering::Greater,
    ));
}

/// An element that sorts before another is neither equivalent to it nor
/// sorted after it.
pub proof fn lemma_exclusive<E: Ord>(a: E, b: E)
    requires
        obeys_cmp::<E>(),
        precedes(a, b),
    ensures
        !equivalent(a, b),
        !equivalent(b, a),
        !precedes(b, a),
{
    reveal(vstd::laws_cmp::obeys_partial_cmp_spec_properties);
    reveal(vstd::laws_eq::obeys_eq_spec_properties);
    assert(b.partial_cmp_spec(&a) == Some(Ordering::Less) <==> a.partial_cmp_spec(&b) == Some(
        Ordering::Greater,
    ));
}

/// Every element is equivalent to itself.
pub proof fn lemma_reflexive<E: Ord>(a: E)
    requires
        obeys_cmp::<E>(),
    ensures
        equivalent(a, a),
{
    lemma_total(a, a);
    if precedes(a, a) {
        lemma_exclusive(a, a);
    }
}

/// Sorting before is transitive.
pub proof fn lemma_transitive<E: Ord>(a: E, b: E, c: E)
    requires
        obeys_cmp::<E>(),
        precedes(a, b),
        precedes(b, c),
    ensures
        precedes(a, c),
{
    reveal(vstd::laws_cmp::obeys_partial_cmp_spec_properties);
}

/// Equivalence is symmetric.
pub proof fn lemma_symmetric<E: Ord>(a: E, b: E)
    requires
        obeys_cmp::<E>(),
    ensures
        equivalent(a, b) == equivalent(b, a),
{
    reveal(vstd::laws_cmp::obeys_partial_cmp_spec_properties);
    reveal(vstd::laws_eq::obeys_eq_spec_properties);
}

/// Equivalent elements sort alike: what sorts before one of them sorts
/// before the other, and what one of them sorts before, so does the other.
pub proof fn lemma_congruent<E: Ord>(a: E, b: E, c: E)
    requires
        obeys_cmp::<E>(),
        equivalent(b, c),
    ensures
        precedes(a, b) == precedes(a, c),
        precedes(b, a) == precedes(c, a),
{
    reveal(vstd::laws_cmp::obeys_partial_cmp_spec_properties);
    reveal(vstd::laws_eq::obeys_eq_spec_properties);
    lemma_symmetric(b, c);
    lemma_total(a, b);
    lemma_total(a, c);
    if precedes(a, b) {
        lemma_exclusive(a, b);
        if precedes(c, a) {
            lemma_transitive(c, a, b);
            lemma_exclusive(c, b);
        }
    }
    if precedes(a, c) {
        lemma_exclusive(a, c);
        if precedes(b, a) {
            lemma_transitive(b, a, c);
            lemma_exclusive(b, c);
        }
    }
    if precedes(b, a) {
        lemma_exclusive(b, a);
    }
    if precedes(c, a) {
        lemma_exclusive(c, a);
    }
}

} // verus!

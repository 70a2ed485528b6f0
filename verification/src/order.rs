//! The order on the values of a permutation, as the coders see it.

use core::cmp::Ordering;
use vstd::laws_cmp::obeys_cmp;
use vstd::prelude::*;
use vstd::std_specs::cmp::PartialOrdSpec;

verus! {

/// `a` sorts strictly before `b`.
pub open spec fn precedes<T: Ord>(a: T, b: T) -> bool {
    a.partial_cmp_spec(&b) == Some(Ordering::Less)
}

/// The comparison operators of `T` compute what its specification says.
pub open spec fn order_specified<T: Ord>() -> bool {
    T::obeys_partial_cmp_spec()
}

/// `precedes` is a strict order on `T`: no two values precede each other,
/// and it is transitive.
pub open spec fn strict_order<T: Ord>() -> bool {
    &&& forall|a: T, b: T| !(#[trigger] precedes(a, b) && #[trigger] precedes(b, a))
    &&& forall|a: T, b: T, c: T|
        #[trigger] precedes(a, b) && #[trigger] precedes(b, c) ==> precedes(a, c)
}

/// No two entries of `s` are equal in the order: of any two, one precedes
/// the other.
pub open spec fn distinct<T: Ord>(s: Seq<T>) -> bool {
    forall|i: int, j: int|
        0 <= i < j < s.len() ==> precedes(#[trigger] s[i], #[trigger] s[j]) || precedes(s[j], s[i])
}

/// `s` is strictly increasing.
pub open spec fn increasing<T: Ord>(s: Seq<T>) -> bool {
    forall|i: int, j: int| 0 <= i < j < s.len() ==> precedes(#[trigger] s[i], #[trigger] s[j])
}

/// A type whose comparisons obey the laws of a total order has a specified
/// strict order.
pub proof fn lemma_lawful_order<T: Ord>()
    requires
        obeys_cmp::<T>(),
    ensures
        order_specified::<T>(),
        strict_order::<T>(),
{
    reveal(vstd::laws_cmp::obeys_cmp_partial_ord);
    reveal(vstd::laws_cmp::obeys_partial_cmp_spec_properties);
    assert forall|a: T, b: T| !(#[trigger] precedes(a, b) && #[trigger] precedes(b, a)) by {
        if precedes(a, b) && precedes(b, a) {
            assert(b.partial_cmp_spec(&a) == Some(Ordering::Greater));
        }
    }
}

/// Whether `a` sorts strictly before `b`.
pub fn less<T: Ord>(a: &T, b: &T) -> (r: bool)
    ensures
        order_specified::<T>() ==> r == precedes(*a, *b),
{
    *a < *b
}

} // verus!

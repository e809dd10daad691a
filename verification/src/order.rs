//! The order on keys: what the search tree asks of a key type, and the
//! comparisons it makes.
use vstd::prelude::*;
use vstd::laws_cmp::{obeys_cmp, obeys_cmp_ord, obeys_cmp_partial_ord, obeys_partial_cmp_spec_properties};
use vstd::laws_eq::obeys_concrete_eq;
use vstd::std_specs::cmp::{PartialEqSpec, PartialOrdSpec};
use core::cmp::Ordering;

verus! {

/// Whether the comparisons of `T` are those of a total order in which only
/// equal values compare as equal.
pub open spec fn well_ordered<T: Ord>() -> bool {
    obeys_cmp::<T>() && obeys_concrete_eq::<T>()
}

/// Whether `a` comes strictly before `b`.
pub open spec fn less<T: Ord>(a: T, b: T) -> bool {
    a.partial_cmp_spec(&b) == Some(Ordering::Less)
}

/// In a well-ordered type, `less` is a strict total order.
pub proof fn lemma_strict_total_order<T: Ord>()
    requires
        well_ordered::<T>(),
    ensures
        forall|a: T| !#[trigger] less(a, a),
        forall|a: T, b: T| #[trigger] less(a, b) ==> !less(b, a),
        forall|a: T, b: T| a != b && !less(a, b) ==> #[trigger] less(b, a),
        forall|a: T, b: T, c: T| #[trigger] less(a, b) && #[trigger] less(b, c) ==> less(a, c),
        forall|a: T, b: T, c: T| #[trigger] less(a, b) && !#[trigger] less(c, b) ==> less(a, c),
        forall|a: T, b: T, c: T| !#[trigger] less(b, a) && #[trigger] less(b, c) ==> less(a, c),
{
    reveal(obeys_cmp_ord);
    reveal(obeys_cmp_partial_ord);
    reveal(obeys_partial_cmp_spec_properties);
    reveal(obeys_concrete_eq);
    assert forall|a: T, b: T| a != b && !less(a, b) implies #[trigger] less(b, a) by {
        assert(a.partial_cmp_spec(&b) == Some(Ordering::Greater));
    }
    assert forall|a: T, b: T, c: T| #[trigger] less(a, b) && !#[trigger] less(c, b) implies less(
        a,
        c,
    ) by {
        if b != c {
            assert(less(b, c));
        }
    }
    assert forall|a: T, b: T, c: T| !#[trigger] less(b, a) && #[trigger] less(b, c) implies less(
        a,
        c,
    ) by {
        if a != b {
            assert(less(a, b));
        }
    }
}

/// Decides whether `a` comes strictly before `b`.
pub fn is_less<T: Ord>(a: &T, b: &T) -> (r: bool)
    requires
        well_ordered::<T>(),
    ensures
        r == less(*a, *b),
{
    proof {
        reveal(obeys_cmp_partial_ord);
    }
    a < b
}

/// Decides whether `a` and `b` are one value.
pub fn is_same<T: Ord>(a: &T, b: &T) -> (r: bool)
    requires
        well_ordered::<T>(),
    ensures
        r == (*a == *b),
{
    proof {
        reveal(obeys_concrete_eq);
    }
    a == b
}

} // verus!

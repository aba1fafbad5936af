//! Shared pieces of the sorting algorithms.
use super::strict_weak_order;
use vstd::laws_cmp::obeys_cmp;
use vstd::prelude::*;
use vstd::std_specs::cmp::{OrdSpec, PartialEqSpec, PartialOrdIs, PartialOrdSpec};

verus! {

/// The order that `T`'s `<` gives.
pub open spec fn ord_lt<T: Ord>() -> spec_fn(T, T) -> bool {
    |a: T, b: T| a.is_lt(&b)
}

/// The default sorting predicate: `lhs < rhs`.
pub fn default_pred<T: Ord>(lhs: &T, rhs: &T) -> (r: bool)
    ensures
        T::obeys_partial_cmp_spec() ==> r == lhs.is_lt(rhs),
        obeys_cmp::<T>() ==> r == lhs.is_lt(rhs),
{
    proof {
        reveal(vstd::laws_cmp::obeys_cmp_partial_ord);
    }
    lhs < rhs
}

/// A lawful `Ord` makes `<` a strict weak order.
pub proof fn lemma_ord_lt_strict_weak_order<T: Ord>()
    requires
        obeys_cmp::<T>(),
    ensures
        strict_weak_order(ord_lt::<T>()),
{
    reveal(vstd::laws_cmp::obeys_partial_cmp_spec_properties);
    reveal(vstd::laws_cmp::obeys_cmp_ord);
    reveal(vstd::laws_eq::obeys_eq_spec_properties);
    let lt = ord_lt::<T>();
    assert forall|a: T| !#[trigger] lt(a, a) by {
        assert(a.partial_cmp_spec(&a) == Some(core::cmp::Ordering::Less) <==> a.partial_cmp_spec(&a) == Some(
            core::cmp::Ordering::Greater,
        ));
    }
    assert forall|a: T, b: T, c: T| #![trigger lt(a, b), lt(b, c), lt(a, c)] !lt(a, b) && !lt(b, c) implies !lt(
        a,
        c,
    ) by {
        let ab = a.partial_cmp_spec(&b);
        let bc = b.partial_cmp_spec(&c);
        let ac = a.partial_cmp_spec(&c);
        assert(ab == Some(a.cmp_spec(&b)));
        assert(bc == Some(b.cmp_spec(&c)));
        assert(ac == Some(a.cmp_spec(&c)));
        if ac == Some(core::cmp::Ordering::Less) {
            assert(c.partial_cmp_spec(&a) == Some(core::cmp::Ordering::Greater));
            if ab == Some(core::cmp::Ordering::Equal) {
                assert(a.eq_spec(&b));
                assert(b.partial_cmp_spec(&a) == Some(b.cmp_spec(&a)));
                if bc == Some(core::cmp::Ordering::Equal) {
                    assert(b.eq_spec(&c));
                    assert(a.eq_spec(&c));
                } else {
                    assert(bc == Some(core::cmp::Ordering::Greater));
                    assert(c.partial_cmp_spec(&b) == Some(core::cmp::Ordering::Less));
                    assert(c.partial_cmp_spec(&b) == Some(c.cmp_spec(&b)));
                    assert(a.partial_cmp_spec(&b) == Some(core::cmp::Ordering::Less));
                }
            } else {
                assert(ab == Some(core::cmp::Ordering::Greater));
                assert(b.partial_cmp_spec(&a) == Some(core::cmp::Ordering::Less));
                assert(b.partial_cmp_spec(&a) == Some(b.cmp_spec(&a)));
                assert(b.partial_cmp_spec(&c) == Some(core::cmp::Ordering::Less));
            }
        }
    }
}

} // verus!

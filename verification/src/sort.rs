//! Sorting algorithms over slices.
pub mod bubble;
pub mod helper;
pub mod quick;

use vstd::prelude::*;

verus! {

/// `pred` computes the relation `lt`: whatever `pred` may return on `(a, b)` is `lt(a, b)`.
pub open spec fn computes<T, P: Fn(&T, &T) -> bool>(pred: P, lt: spec_fn(T, T) -> bool) -> bool {
    forall|a: T, b: T, r: bool| #[trigger] pred.ensures((&a, &b), r) ==> r == lt(a, b)
}

/// `lt` is a strict weak order: irreflexive, transitive, and its incomparability is
/// transitive (equivalently, `!lt` is transitive).
pub open spec fn strict_weak_order<T>(lt: spec_fn(T, T) -> bool) -> bool {
    &&& forall|a: T| !#[trigger] lt(a, a)
    &&& forall|a: T, b: T, c: T| #![trigger lt(a, b), lt(b, c)] lt(a, b) && lt(b, c) ==> lt(a, c)
    &&& forall|a: T, b: T, c: T|
        #![trigger lt(a, b), lt(b, c), lt(a, c)]
        !lt(a, b) && !lt(b, c) ==> !lt(a, c)
}

/// No element of `s` is less, by `lt`, than an element before it.
pub open spec fn sorted_by<T>(s: Seq<T>, lt: spec_fn(T, T) -> bool) -> bool {
    forall|i: int, j: int| 0 <= i < j < s.len() ==> !lt(#[trigger] s[j], #[trigger] s[i])
}

/// `pred` may be called on any two elements of `s`.
pub open spec fn callable_on<T, P: Fn(&T, &T) -> bool>(pred: P, s: Seq<T>) -> bool {
    forall|x: T, y: T| s.contains(x) && s.contains(y) ==> #[trigger] pred.requires((&x, &y))
}

/// Exchanging two elements keeps the multiset of elements.
pub proof fn lemma_swap_multiset<T>(s: Seq<T>, a: int, b: int)
    requires
        0 <= a < s.len(),
        0 <= b < s.len(),
    ensures
        s.update(a, s[b]).update(b, s[a]).to_multiset() == s.to_multiset(),
{
    broadcast use vstd::seq_lib::group_to_multiset_ensures, vstd::multiset::group_multiset_axioms;

    let t = s.update(a, s[b]);
    assert(t[b] == s[b]);
    assert(t.update(b, s[a]).to_multiset() =~= s.to_multiset());
}

} // verus!

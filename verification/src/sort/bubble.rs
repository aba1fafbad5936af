//! Bubble sorting algorithm
use super::helper::{default_pred, lemma_ord_lt_strict_weak_order, ord_lt};
use vstd::laws_cmp::obeys_cmp;
use super::{callable_on, computes, sorted_by, strict_weak_order};
use vstd::prelude::*;

verus! {

/// Sort slice using the bubble sort algorithm
pub fn sort<T: Ord>(slice: &mut [T])
    ensures
        final(slice)@.len() == old(slice)@.len(),
        final(slice)@.to_multiset() == old(slice)@.to_multiset(),
        obeys_cmp::<T>() ==> sorted_by(final(slice)@, ord_lt::<T>()),
        obeys_cmp::<T>() ==> exists|perm: Seq<int>|
            #[trigger] reordered_by(old(slice)@, final(slice)@, perm) && stable(final(slice)@, perm, ord_lt::<T>()),
{
    sort_pred(slice, default_pred);
    proof {
        if obeys_cmp::<T>() {
            lemma_ord_lt_strict_weak_order::<T>();
            assert(computes(default_pred::<T>, ord_lt::<T>()));
            let perm = choose|perm: Seq<int>|
                {
                    &&& #[trigger] reordered_by(old(slice)@, slice@, perm)
                    &&& forall|lt: spec_fn(T, T) -> bool|
                        computes(default_pred::<T>, lt) && strict_weak_order(lt) ==> #[trigger] stable(slice@, perm, lt)
                };
            assert(stable(slice@, perm, ord_lt::<T>()));
        }
    }
}

/// Sort slice using a custom defined predicate
pub fn sort_pred<T, Pred>(slice: &mut [T], pred: Pred) where Pred: Fn(&T, &T) -> bool
    requires
        callable_on(pred, old(slice)@),
    ensures
        final(slice)@.len() == old(slice)@.len(),
        final(slice)@.to_multiset() == old(slice)@.to_multiset(),
        forall|lt: spec_fn(T, T) -> bool|
            computes(pred, lt) && strict_weak_order(lt) ==> #[trigger] sorted_by(final(slice)@, lt),
        exists|perm: Seq<int>|
            {
                &&& #[trigger] reordered_by(old(slice)@, final(slice)@, perm)
                &&& forall|lt: spec_fn(T, T) -> bool|
                    computes(pred, lt) && strict_weak_order(lt) ==> #[trigger] stable(final(slice)@, perm, lt)
            },
{
    let length = slice.len();
    let ghost s0 = slice@;
    let ghost mut perm: Seq<int> = Seq::new(s0.len(), |k: int| k);
    proof {
        assert(reordered_by(s0, slice@, perm));
    }
    if length <= 1 {
        proof {
            assert forall|lt: spec_fn(T, T) -> bool|
                computes(pred, lt) && strict_weak_order(lt) implies #[trigger] sorted_by(slice@, lt) by {
            }
            assert forall|lt: spec_fn(T, T) -> bool|
                computes(pred, lt) && strict_weak_order(lt) implies #[trigger] stable(slice@, perm, lt) by {
            }
        }
        return;
    }
    let mut i: usize = 0;
    while i < length
        invariant
            0 <= i <= length,
            length == slice@.len(),
            length == s0.len(),
            s0 == old(slice)@,
            callable_on(pred, s0),
            slice@.to_multiset() == s0.to_multiset(),
            forall|k: int| 0 <= k < length ==> s0.contains(#[trigger] slice@[k]),
            forall|lt: spec_fn(T, T) -> bool|
                computes(pred, lt) && strict_weak_order(lt) ==> #[trigger] bubbled(slice@, lt, length - i),
            reordered_by(s0, slice@, perm),
            forall|lt: spec_fn(T, T) -> bool|
                computes(pred, lt) && strict_weak_order(lt) ==> #[trigger] inversions_ordered(slice@, perm, lt),
        decreases length - i,
    {
        let m: usize = length - i - 1;
        let mut j: usize = 0;
        while j < m
            invariant
                0 <= i < length,
                m == length - i - 1,
                0 <= j <= m,
                length == slice@.len(),
                length == s0.len(),
                callable_on(pred, s0),
                slice@.to_multiset() == s0.to_multiset(),
                forall|k: int| 0 <= k < length ==> s0.contains(#[trigger] slice@[k]),
                forall|lt: spec_fn(T, T) -> bool|
                    computes(pred, lt) && strict_weak_order(lt) ==> #[trigger] bubbled(slice@, lt, length - i),
                forall|lt: spec_fn(T, T) -> bool, k: int|
                    computes(pred, lt) && strict_weak_order(lt) && 0 <= k < j ==> !#[trigger] lt(
                        slice@[j as int],
                        slice@[k],
                    ),
                s0 == old(slice)@,
                reordered_by(s0, slice@, perm),
                forall|lt: spec_fn(T, T) -> bool|
                    computes(pred, lt) && strict_weak_order(lt) ==> #[trigger] inversions_ordered(slice@, perm, lt),
            decreases m - j,
        {
            let ghost s = slice@;
            proof {
                assert(s0.contains(s[j + 1]));
                assert(s0.contains(s[j as int]));
            }
            let swap = pred(&slice[j + 1], &slice[j]);
            let ghost p0 = perm;
            if swap {
                slice.swap(j, j + 1);
                proof {
                    super::lemma_swap_multiset(s, j as int, j + 1);
                    perm = p0.update(j as int, p0[j + 1]).update(j + 1, p0[j as int]);
                    lemma_swap_keeps_inversions_ordered(s0, s, slice@, p0, perm, j as int, pred);
                }
            }
            proof {
                assert forall|lt: spec_fn(T, T) -> bool, k: int|
                    computes(pred, lt) && strict_weak_order(lt) && 0 <= k < j + 1 implies !#[trigger] lt(
                    slice@[j + 1],
                    slice@[k],
                ) by {
                    assert(swap == lt(s[j + 1], s[j as int]));
                    if k < j {
                        assert(!lt(s[j as int], s[k]));
                        if !swap {
                            assert(!lt(s[j + 1], s[j as int]));
                        }
                    } else {
                        if swap {
                            assert(!lt(s[j as int], s[j + 1]));
                        }
                    }
                }
                assert forall|lt: spec_fn(T, T) -> bool|
                    computes(pred, lt) && strict_weak_order(lt) implies #[trigger] bubbled(
                    slice@,
                    lt,
                    length - i,
                ) by {
                    assert(bubbled(s, lt, length - i));
                    assert forall|a: int, b: int|
                        0 <= a < length - i <= b < length implies !lt(#[trigger] slice@[b], #[trigger] slice@[a]) by {
                        if a == j || a == j + 1 {
                            assert(!lt(s[b], s[j + 1]));
                            assert(!lt(s[b], s[j as int]));
                        } else {
                            assert(!lt(s[b], s[a]));
                        }
                    }
                    assert forall|a: int, b: int|
                        length - i <= a < b < length implies !lt(#[trigger] slice@[b], #[trigger] slice@[a]) by {
                        assert(!lt(s[b], s[a]));
                    }
                }
            }
            j = j + 1;
        }
        proof {
            assert forall|lt: spec_fn(T, T) -> bool|
                computes(pred, lt) && strict_weak_order(lt) implies #[trigger] bubbled(slice@, lt, length - (i + 1)) by {
                assert(bubbled(slice@, lt, length - i));
                assert forall|k: int| 0 <= k < m implies !lt(slice@[m as int], #[trigger] slice@[k]) by {
                    assert(!lt(slice@[j as int], slice@[k]));
                }
                assert forall|a: int, b: int|
                    0 <= a < length - (i + 1) <= b < length implies !lt(#[trigger] slice@[b], #[trigger] slice@[a]) by {
                    if b == m {
                        assert(!lt(slice@[m as int], slice@[a]));
                    }
                }
                assert forall|a: int, b: int|
                    length - (i + 1) <= a < b < length implies !lt(#[trigger] slice@[b], #[trigger] slice@[a]) by {
                }
            }
        }
        i = i + 1;
    }
    proof {
        assert forall|lt: spec_fn(T, T) -> bool|
            computes(pred, lt) && strict_weak_order(lt) implies #[trigger] sorted_by(slice@, lt) by {
            assert(bubbled(slice@, lt, length - i));
        }
        assert forall|lt: spec_fn(T, T) -> bool|
            computes(pred, lt) && strict_weak_order(lt) implies #[trigger] stable(slice@, perm, lt) by {
            assert(inversions_ordered(slice@, perm, lt));
            assert forall|a: int, b: int|
                0 <= a < b < slice@.len() && !lt(#[trigger] slice@[a], #[trigger] slice@[b]) && !lt(
                    slice@[b],
                    slice@[a],
                ) implies perm[a] < perm[b] by {
                assert(perm[a] != perm[b]);
            }
        }
    }
}

/// Exchanging the neighbours at `j` and `j + 1`, when the later one is less than the earlier
/// one, keeps every inversion of the reordering ordered.
proof fn lemma_swap_keeps_inversions_ordered<T, Pred: Fn(&T, &T) -> bool>(
    s0: Seq<T>,
    s: Seq<T>,
    t: Seq<T>,
    p0: Seq<int>,
    p: Seq<int>,
    j: int,
    pred: Pred,
)
    requires
        0 <= j < j + 1 < s.len(),
        reordered_by(s0, s, p0),
        t == s.update(j, s[j + 1]).update(j + 1, s[j]),
        p == p0.update(j, p0[j + 1]).update(j + 1, p0[j]),
        pred.ensures((&s[j + 1], &s[j]), true),
        forall|lt: spec_fn(T, T) -> bool|
            computes(pred, lt) && strict_weak_order(lt) ==> #[trigger] inversions_ordered(s, p0, lt),
    ensures
        reordered_by(s0, t, p),
        forall|lt: spec_fn(T, T) -> bool|
            computes(pred, lt) && strict_weak_order(lt) ==> #[trigger] inversions_ordered(t, p, lt),
{
    let sigma = |x: int| if x == j { j + 1 } else if x == j + 1 { j } else { x };
    assert forall|k: int| 0 <= k < t.len() implies #[trigger] t[k] == s[sigma(k)] && p[k] == p0[sigma(k)] by {}
    assert forall|a: int, b: int| 0 <= a < b < p.len() implies #[trigger] p[a] != #[trigger] p[b] by {
        assert(p[a] == p0[sigma(a)] && p[b] == p0[sigma(b)]);
        if sigma(a) < sigma(b) {
            assert(p0[sigma(a)] != p0[sigma(b)]);
        } else {
            assert(p0[sigma(b)] != p0[sigma(a)]);
        }
    }
    assert forall|k: int| 0 <= k < t.len() implies #[trigger] t[k] == s0[p[k]] by {
        assert(t[k] == s[sigma(k)]);
        assert(p[k] == p0[sigma(k)]);
    }
    assert forall|k: int| 0 <= k < p.len() implies 0 <= #[trigger] p[k] < s0.len() by {
        assert(p[k] == p0[sigma(k)]);
    }
    assert forall|lt: spec_fn(T, T) -> bool|
        computes(pred, lt) && strict_weak_order(lt) implies #[trigger] inversions_ordered(t, p, lt) by {
        assert(inversions_ordered(s, p0, lt));
        assert(lt(s[j + 1], s[j]));
        assert forall|a: int, b: int| 0 <= a < b < t.len() && #[trigger] p[a] > #[trigger] p[b] implies lt(
            t[a],
            t[b],
        ) by {
            assert(t[a] == s[sigma(a)] && p[a] == p0[sigma(a)]);
            assert(t[b] == s[sigma(b)] && p[b] == p0[sigma(b)]);
            if !(a == j && b == j + 1) {
                assert(sigma(a) < sigma(b));
                assert(p0[sigma(a)] > p0[sigma(b)]);
            }
        }
    }
}

/// `t` is `s` reordered by `perm`: `perm` lists each index of `s` once, and `t[k]` is
/// `s[perm[k]]`.
pub open spec fn reordered_by<T>(s: Seq<T>, t: Seq<T>, perm: Seq<int>) -> bool {
    &&& perm.len() == s.len()
    &&& t.len() == s.len()
    &&& forall|k: int| 0 <= k < perm.len() ==> 0 <= #[trigger] perm[k] < s.len()
    &&& forall|a: int, b: int| 0 <= a < b < perm.len() ==> #[trigger] perm[a] != #[trigger] perm[b]
    &&& forall|k: int| 0 <= k < t.len() ==> #[trigger] t[k] == s[perm[k]]
}

/// Every two elements that `perm` puts out of their original order are ordered by `lt`: the
/// one placed first is less than the other.
pub open spec fn inversions_ordered<T>(t: Seq<T>, perm: Seq<int>, lt: spec_fn(T, T) -> bool) -> bool {
    forall|a: int, b: int|
        0 <= a < b < t.len() && #[trigger] perm[a] > #[trigger] perm[b] ==> lt(t[a], t[b])
}

/// Equivalent elements, neither less than the other by `lt`, keep their original order.
pub open spec fn stable<T>(t: Seq<T>, perm: Seq<int>, lt: spec_fn(T, T) -> bool) -> bool {
    forall|a: int, b: int|
        0 <= a < b < t.len() && !lt(#[trigger] t[a], #[trigger] t[b]) && !lt(t[b], t[a]) ==> perm[a]
            < perm[b]
}

/// The last elements of `s`, from index `from` on, are sorted by `lt` and none is less
/// than an element before `from`.
pub open spec fn bubbled<T>(s: Seq<T>, lt: spec_fn(T, T) -> bool, from: int) -> bool {
    &&& forall|a: int, b: int| 0 <= a < from <= b < s.len() ==> !lt(#[trigger] s[b], #[trigger] s[a])
    &&& forall|a: int, b: int| from <= a < b < s.len() ==> !lt(#[trigger] s[b], #[trigger] s[a])
}

} // verus!

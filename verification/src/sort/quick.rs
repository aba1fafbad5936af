//! Quick sort sorting algorithm module
use super::helper::{default_pred, lemma_ord_lt_strict_weak_order, ord_lt};
use super::{callable_on, computes, sorted_by, strict_weak_order};
use vstd::laws_cmp::obeys_cmp;
use vstd::prelude::*;
use vstd::std_specs::cmp::{PartialOrdIs, PartialOrdSpec};

verus! {

/// `pred` never says that an element comes before itself.
pub open spec fn irreflexive<T, P: Fn(&T, &T) -> bool>(pred: P) -> bool {
    forall|a: T, r: bool| #[trigger] pred.ensures((&a, &a), r) ==> !r
}

/// `pred` may return `r` when called on the elements of `s` at `a` and `b`.
pub open spec fn answers_at<T, P: Fn(&T, &T) -> bool>(pred: P, s: Seq<T>, a: usize, b: usize, r: bool) -> bool {
    pred.ensures((&s[a as int], &s[b as int]), r)
}

/// The element of `s` at `m` is a median of those at `m`, `x` and `y`, which are the first,
/// middle and last positions of `s` in some order: for any strict weak order that `pred`
/// computes, it is not less than the element at `x` and not greater than the one at `y`.
pub open spec fn median_at<T, P: Fn(&T, &T) -> bool>(s: Seq<T>, pred: P, m: usize, x: usize, y: usize) -> bool {
    &&& seq![x, m, y].to_multiset() == seq![0usize, (s.len() / 2) as usize, (s.len() - 1) as usize].to_multiset()
    &&& forall|lt: spec_fn(T, T) -> bool|
        computes(pred, lt) && strict_weak_order(lt) ==> !#[trigger] lt(s[m as int], s[x as int]) && !lt(
            s[y as int],
            s[m as int],
        )
}

/// Pick the median, by `pred`, of the first, middle and last elements of `slice`, and return
/// its index.
fn three_sample_median<T, Pred>(slice: &mut [T], pred: &Pred) -> (r: usize) where
    Pred: Fn(&T, &T) -> bool,
    requires
        old(slice)@.len() > 3,
        callable_on(*pred, old(slice)@),
    ensures
        final(slice)@ == old(slice)@,
        r == 0 || r == old(slice)@.len() / 2 || r == old(slice)@.len() - 1,
        exists|x: usize, y: usize| #[trigger] median_at(old(slice)@, *pred, r, x, y),
{
    let len: usize = slice.len();
    let mut options = [0usize, slice.len() >> 1, slice.len() - 1];
    proof {
        assert(len >> 1 == len / 2) by (bit_vector);
    }
    let s: &[T] = slice;
    let by_value = |a: &usize, b: &usize| -> (r: bool)
        requires
            *a < s@.len(),
            *b < s@.len(),
            pred.requires((&s@[*a as int], &s@[*b as int])),
        ensures
            answers_at(pred, s@, *a, *b, r),
        {
            let i: usize = *a;
            let j: usize = *b;
            pred(&s[i], &s[j])
        };
    let ghost o0 = options@;
    proof {
        assert(o0 =~= seq![0usize, (len / 2) as usize, (len - 1) as usize]);
        assert forall|x: usize, y: usize| o0.contains(x) && o0.contains(y) implies #[trigger] by_value.requires(
            (&x, &y),
        ) by {
            let ix = choose|i: int| 0 <= i < o0.len() && o0[i] == x;
            let iy = choose|i: int| 0 <= i < o0.len() && o0[i] == y;
            assert(x < len);
            assert(y < len);
            assert(s@.contains(s@[x as int]));
            assert(s@.contains(s@[y as int]));
        }
    }
    super::bubble::sort_pred(&mut options, by_value);
    proof {
        broadcast use vstd::seq_lib::group_to_multiset_ensures;

        let so = options@;
        assert(so =~= seq![so[0], so[1], so[2]]);
        assert(options@.contains(options@[1]));
        assert(options@.to_multiset().count(options@[1]) > 0);
        assert(o0.contains(options@[1]));
        assert forall|lt: spec_fn(T, T) -> bool|
            computes(*pred, lt) && strict_weak_order(lt) implies !#[trigger] lt(
            s@[so[1] as int],
            s@[so[0] as int],
        ) && !lt(s@[so[2] as int], s@[so[1] as int]) by {
            let lti = |a: usize, b: usize| lt(s@[a as int], s@[b as int]);
            assert forall|a: usize, b: usize, r: bool| #[trigger] by_value.ensures((&a, &b), r) implies r
                == lti(a, b) by {
                assert(answers_at(*pred, s@, a, b, r));
            }
            assert(computes(by_value, lti));
            assert(strict_weak_order(lti)) by {
                assert forall|a: usize| !#[trigger] lti(a, a) by {
                    assert(!lt(s@[a as int], s@[a as int]));
                }
                assert forall|a: usize, b: usize, c: usize| #![trigger lti(a, b), lti(b, c)] lti(a, b) && lti(
                    b,
                    c,
                ) implies lti(a, c) by {
                    assert(lt(s@[a as int], s@[b as int]) && lt(s@[b as int], s@[c as int]));
                }
                assert forall|a: usize, b: usize, c: usize|
                    #![trigger lti(a, b), lti(b, c), lti(a, c)]
                    !lti(a, b) && !lti(b, c) implies !lti(a, c) by {
                    assert(!lt(s@[a as int], s@[b as int]) && !lt(s@[b as int], s@[c as int]));
                    assert(!lt(s@[a as int], s@[c as int]));
                }
            }
            assert(sorted_by(so, lti));
            assert(!lti(so[1], so[0]));
            assert(!lti(so[2], so[1]));
        }
        assert(seq![so[0], so[1], so[2]].to_multiset() == seq![
            0usize,
            (len / 2) as usize,
            (len - 1) as usize,
        ].to_multiset());
    }
    let r = options[1];
    proof {
        let x = options@[0];
        let y = options@[2];
        assert(median_at(old(slice)@, *pred, r, x, y));
    }
    r
}

/// The bounds of the middle part of a partitioned slice: the elements at `lower..=upper`
/// are those equivalent to the pivot.
#[derive(Debug, PartialEq, Eq, Structural)]
pub struct Partition {
    pub upper: usize,
    pub lower: usize,
}

/// The elements of `s` before `lower` are less than `p`, those in `lower..equals` are
/// equivalent to `p`, and those after `upper` are greater than `p`.
pub open spec fn three_way<T>(s: Seq<T>, lt: spec_fn(T, T) -> bool, p: T, lower: int, equals: int, upper: int) -> bool {
    &&& forall|k: int| 0 <= k < lower ==> lt(#[trigger] s[k], p)
    &&& forall|k: int| lower <= k < equals ==> !lt(#[trigger] s[k], p) && !lt(p, s[k])
    &&& forall|k: int| upper < k < s.len() ==> lt(p, #[trigger] s[k])
}

/// `s` is split at `lower..=upper`: every element before `lower` is less than every element
/// of the middle part, every element of the middle part is less than every element after
/// `upper`, and the elements of the middle part are equivalent to one another.
pub open spec fn partitioned<T>(s: Seq<T>, lt: spec_fn(T, T) -> bool, lower: int, upper: int) -> bool {
    &&& forall|k: int, m: int| 0 <= k < lower <= m <= upper ==> lt(#[trigger] s[k], #[trigger] s[m])
    &&& forall|m: int, k: int| lower <= m <= upper < k < s.len() ==> lt(#[trigger] s[m], #[trigger] s[k])
    &&& forall|a: int, b: int| lower <= a <= upper && lower <= b <= upper ==> !lt(#[trigger] s[a], #[trigger] s[b])
}

/// Partition the slice using the dutch flag method: the pivot is the median of the first,
/// middle and last elements; the elements less than it come first, then those equivalent
/// to it, at `lower..=upper`, then those greater than it.
pub fn partition<T, Pred>(slice: &mut [T], pred: &Pred) -> (r: Partition) where
    Pred: Fn(&T, &T) -> bool,
    requires
        old(slice)@.len() > 3,
        callable_on(*pred, old(slice)@),
        irreflexive(*pred),
    ensures
        final(slice)@.len() == old(slice)@.len(),
        final(slice)@.to_multiset() == old(slice)@.to_multiset(),
        r.lower <= r.upper < old(slice)@.len(),
        forall|lt: spec_fn(T, T) -> bool|
            computes(*pred, lt) && strict_weak_order(lt) ==> #[trigger] partitioned(
                final(slice)@,
                lt,
                r.lower as int,
                r.upper as int,
            ),
        exists|m: usize, x: usize, y: usize|
            {
                &&& #[trigger] median_at(old(slice)@, *pred, m, x, y)
                &&& forall|lt: spec_fn(T, T) -> bool|
                    computes(*pred, lt) && strict_weak_order(lt) ==> #[trigger] three_way(
                        final(slice)@,
                        lt,
                        old(slice)@[m as int],
                        r.lower as int,
                        r.upper + 1,
                        r.upper as int,
                    )
            },
{
    let ghost s0 = slice@;
    let median_idx = three_sample_median(slice, pred);
    let len: usize = slice.len();
    let mut pivot_idx: usize = len >> 1;
    proof {
        assert(len >> 1 == len / 2) by (bit_vector);
    }
    slice.swap(median_idx, pivot_idx);
    proof {
        super::lemma_swap_multiset(s0, median_idx as int, pivot_idx as int);
    }
    let ghost p = slice@[pivot_idx as int];
    assert(p == s0[median_idx as int]);
    let mut less_than: usize = 0;
    let mut greater_than: usize = slice.len() - 1;
    let mut equals: usize = 0;
    while equals <= greater_than
        invariant
            slice@.len() == s0.len(),
            s0.len() > 3,
            s0 == old(slice)@,
            callable_on(*pred, s0),
            irreflexive(*pred),
            slice@.to_multiset() == s0.to_multiset(),
            forall|k: int| 0 <= k < s0.len() ==> s0.contains(#[trigger] slice@[k]),
            less_than <= equals,
            equals <= greater_than + 1,
            greater_than < s0.len(),
            less_than <= pivot_idx <= greater_than,
            slice@[pivot_idx as int] == p,
            forall|lt: spec_fn(T, T) -> bool|
                computes(*pred, lt) && strict_weak_order(lt) ==> #[trigger] three_way(
                    slice@,
                    lt,
                    p,
                    less_than as int,
                    equals as int,
                    greater_than as int,
                ),
        decreases greater_than + 1 - equals,
    {
        let ghost s = slice@;
        proof {
            assert(s0.contains(s[equals as int]));
            assert(s0.contains(s[pivot_idx as int]));
        }
        if pred(&slice[equals], &slice[pivot_idx]) {
            proof {
                if pivot_idx == equals {
                    assert((*pred).ensures((&p, &p), true));
                }
            }
            slice.swap(equals, less_than);
            proof {
                super::lemma_swap_multiset(s, equals as int, less_than as int);
                assert forall|lt: spec_fn(T, T) -> bool|
                    computes(*pred, lt) && strict_weak_order(lt) implies #[trigger] three_way(
                    slice@,
                    lt,
                    p,
                    less_than + 1,
                    equals + 1,
                    greater_than as int,
                ) by {
                    assert(three_way(s, lt, p, less_than as int, equals as int, greater_than as int));
                    assert(lt(s[equals as int], p));
                    assert forall|k: int| less_than + 1 <= k < equals + 1 implies !lt(#[trigger] slice@[k], p)
                        && !lt(p, slice@[k]) by {
                        if k == equals {
                            assert(!lt(s[less_than as int], p) && !lt(p, s[less_than as int]));
                        } else {
                            assert(!lt(s[k], p) && !lt(p, s[k]));
                        }
                    }
                }
            }
            if pivot_idx == less_than {
                pivot_idx = equals;
            }
            less_than += 1;
            equals += 1;
        } else if pred(&slice[pivot_idx], &slice[equals]) {
            proof {
                if pivot_idx == equals {
                    assert((*pred).ensures((&p, &p), true));
                }
                if greater_than == 0 {
                    assert(pivot_idx == equals);
                }
            }
            slice.swap(equals, greater_than);
            proof {
                super::lemma_swap_multiset(s, equals as int, greater_than as int);
                assert forall|lt: spec_fn(T, T) -> bool|
                    computes(*pred, lt) && strict_weak_order(lt) implies #[trigger] three_way(
                    slice@,
                    lt,
                    p,
                    less_than as int,
                    equals as int,
                    greater_than - 1,
                ) by {
                    assert(three_way(s, lt, p, less_than as int, equals as int, greater_than as int));
                    assert(lt(p, s[equals as int]));
                    assert forall|k: int| greater_than - 1 < k < slice@.len() implies lt(p, #[trigger] slice@[k]) by {
                        if k == greater_than {
                        } else {
                            assert(lt(p, s[k]));
                        }
                    }
                }
            }
            if pivot_idx == greater_than {
                pivot_idx = equals;
            }
            greater_than -= 1;
        } else {
            proof {
                assert forall|lt: spec_fn(T, T) -> bool|
                    computes(*pred, lt) && strict_weak_order(lt) implies #[trigger] three_way(
                    slice@,
                    lt,
                    p,
                    less_than as int,
                    equals + 1,
                    greater_than as int,
                ) by {
                    assert(three_way(s, lt, p, less_than as int, equals as int, greater_than as int));
                    assert(!lt(s[equals as int], p));
                    assert(!lt(p, s[equals as int]));
                }
            }
            equals += 1;
        }
    }
    proof {
        assert forall|lt: spec_fn(T, T) -> bool|
            computes(*pred, lt) && strict_weak_order(lt) implies #[trigger] partitioned(
            slice@,
            lt,
            less_than as int,
            greater_than as int,
        ) by {
            assert(three_way(slice@, lt, p, less_than as int, equals as int, greater_than as int));
        }
        let (x, y) = choose|x: usize, y: usize| median_at(s0, *pred, median_idx, x, y);
        assert(median_at(s0, *pred, median_idx, x, y));
        assert(equals == greater_than + 1);
    }
    Partition { upper: greater_than, lower: less_than }
}

/// Every element of `s` occurs in `t` when the two hold the same multiset.
proof fn lemma_same_elements<T>(s: Seq<T>, t: Seq<T>)
    requires
        s.to_multiset() == t.to_multiset(),
    ensures
        forall|k: int| 0 <= k < s.len() ==> t.contains(#[trigger] s[k]),
{
    broadcast use vstd::seq_lib::group_to_multiset_ensures;

    assert forall|k: int| 0 <= k < s.len() implies t.contains(#[trigger] s[k]) by {
        assert(s.contains(s[k]));
        assert(s.to_multiset().count(s[k]) > 0);
    }
}

fn sort_pred_priv<T, Pred>(slice: &mut [T], pred: &Pred) where Pred: Fn(&T, &T) -> bool
    requires
        callable_on(*pred, old(slice)@),
        irreflexive(*pred),
    ensures
        final(slice)@.len() == old(slice)@.len(),
        final(slice)@.to_multiset() == old(slice)@.to_multiset(),
        forall|lt: spec_fn(T, T) -> bool|
            computes(*pred, lt) && strict_weak_order(lt) ==> #[trigger] sorted_by(final(slice)@, lt),
    decreases old(slice)@.len(),
{
    let length = slice.len();
    if length <= 3 {
        super::bubble::sort_pred(slice, pred);
        return;
    }
    let ghost s0 = slice@;
    let partitions = partition(slice, pred);
    let ghost s1 = slice@;
    let lower = partitions.lower;
    let upper = partitions.upper;
    proof {
        lemma_same_elements(s1, s0);
        assert forall|x: T, y: T| s1.contains(x) && s1.contains(y) implies #[trigger] (*pred).requires(
            (&x, &y),
        ) by {
            let i = choose|i: int| 0 <= i < s1.len() && s1[i] == x;
            let j = choose|j: int| 0 <= j < s1.len() && s1[j] == y;
            assert(s0.contains(s1[i]));
            assert(s0.contains(s1[j]));
        }
    }
    let ghost mut lpart = s1.subrange(0, lower as int);
    if lower >= 1 {
        let ghost before = slice@;
        let (left, rest) = slice.split_at_mut(lower);
        proof {
            assert forall|x: T, y: T| left@.contains(x) && left@.contains(y) implies #[trigger] (*pred).requires(
                (&x, &y),
            ) by {
                let i = choose|i: int| 0 <= i < left@.len() && left@[i] == x;
                let j = choose|j: int| 0 <= j < left@.len() && left@[j] == y;
                assert(before.contains(before[i]));
                assert(before.contains(before[j]));
            }
        }
        let ghost rest_v = rest@;
        sort_pred_priv(left, pred);
        let ghost left_v = left@;
        proof {
            assert(slice@ == left_v + rest_v);
            lpart = left_v;
        }
    }
    let ghost s2 = slice@;
    proof {
        assert(s2 =~= lpart + s1.subrange(lower as int, length as int));
        assert(s2.subrange(lower as int, length as int) =~= s1.subrange(lower as int, length as int));
        assert(s2.subrange(0, lower as int) =~= lpart);
        assert(lpart.to_multiset() == s1.subrange(0, lower as int).to_multiset());
        assert forall|lt: spec_fn(T, T) -> bool|
            computes(*pred, lt) && strict_weak_order(lt) implies #[trigger] sorted_by(lpart, lt) by {
            if lower >= 1 {
                assert(sorted_by(lpart, lt));
            }
        }
        assert(s2 =~= s2.subrange(0, lower as int) + s2.subrange(lower as int, length as int));
        assert(s1 =~= s1.subrange(0, lower as int) + s1.subrange(lower as int, length as int));
        vstd::seq_lib::lemma_multiset_commutative(s2.subrange(0, lower as int), s2.subrange(lower as int, length as int));
        vstd::seq_lib::lemma_multiset_commutative(s1.subrange(0, lower as int), s1.subrange(lower as int, length as int));
        lemma_same_elements(s2, s1);
        assert forall|x: T, y: T| s2.contains(x) && s2.contains(y) implies #[trigger] (*pred).requires(
            (&x, &y),
        ) by {
            let i = choose|i: int| 0 <= i < s2.len() && s2[i] == x;
            let j = choose|j: int| 0 <= j < s2.len() && s2[j] == y;
            assert(s1.contains(s2[i]));
            assert(s1.contains(s2[j]));
        }
    }
    let ghost mut rpart = s2.subrange(upper + 1, length as int);
    if upper < length - 1 {
        let ghost before = slice@;
        let (rest, right) = slice.split_at_mut(upper + 1);
        proof {
            assert forall|x: T, y: T| right@.contains(x) && right@.contains(y) implies #[trigger] (*pred).requires(
                (&x, &y),
            ) by {
                let i = choose|i: int| 0 <= i < right@.len() && right@[i] == x;
                let j = choose|j: int| 0 <= j < right@.len() && right@[j] == y;
                assert(before.contains(before[upper + 1 + i]));
                assert(before.contains(before[upper + 1 + j]));
            }
        }
        let ghost rest_v = rest@;
        sort_pred_priv(right, pred);
        let ghost right_v = right@;
        proof {
            assert(slice@ == rest_v + right_v);
            rpart = right_v;
        }
    }
    proof {
        let t = slice@;
        let n = length as int;
        assert(t =~= s2.subrange(0, upper + 1) + rpart);
        assert(t.subrange(upper + 1, n) =~= rpart);
        assert(rpart.to_multiset() == s2.subrange(upper + 1, n).to_multiset());
        assert forall|lt: spec_fn(T, T) -> bool|
            computes(*pred, lt) && strict_weak_order(lt) implies #[trigger] sorted_by(t.subrange(upper + 1, n), lt) by {
            if upper < length - 1 {
                assert(sorted_by(rpart, lt));
            }
        }
        assert(t.subrange(0, upper + 1) =~= s2.subrange(0, upper + 1));
        assert(t.subrange(lower as int, upper + 1) =~= s1.subrange(lower as int, upper + 1)) by {
            assert(t.subrange(lower as int, upper + 1) =~= s2.subrange(0, upper + 1).subrange(lower as int, upper + 1));
            assert(s2.subrange(lower as int, n).subrange(0, upper + 1 - lower) =~= s2.subrange(lower as int, upper + 1));
            assert(s1.subrange(lower as int, n).subrange(0, upper + 1 - lower) =~= s1.subrange(lower as int, upper + 1));
        }
        assert(t.subrange(0, lower as int) =~= s2.subrange(0, lower as int));
        assert(t.subrange(upper + 1, n).to_multiset() == s1.subrange(upper + 1, n).to_multiset()) by {
            assert(s2.subrange(upper + 1, n) =~= s1.subrange(upper + 1, n)) by {
                assert(s2.subrange(upper + 1, n) =~= s2.subrange(lower as int, n).subrange(upper + 1 - lower, n - lower));
                assert(s1.subrange(upper + 1, n) =~= s1.subrange(lower as int, n).subrange(upper + 1 - lower, n - lower));
            }
        }
        lemma_sorted_parts(s1, t, *pred, lower as int, upper as int);
        assert(s1.to_multiset() == s0.to_multiset());
    }
}

/// A slice partitioned at `lower..=upper` whose outer parts are each permuted into sorted
/// order is sorted.
proof fn lemma_sorted_parts<T, Pred: Fn(&T, &T) -> bool>(s: Seq<T>, t: Seq<T>, pred: Pred, lower: int, upper: int)
    requires
        s.len() == t.len(),
        0 <= lower <= upper < s.len(),
        t.subrange(lower, upper + 1) == s.subrange(lower, upper + 1),
        t.subrange(0, lower).to_multiset() == s.subrange(0, lower).to_multiset(),
        t.subrange(upper + 1, s.len() as int).to_multiset() == s.subrange(upper + 1, s.len() as int).to_multiset(),
        forall|lt: spec_fn(T, T) -> bool|
            computes(pred, lt) && strict_weak_order(lt) ==> #[trigger] partitioned(s, lt, lower, upper),
        forall|lt: spec_fn(T, T) -> bool|
            computes(pred, lt) && strict_weak_order(lt) ==> #[trigger] sorted_by(t.subrange(0, lower), lt),
        forall|lt: spec_fn(T, T) -> bool|
            computes(pred, lt) && strict_weak_order(lt) ==> #[trigger] sorted_by(
                t.subrange(upper + 1, s.len() as int),
                lt,
            ),
    ensures
        t.to_multiset() == s.to_multiset(),
        forall|lt: spec_fn(T, T) -> bool|
            computes(pred, lt) && strict_weak_order(lt) ==> #[trigger] sorted_by(t, lt),
{
    let n = s.len() as int;
    let tl = t.subrange(0, lower);
    let tm = t.subrange(lower, upper + 1);
    let tr = t.subrange(upper + 1, n);
    let sl = s.subrange(0, lower);
    let sm = s.subrange(lower, upper + 1);
    let sr = s.subrange(upper + 1, n);
    assert(t =~= tl + tm + tr);
    assert(s =~= sl + sm + sr);
    vstd::seq_lib::lemma_multiset_commutative(tl, tm);
    vstd::seq_lib::lemma_multiset_commutative(tl + tm, tr);
    vstd::seq_lib::lemma_multiset_commutative(sl, sm);
    vstd::seq_lib::lemma_multiset_commutative(sl + sm, sr);
    lemma_same_elements(tl, sl);
    lemma_same_elements(tr, sr);
    assert forall|lt: spec_fn(T, T) -> bool|
        computes(pred, lt) && strict_weak_order(lt) implies #[trigger] sorted_by(t, lt) by {
        assert(partitioned(s, lt, lower, upper));
        assert(sorted_by(tl, lt));
        assert(sorted_by(tr, lt));
        assert forall|i: int, j: int| 0 <= i < j < n implies !lt(#[trigger] t[j], #[trigger] t[i]) by {
            // where each of the two elements came from in `s`
            let si = if i < lower {
                choose|k: int| 0 <= k < sl.len() && sl[k] == t[i]
            } else if i <= upper {
                i
            } else {
                upper + 1 + choose|k: int| 0 <= k < sr.len() && sr[k] == t[i]
            };
            let sj = if j < lower {
                choose|k: int| 0 <= k < sl.len() && sl[k] == t[j]
            } else if j <= upper {
                j
            } else {
                upper + 1 + choose|k: int| 0 <= k < sr.len() && sr[k] == t[j]
            };
            if i < lower {
                assert(sl.contains(tl[i]));
                assert(s[si] == t[i]);
            } else if i <= upper {
                assert(tm[i - lower] == sm[i - lower]);
                assert(s[si] == t[i]);
            } else {
                assert(sr.contains(tr[i - upper - 1]));
                assert(s[si] == t[i]);
            }
            if j < lower {
                assert(sl.contains(tl[j]));
                assert(s[sj] == t[j]);
            } else if j <= upper {
                assert(tm[j - lower] == sm[j - lower]);
                assert(s[sj] == t[j]);
            } else {
                assert(sr.contains(tr[j - upper - 1]));
                assert(s[sj] == t[j]);
            }
            if j < lower {
                assert(!lt(tl[j], tl[i]));
            } else if i > upper {
                assert(!lt(tr[j - upper - 1], tr[i - upper - 1]));
            } else if lower <= i && j <= upper {
                assert(!lt(s[sj], s[si]));
            } else if i < lower && j <= upper {
                assert(lt(s[si], s[sj]));
            } else if lower <= i && upper < j {
                assert(lt(s[si], s[sj]));
            } else {
                assert(lt(s[si], s[lower]));
                assert(lt(s[lower], s[sj]));
                assert(lt(s[si], s[sj]));
            }
        }
    }
}

/// Use the quick-sort algorithm to sort a slice
///
/// `<` on `T` must follow `partial_cmp` and never put an element before itself: an element
/// less than itself would run the partition out of the slice.
pub fn sort<T: Ord>(slice: &mut [T])
    requires
        T::obeys_partial_cmp_spec(),
        forall|a: T| #![trigger a.partial_cmp_spec(&a)] !a.is_lt(&a),
    ensures
        final(slice)@.len() == old(slice)@.len(),
        final(slice)@.to_multiset() == old(slice)@.to_multiset(),
        obeys_cmp::<T>() ==> sorted_by(final(slice)@, ord_lt::<T>()),
{
    proof {
        assert forall|a: T, r: bool| #[trigger] default_pred::<T>.ensures((&a, &a), r) implies !r by {
            assert(!a.is_lt(&a));
        }
    }
    sort_pred_priv(slice, &default_pred);
    proof {
        if obeys_cmp::<T>() {
            lemma_ord_lt_strict_weak_order::<T>();
            assert(computes(default_pred::<T>, ord_lt::<T>()));
        }
    }
}

/// Use the quick-sort algorithm to sort a slice
///
/// `pred` must never put an element before itself: that would run the partition out of
/// the slice.
pub fn sort_pred<T, Pred>(slice: &mut [T], pred: Pred) where Pred: Fn(&T, &T) -> bool
    requires
        callable_on(pred, old(slice)@),
        irreflexive(pred),
    ensures
        final(slice)@.len() == old(slice)@.len(),
        final(slice)@.to_multiset() == old(slice)@.to_multiset(),
        forall|lt: spec_fn(T, T) -> bool|
            computes(pred, lt) && strict_weak_order(lt) ==> #[trigger] sorted_by(final(slice)@, lt),
{
    sort_pred_priv(slice, &pred);
}

} // verus!

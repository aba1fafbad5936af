//! Binary search algorithm
use core::cmp::Ordering;
use super::{elem, idx, len_int, result_int};
use crate::sort::helper::{lemma_ord_lt_strict_weak_order, ord_lt};
use crate::sort::sorted_by;
use vstd::laws_cmp::obeys_cmp;
use vstd::prelude::*;
use vstd::std_specs::cmp::{OrdSpec, PartialOrdIs, PartialOrdSpec};

verus! {

/// Convenience wrapper around [`search_by`] that uses [`Ord::cmp`] as the function
///
/// # Errors
/// If the there is no equal value this function returns an error with the index location
/// to insert the value at.
pub fn search<T: Ord>(slice: &[T], target: &T) -> (r: Result<usize, usize>)
    ensures
        obeys_cmp::<T>() ==> match r {
            Ok(i) => {
                &&& i < slice@.len()
                &&& !elem(slice@, i).is_lt(target)
                &&& !target.is_lt(&elem(slice@, i))
            },
            Err(i) => {
                &&& i <= slice@.len()
                &&& i > 0 ==> slice@[i - 1].is_lt(target)
                &&& i < slice@.len() ==> target.is_lt(&elem(slice@, i))
            },
        },
        obeys_cmp::<T>() ==> result_int(r) == bisect(
            slice@,
            |a: T, b: T| a.cmp_spec(&b),
            *target,
            0,
            len_int(slice@),
        ),
        obeys_cmp::<T>() && sorted_by(slice@, ord_lt::<T>()) ==> (r matches Err(i) ==> {
            &&& forall|k: int| 0 <= k < i ==> (#[trigger] slice@[k]).is_lt(target)
            &&& forall|k: int| i <= k < slice@.len() ==> target.is_lt(&(#[trigger] slice@[k]))
        }),
{
    let compare = |lhs: &T, rhs: &T| -> (o: Ordering)
        ensures
            T::obeys_cmp_spec() ==> o == lhs.cmp_spec(rhs),
        { lhs.cmp(rhs) };
    let r = search_by(slice, target, compare);
    proof {
        if obeys_cmp::<T>() {
            lemma_ord_cmp_agrees::<T>();
            let ord = |a: T, b: T| a.cmp_spec(&b);
            assert forall|a: T, b: T, o: Ordering| #[trigger] compare.ensures((&a, &b), o) implies o == ord(
                a,
                b,
            ) by {}
            assert(computes_ord(compare, ord));
            assert(result_int(r) == bisect(slice@, ord, *target, 0, len_int(slice@)));
            if sorted_by(slice@, ord_lt::<T>()) {
                lemma_ord_lt_strict_weak_order::<T>();
                if let Err(i) = r {
                    let lt = ord_lt::<T>();
                    assert forall|k: int| 0 <= k < i implies (#[trigger] slice@[k]).is_lt(target) by {
                        if k < i - 1 {
                            assert(!lt(slice@[i - 1], slice@[k]));
                            assert(lt(slice@[i - 1], *target));
                            assert(lt(slice@[k], *target));
                        }
                    }
                    assert forall|k: int| i <= k < slice@.len() implies target.is_lt(&(#[trigger] slice@[k])) by {
                        if k > i {
                            assert(!lt(slice@[k], elem(slice@, i)));
                            assert(lt(*target, elem(slice@, i)));
                            assert(lt(*target, slice@[k]));
                        }
                    }
                }
            }
        }
    }
    r
}

/// With a lawful `Ord`, `cmp` answers `Less` exactly when `<` holds and `Greater` exactly
/// when `>` holds.
proof fn lemma_ord_cmp_agrees<T: Ord>()
    requires
        obeys_cmp::<T>(),
    ensures
        T::obeys_cmp_spec(),
        forall|a: T, b: T| #[trigger] a.cmp_spec(&b) == Ordering::Less <==> a.is_lt(&b),
        forall|a: T, b: T| #[trigger] a.cmp_spec(&b) == Ordering::Greater <==> b.is_lt(&a),
        forall|a: T, b: T|
            #[trigger] a.cmp_spec(&b) == Ordering::Equal ==> !a.is_lt(&b) && !b.is_lt(&a),
{
    reveal(vstd::laws_cmp::obeys_partial_cmp_spec_properties);
    reveal(vstd::laws_cmp::obeys_cmp_ord);
    assert forall|a: T, b: T| #[trigger] a.cmp_spec(&b) == Ordering::Greater <==> b.is_lt(&a) by {
        assert(a.partial_cmp_spec(&b) == Some(a.cmp_spec(&b)));
    }
    assert forall|a: T, b: T|
        #[trigger] a.cmp_spec(&b) == Ordering::Equal implies !a.is_lt(&b) && !b.is_lt(&a) by {
        assert(a.partial_cmp_spec(&b) == Some(a.cmp_spec(&b)));
        assert(b.partial_cmp_spec(&a) == Some(b.cmp_spec(&a)));
    }
}

/// `f` computes the comparison `ord`: whatever `f` may return on `(a, b)` is `ord(a, b)`.
pub open spec fn computes_ord<T, F: Fn(&T, &T) -> Ordering>(f: F, ord: spec_fn(T, T) -> Ordering) -> bool {
    forall|a: T, b: T, o: Ordering| #[trigger] f.ensures((&a, &b), o) ==> o == ord(a, b)
}

/// The outcome of bisecting `s[lo..hi]` for `target` by the comparison `ord`: compare the
/// middle element (the lower middle of an even run) with `target`; on `Equal` that index is
/// found, on `Less` the search goes on above it, on `Greater` below it; an empty range gives
/// its start as the place to insert.
pub open spec fn bisect<T>(s: Seq<T>, ord: spec_fn(T, T) -> Ordering, target: T, lo: int, hi: int) -> Result<int, int>
    decreases hi - lo,
{
    if hi <= lo {
        Err(lo)
    } else {
        let middle = (hi - lo) / 2 + lo;
        match ord(s[middle], target) {
            Ordering::Equal => Ok(middle),
            Ordering::Less => bisect(s, ord, target, middle + 1, hi),
            Ordering::Greater => bisect(s, ord, target, lo, middle),
        }
    }
}

/// Binary search a sorted slice using a custom comparison function, mirroring
/// `std::slice::binary_search_by`
///
/// # Errors
/// If the there is no equal value this function returns an error with the index location
/// to insert the value at.
///
/// # Notes
/// Might match in middle of a group of equal values.
pub fn search_by<T, F>(slice: &[T], target: &T, f: F) -> (r: Result<usize, usize>) where
    F: Fn(&T, &T) -> Ordering,
    requires
        forall|k: int| 0 <= k < slice@.len() ==> #[trigger] f.requires((&slice@[k], target)),
    ensures
        match r {
            Ok(i) => i < slice@.len() && f.ensures((&elem(slice@, i), target), Ordering::Equal),
            Err(i) => {
                &&& i <= slice@.len()
                &&& i > 0 ==> f.ensures((&slice@[i - 1], target), Ordering::Less)
                &&& i < slice@.len() ==> f.ensures((&elem(slice@, i), target), Ordering::Greater)
            },
        },
        forall|ord: spec_fn(T, T) -> Ordering|
            computes_ord(f, ord) ==> result_int(r) == #[trigger] bisect(
                slice@,
                ord,
                *target,
                0,
                len_int(slice@),
            ),
{
    let mut lo: usize = 0;
    let mut hi: usize = slice.len();
    while hi > lo
        invariant
            lo <= hi <= slice@.len(),
            forall|ord: spec_fn(T, T) -> Ordering|
                computes_ord(f, ord) ==> #[trigger] bisect(slice@, ord, *target, 0, len_int(slice@))
                    == bisect(slice@, ord, *target, idx(lo), idx(hi)),
            forall|k: int| 0 <= k < slice@.len() ==> #[trigger] f.requires((&slice@[k], target)),
            lo > 0 ==> f.ensures((&slice@[lo - 1], target), Ordering::Less),
            hi < slice@.len() ==> f.ensures((&elem(slice@, hi), target), Ordering::Greater),
        decreases hi - lo,
    {
        let middle = (hi - lo) / 2 + lo;
        let o = f(&slice[middle], target);
        proof {
            assert forall|ord: spec_fn(T, T) -> Ordering| computes_ord(f, ord) implies #[trigger] bisect(
                slice@,
                ord,
                *target,
                idx(lo),
                idx(hi),
            ) == match o {
                Ordering::Equal => Ok(idx(middle)),
                Ordering::Less => bisect(slice@, ord, *target, idx(middle) + 1, idx(hi)),
                Ordering::Greater => bisect(slice@, ord, *target, idx(lo), idx(middle)),
            } by {
                assert(f.ensures((&elem(slice@, middle), target), o));
                assert(o == ord(elem(slice@, middle), *target));
            }
        }
        match o {
            Ordering::Equal => return Ok(middle),
            Ordering::Less => lo = middle + 1,
            Ordering::Greater => hi = middle,
        }
    }
    Err(lo)
}

/// Find the lower boundary using a binary search algorithm.
///
/// This is a convenience wrapper around [`lower_bound_by`] that uses
/// an Ordinal types `<` operator
pub fn lower_bound<T: Ord>(slice: &[T], target: &T) -> (r: usize)
    ensures
        r <= slice@.len(),
        obeys_cmp::<T>() ==> {
            &&& r > 0 ==> slice@[r - 1].is_lt(target)
            &&& r < slice@.len() ==> !elem(slice@, r).is_lt(target)
        },
        obeys_cmp::<T>() && sorted_by(slice@, ord_lt::<T>()) ==> {
            &&& forall|k: int| 0 <= k < r ==> (#[trigger] slice@[k]).is_lt(target)
            &&& forall|k: int| r <= k < slice@.len() ==> !(#[trigger] slice@[k]).is_lt(target)
        },
{
    let r = lower_bound_by(slice, target, |lhs: &T, rhs: &T| -> (b: bool)
        ensures
            obeys_cmp::<T>() ==> b == lhs.is_lt(rhs),
        {
            proof {
                reveal(vstd::laws_cmp::obeys_cmp_partial_ord);
            }
            lhs < rhs
        });
    proof {
        if obeys_cmp::<T>() && sorted_by(slice@, ord_lt::<T>()) {
            lemma_ord_lt_strict_weak_order::<T>();
            let lt = ord_lt::<T>();
            assert forall|k: int| 0 <= k < r implies (#[trigger] slice@[k]).is_lt(target) by {
                if k < r - 1 {
                    assert(!lt(slice@[r - 1], slice@[k]));
                    assert(lt(slice@[r - 1], *target));
                    assert(lt(slice@[k], *target));
                }
            }
            assert forall|k: int| r <= k < slice@.len() implies !(#[trigger] slice@[k]).is_lt(target) by {
                if k > r {
                    assert(!lt(slice@[k], elem(slice@, r)));
                    assert(!lt(elem(slice@, r), *target));
                    assert(!lt(slice@[k], *target));
                }
            }
        }
    }
    r
}

/// Find the lower boundary using a binary search algorithm.
///
/// # Requirements
/// `pred` must implement a strict "less than" relationship. The same
/// function can be used by both [`lower_bound_by`] and [`upper_bound_by`]
pub fn lower_bound_by<T, Pred>(slice: &[T], target: &T, f: Pred) -> (r: usize) where
    Pred: Fn(&T, &T) -> bool,
    requires
        forall|k: int| 0 <= k < slice@.len() ==> #[trigger] f.requires((&slice@[k], target)),
    ensures
        r <= slice@.len(),
        r > 0 ==> f.ensures((&slice@[r - 1], target), true),
        r < slice@.len() ==> f.ensures((&elem(slice@, r), target), false),
{
    let mut lo: usize = 0;
    let mut hi: usize = slice.len();
    while hi > lo
        invariant
            lo <= hi <= slice@.len(),
            forall|k: int| 0 <= k < slice@.len() ==> #[trigger] f.requires((&slice@[k], target)),
            lo > 0 ==> f.ensures((&slice@[lo - 1], target), true),
            hi < slice@.len() ==> f.ensures((&elem(slice@, hi), target), false),
        decreases hi - lo,
    {
        let middle = (hi - lo) / 2 + lo;
        if f(&slice[middle], target) {
            lo = middle + 1;
        } else {
            hi = middle;
        }
    }
    lo
}

/// Find the upper boundary using a binary search algorithm
///
/// This is a convenience wrapper around [`upper_bound_by`] that uses
/// an Ordinal types `<` operator
pub fn upper_bound<T: Ord>(slice: &[T], target: &T) -> (r: usize)
    ensures
        r <= slice@.len(),
        obeys_cmp::<T>() ==> {
            &&& r > 0 ==> !target.is_lt(&slice@[r - 1])
            &&& r < slice@.len() ==> target.is_lt(&elem(slice@, r))
        },
        obeys_cmp::<T>() && sorted_by(slice@, ord_lt::<T>()) ==> {
            &&& forall|k: int| 0 <= k < r ==> !target.is_lt(&(#[trigger] slice@[k]))
            &&& forall|k: int| r <= k < slice@.len() ==> target.is_lt(&(#[trigger] slice@[k]))
        },
{
    let r = upper_bound_by(slice, target, |lhs: &T, rhs: &T| -> (b: bool)
        ensures
            obeys_cmp::<T>() ==> b == lhs.is_lt(rhs),
        {
            proof {
                reveal(vstd::laws_cmp::obeys_cmp_partial_ord);
            }
            lhs < rhs
        });
    proof {
        if obeys_cmp::<T>() && sorted_by(slice@, ord_lt::<T>()) {
            lemma_ord_lt_strict_weak_order::<T>();
            let lt = ord_lt::<T>();
            assert forall|k: int| 0 <= k < r implies !target.is_lt(&(#[trigger] slice@[k])) by {
                if k < r - 1 {
                    assert(!lt(slice@[r - 1], slice@[k]));
                    assert(!lt(*target, slice@[r - 1]));
                    assert(!lt(*target, slice@[k]));
                }
            }
            assert forall|k: int| r <= k < slice@.len() implies target.is_lt(&(#[trigger] slice@[k])) by {
                if k > r {
                    assert(!lt(slice@[k], elem(slice@, r)));
                    assert(lt(*target, elem(slice@, r)));
                    assert(lt(*target, slice@[k]));
                }
            }
        }
    }
    r
}

/// Find the upper boundary using a binary search algorithm
///
/// # Requirements
/// `pred` must implement a strict "less than" relationship. The same
/// function can be used by both [`lower_bound_by`] and [`upper_bound_by`]
pub fn upper_bound_by<T, F>(slice: &[T], target: &T, f: F) -> (r: usize) where
    F: Fn(&T, &T) -> bool,
    requires
        forall|k: int| 0 <= k < slice@.len() ==> #[trigger] f.requires((target, &slice@[k])),
    ensures
        r <= slice@.len(),
        r > 0 ==> f.ensures((target, &slice@[r - 1]), false),
        r < slice@.len() ==> f.ensures((target, &elem(slice@, r)), true),
{
    let mut lo: usize = 0;
    let mut hi: usize = slice.len();
    while hi > lo
        invariant
            lo <= hi <= slice@.len(),
            forall|k: int| 0 <= k < slice@.len() ==> #[trigger] f.requires((target, &slice@[k])),
            lo > 0 ==> f.ensures((target, &slice@[lo - 1]), false),
            hi < slice@.len() ==> f.ensures((target, &elem(slice@, hi)), true),
        decreases hi - lo,
    {
        let middle = (hi - lo) / 2 + lo;
        if f(target, &slice[middle]) {
            hi = middle;
        } else {
            lo = middle + 1;
        }
    }
    lo
}

/// For a sorted slice under a lawful `Ord`, the lower and upper bounds of `target` bracket
/// exactly the elements equivalent to it: `lower_bound <= upper_bound`, every element
/// between them is neither less nor greater than `target`, every other element is one of
/// the two, and so `upper_bound - lower_bound` is the number of elements equivalent to
/// `target`.
pub proof fn lemma_bounds_bracket_equivalent<T: Ord>(s: Seq<T>, target: T, lo: int, hi: int)
    requires
        obeys_cmp::<T>(),
        sorted_by(s, ord_lt::<T>()),
        0 <= lo <= s.len(),
        0 <= hi <= s.len(),
        forall|k: int| 0 <= k < lo ==> (#[trigger] s[k]).is_lt(&target),
        forall|k: int| lo <= k < s.len() ==> !(#[trigger] s[k]).is_lt(&target),
        forall|k: int| 0 <= k < hi ==> !target.is_lt(&(#[trigger] s[k])),
        forall|k: int| hi <= k < s.len() ==> target.is_lt(&(#[trigger] s[k])),
    ensures
        lo <= hi,
        forall|k: int| lo <= k < hi ==> !(#[trigger] s[k]).is_lt(&target) && !target.is_lt(&s[k]),
        forall|k: int|
            0 <= k < s.len() && !(lo <= k < hi) ==> (#[trigger] s[k]).is_lt(&target) || target.is_lt(
                &s[k],
            ),
        Set::new(|k: int| 0 <= k < s.len() && !s[k].is_lt(&target) && !target.is_lt(&s[k])).finite(),
        Set::new(|k: int| 0 <= k < s.len() && !s[k].is_lt(&target) && !target.is_lt(&s[k])).len() == hi
            - lo,
{
    lemma_ord_lt_strict_weak_order::<T>();
    let lt = ord_lt::<T>();
    if hi < lo {
        assert(lt(s[hi], target));
        assert(lt(target, s[hi]));
        assert(lt(s[hi], s[hi]));
    }
    let equivalent = Set::new(|k: int| 0 <= k < s.len() && !s[k].is_lt(&target) && !target.is_lt(&s[k]));
    assert(equivalent =~= vstd::set_lib::set_int_range(lo, hi));
    vstd::set_lib::lemma_int_range(lo, hi);
}

} // verus!

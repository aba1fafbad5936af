//! Linear search algorithm
use vstd::prelude::*;
use vstd::std_specs::cmp::PartialEqSpec;

verus! {

/// Search for target using a linear scan, returning the index of the first match
pub fn search<T: PartialEq>(slice: &[T], target: &T) -> (r: Option<usize>)
    ensures
        T::obeys_eq_spec() ==> match r {
            Some(i) => {
                &&& i < slice@.len()
                &&& slice@[i as int].eq_spec(target)
                &&& forall|j: int| 0 <= j < i ==> !(#[trigger] slice@[j]).eq_spec(target)
            },
            None => forall|j: int| 0 <= j < slice@.len() ==> !(#[trigger] slice@[j]).eq_spec(target),
        },
{
    let equal = |lhs: &T, rhs: &T| -> (b: bool)
        ensures
            T::obeys_eq_spec() ==> b == lhs.eq_spec(rhs),
        { lhs == rhs };
    let r = search_pred(slice, target, equal);
    proof {
        let n = match r {
            Some(i) => i as int,
            None => slice@.len() as int,
        };
        assert forall|j: int| 0 <= j < n implies !(#[trigger] slice@[j]).eq_spec(target) || !T::obeys_eq_spec() by {
            assert(equal.ensures((&slice@[j], target), false));
        }
    }
    r
}

/// Search using a custom predicate, returning the index of the first item for which
/// `pred` returns true
pub fn search_pred<T, Pred>(slice: &[T], target: &T, pred: Pred) -> (r: Option<usize>) where
    Pred: Fn(&T, &T) -> bool,
    requires
        forall|i: int| 0 <= i < slice@.len() ==> #[trigger] pred.requires((&slice@[i], target)),
    ensures
        match r {
            Some(i) => {
                &&& i < slice@.len()
                &&& pred.ensures((&slice@[i as int], target), true)
                &&& forall|j: int| 0 <= j < i ==> #[trigger] pred.ensures((&slice@[j], target), false)
            },
            None => forall|j: int| 0 <= j < slice@.len() ==> #[trigger] pred.ensures((&slice@[j], target), false),
        },
{
    let mut i: usize = 0;
    while i < slice.len()
        invariant
            i <= slice@.len(),
            forall|k: int| 0 <= k < slice@.len() ==> #[trigger] pred.requires((&slice@[k], target)),
            forall|j: int| 0 <= j < i ==> #[trigger] pred.ensures((&slice@[j], target), false),
        decreases slice@.len() - i,
    {
        let found = pred(&slice[i], target);
        if found {
            return Some(i);
        }
        i = i + 1;
    }
    None
}

} // verus!

//! Collections and algorithms: a growable vector, a robin-hood hash map,
//! sorting and searching over slices.
use vstd::prelude::*;

pub mod hashmap;
pub mod sort;
pub mod vector;
pub mod search;

verus! {

/// `<[T]>::swap` exchanges the elements at the two indices; std documents that it panics
/// when either index is out of bounds, which `requires` leaves out.
pub assume_specification<E>[ <[E]>::swap ](slice: &mut [E], a: usize, b: usize)
    requires
        a < old(slice)@.len(),
        b < old(slice)@.len(),
    ensures
        final(slice)@ == old(slice)@.update(a as int, old(slice)@[b as int]).update(
            b as int,
            old(slice)@[a as int],
        ),
;

} // verus!

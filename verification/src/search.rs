//! Searching algorithms over slices.
pub mod binary;
pub mod linear;

use vstd::prelude::*;

verus! {

/// The element of `s` at index `i`.
pub open spec fn elem<T>(s: Seq<T>, i: usize) -> T {
    s[i as int]
}

/// An index as an integer.
pub open spec fn idx(i: usize) -> int {
    i as int
}

/// The length of `s` as an integer.
pub open spec fn len_int<T>(s: Seq<T>) -> int {
    s.len() as int
}

/// A search result with its indices as integers.
pub open spec fn result_int(r: Result<usize, usize>) -> Result<int, int> {
    match r {
        Ok(i) => Ok(i as int),
        Err(i) => Err(i as int),
    }
}

} // verus!

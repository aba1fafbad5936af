//! The buffer of a `Vector`: its elements and the capacity it has grown to.
use vstd::layout::size_of;
use vstd::prelude::*;

verus! {

/// An array of `n` elements of `T` can be laid out in memory: it takes at most
/// `isize::MAX` bytes.
pub open spec fn layout_fits<T>(n: nat) -> bool {
    n * size_of::<T>() <= isize::MAX
}

/// Heap buffer of a vector: the stored elements and the number of slots reserved for them.
pub struct RawVector<T> {
    pub data: Vec<T>,
    pub capacity: usize,
}

impl<T> RawVector<T> {
    /// Number of slots reserved.
    pub open spec fn spec_capacity(&self) -> nat {
        self.capacity as nat
    }

    /// The elements stored in the buffer.
    pub open spec fn elements(&self) -> Seq<T> {
        self.data@
    }

    /// An empty buffer with no slots reserved.
    pub fn new() -> (r: Self)
        ensures
            r.spec_capacity() == 0,
            r.elements() == Seq::<T>::empty(),
    {
        RawVector { data: Vec::new(), capacity: 0 }
    }

    /// Number of slots reserved.
    pub fn capacity(&self) -> (r: usize)
        ensures
            r == self.spec_capacity(),
    {
        self.capacity
    }

    /// Reserve `new_size` slots when fewer are reserved; a request for zero slots, or for no
    /// more than are reserved, changes nothing.
    pub fn grow(&mut self, new_size: usize)
        requires
            size_of::<T>() != 0,
            new_size != 0 && old(self).spec_capacity() < new_size ==> layout_fits::<T>(new_size as nat),
        ensures
            final(self).spec_capacity() == if new_size == 0 || old(self).spec_capacity() >= new_size {
                old(self).spec_capacity()
            } else {
                new_size as nat
            },
            final(self).elements() == old(self).elements(),
    {
        if new_size == 0 || self.capacity >= new_size {
            // Nothing to do already sufficient size
        } else {
            if self.data.len() < new_size {
                self.data.reserve(new_size - self.data.len());
            }
            self.capacity = new_size;
        }
    }
}

} // verus!

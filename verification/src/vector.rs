//! A growable, heap-allocated vector that is analogous to `std::vec::Vec`.
mod into_iter;
pub mod raw;

pub use into_iter::{lemma_front_order, IntoIter};
use raw::{layout_fits, RawVector};
use vstd::layout::size_of;
use vstd::prelude::*;
use vstd::std_specs::cmp::PartialEqSpec;

verus! {

/// Initial growth of capacity on initial push
pub const INITIAL_GROWTH: usize = 16;

/// Max amount of capacity that a vector will grow automatically
pub const MAX_GROWTH: usize = 1024;

/// The capacity after the growth step of a push onto a vector of length `len` and capacity
/// `cap`: sixteen slots for an empty buffer; when full, double, or add `MAX_GROWTH` slots
/// once the capacity exceeds half of it.
pub open spec fn grown_capacity(cap: nat, len: nat) -> nat {
    if cap > 0 {
        if cap == len {
            if cap > MAX_GROWTH / 2 {
                cap + MAX_GROWTH as nat
            } else {
                cap * 2
            }
        } else {
            cap
        }
    } else {
        INITIAL_GROWTH as nat
    }
}

/// Heap allocated array
pub struct Vector<T> {
    memory: RawVector<T>,
}

impl<T> View for Vector<T> {
    type V = Seq<T>;

    closed spec fn view(&self) -> Seq<T> {
        self.memory.elements()
    }
}

impl<T> Vector<T> {
    /// A vector of zero-sized elements reserves no slots, and the slots reserved can be laid
    /// out in memory.
    pub closed spec fn wf(&self) -> bool {
        &&& size_of::<T>() == 0 ==> self.memory.spec_capacity() == 0
        &&& layout_fits::<T>(self.memory.spec_capacity())
    }

    /// A well-formed vector of zero-sized elements reserves no slots, and the slots it
    /// reserves can be laid out in memory.
    pub proof fn lemma_wf_capacity(&self)
        requires
            self.wf(),
        ensures
            size_of::<T>() == 0 ==> self.spec_capacity() == 0,
            layout_fits::<T>(self.spec_capacity()),
    {
    }

    /// The elements fit in the slots reserved (zero-sized elements need none).
    pub open spec fn within_capacity(&self) -> bool {
        size_of::<T>() > 0 ==> self@.len() <= self.spec_capacity()
    }

    /// Number of slots reserved.
    pub closed spec fn spec_capacity(&self) -> nat {
        self.memory.spec_capacity()
    }

    /// The capacity after the growth step of a push or an insert.
    pub open spec fn spec_grown_capacity(&self) -> nat {
        if size_of::<T>() > 0 {
            grown_capacity(self.spec_capacity(), self@.len())
        } else {
            self.spec_capacity()
        }
    }

    /// Create a new empty vector
    pub fn new() -> (r: Self)
        ensures
            r.wf(),
            r@ == Seq::<T>::empty(),
            r.spec_capacity() == 0,
            r.within_capacity(),
    {
        Vector { memory: RawVector::new() }
    }

    /// Get the current length of the vector
    pub fn len(&self) -> (r: usize)
        ensures
            r == self@.len(),
    {
        self.memory.data.len()
    }

    /// Check whether the current vector is empty
    pub fn is_empty(&self) -> (r: bool)
        ensures
            r == (self@.len() == 0),
    {
        self.len() == 0
    }

    /// Get the current allocated capacity of the vector
    pub fn capacity(&self) -> (r: usize)
        ensures
            r == self.spec_capacity(),
    {
        self.memory.capacity
    }

    /// Execute the default grow algorithm to
    fn grow(&mut self)
        requires
            old(self).wf(),
            size_of::<T>() > 0,
            layout_fits::<T>(grown_capacity(old(self).spec_capacity(), old(self)@.len())),
        ensures
            final(self).wf(),
            final(self)@ == old(self)@,
            final(self).spec_capacity() == grown_capacity(old(self).spec_capacity(), old(self)@.len()),
            old(self)@.len() <= old(self).spec_capacity() ==> old(self)@.len() < final(self).spec_capacity(),
    {
        let current_capacity = self.memory.capacity;
        let ghost grown = grown_capacity(current_capacity as nat, self@.len());
        proof {
            assert(grown <= isize::MAX) by (nonlinear_arith)
                requires
                    grown * size_of::<T>() <= isize::MAX,
                    size_of::<T>() > 0,
            ;
        }
        if current_capacity > 0 {
            if current_capacity == self.len() {
                let new_capacity = if current_capacity > MAX_GROWTH / 2 {
                    current_capacity + MAX_GROWTH
                } else {
                    current_capacity * 2
                };
                self.memory.grow(new_capacity);
            }
        } else {
            self.memory.grow(INITIAL_GROWTH);
        }
    }

    /// Push a single value onto the back of the vector
    ///
    /// The capacity it grows to must be one whose layout fits in memory, and the length must
    /// stay below `usize::MAX`.
    pub fn push(&mut self, value: T)
        requires
            old(self).wf(),
            old(self)@.len() < usize::MAX,
            layout_fits::<T>(old(self).spec_grown_capacity()),
        ensures
            final(self).wf(),
            final(self)@ == old(self)@.push(value),
            final(self).spec_capacity() == old(self).spec_grown_capacity(),
            size_of::<T>() == 0 ==> final(self).spec_capacity() == 0,
            old(self).within_capacity() ==> final(self).within_capacity(),
    {
        // Skip all the dead code for zst types and just increment the size
        if core::mem::size_of::<T>() > 0 {
            self.grow();
        }
        self.memory.data.push(value);
    }

    /// Pop the value at the end of the vector. Return None if vector is empty
    pub fn pop(&mut self) -> (r: Option<T>)
        requires
            old(self).wf(),
        ensures
            final(self).wf(),
            final(self).spec_capacity() == old(self).spec_capacity(),
            old(self)@.len() == 0 ==> r is None && final(self)@ == old(self)@,
            old(self)@.len() > 0 ==> r == Some(old(self)@.last()) && final(self)@ == old(self)@.drop_last(),
            old(self).within_capacity() ==> final(self).within_capacity(),
    {
        self.memory.data.pop()
    }

    /// Remove and drop all items in the vector
    pub fn clear(&mut self)
        requires
            old(self).wf(),
        ensures
            final(self).wf(),
            final(self).spec_capacity() == old(self).spec_capacity(),
            final(self)@ == Seq::<T>::empty(),
            final(self).within_capacity(),
    {
        self.memory.data.clear();
    }

    /// Allocate an additional amount of items without initializing
    ///
    /// The length plus `to_reserve` must fit in a `usize`, its layout must fit in memory, and
    /// the elements must not be zero-sized.
    pub fn reserve(&mut self, to_reserve: usize)
        requires
            old(self).wf(),
            size_of::<T>() != 0,
            old(self)@.len() + to_reserve <= usize::MAX,
            old(self).spec_capacity() < old(self)@.len() + to_reserve ==> layout_fits::<T>(
                (old(self)@.len() + to_reserve) as nat,
            ),
        ensures
            final(self).wf(),
            final(self)@ == old(self)@,
            final(self).spec_capacity() == if old(self).spec_capacity() >= old(self)@.len() + to_reserve {
                old(self).spec_capacity()
            } else {
                (old(self)@.len() + to_reserve) as nat
            },
            final(self).within_capacity(),
    {
        self.memory.grow(self.len() + to_reserve);
    }

    /// Allocate at least enough memory for the provided amount of items without initializing
    pub fn reserve_total(&mut self, to_reserve: usize)
        requires
            old(self).wf(),
            size_of::<T>() != 0,
            old(self).spec_capacity() < to_reserve ==> layout_fits::<T>(to_reserve as nat),
        ensures
            final(self).wf(),
            final(self)@ == old(self)@,
            final(self).spec_capacity() == if old(self).spec_capacity() >= to_reserve {
                old(self).spec_capacity()
            } else {
                to_reserve as nat
            },
            old(self).within_capacity() ==> final(self).within_capacity(),
    {
        self.memory.grow(to_reserve);
    }

    /// Insert proviced value at the provided index location
    ///
    /// `index` must be at most the length, and the capacity the vector grows to must be one
    /// whose layout fits in memory.
    pub fn insert(&mut self, index: usize, value: T)
        requires
            old(self).wf(),
            index <= old(self)@.len(),
            old(self)@.len() < usize::MAX,
            layout_fits::<T>(old(self).spec_grown_capacity()),
        ensures
            final(self).wf(),
            final(self)@ == old(self)@.insert(index as int, value),
            final(self).spec_capacity() == old(self).spec_grown_capacity(),
            old(self).within_capacity() ==> final(self).within_capacity(),
    {
        if index == self.len() {
            self.push(value);
            proof {
                assert(old(self)@.insert(index as int, value) =~= old(self)@.push(value));
            }
            return;
        }
        // Conditioning on size_of::<T> to skip all the dead code in the zst case
        if core::mem::size_of::<T>() > 0 {
            self.grow();
        }
        let ghost s = self@;
        let ghost grown = *self;
        // Place the value at the back, then move it down to `index`, shifting the elements
        // after it up by one slot.
        self.memory.data.push(value);
        let mut i: usize = self.memory.data.len() - 1;
        while i > index
            invariant
                index <= i <= s.len(),
                self@.len() == s.len() + 1,
                self.memory.capacity == grown.memory.capacity,
                grown.wf(),
                self@[i as int] == value,
                forall|j: int| 0 <= j < i ==> #[trigger] self@[j] == s[j],
                forall|j: int| i < j <= s.len() ==> #[trigger] self@[j] == s[j - 1],
            decreases i,
        {
            self.memory.data.as_mut_slice().swap(i - 1, i);
            i = i - 1;
        }
        proof {
            assert(self@ =~= s.insert(index as int, value));
        }
    }

    /// Remove an item from the vector
    ///
    /// `index` must be less than the length.
    pub fn remove(&mut self, index: usize) -> (r: T)
        requires
            old(self).wf(),
            index < old(self)@.len(),
        ensures
            final(self).wf(),
            final(self).spec_capacity() == old(self).spec_capacity(),
            r == old(self)@[index as int],
            final(self)@ == old(self)@.remove(index as int),
            old(self).within_capacity() ==> final(self).within_capacity(),
    {
        let ghost s = self@;
        let ghost before = *self;
        // Move the element at `index` to the back, shifting the elements after it down by
        // one slot, then take it off the back.
        let mut i: usize = index;
        while i < self.memory.data.len() - 1
            invariant
                index <= i < s.len(),
                self@.len() == s.len(),
                self.memory.capacity == before.memory.capacity,
                before.wf(),
                self@[i as int] == s[index as int],
                forall|j: int| 0 <= j < index ==> #[trigger] self@[j] == s[j],
                forall|j: int| index <= j < i ==> #[trigger] self@[j] == s[j + 1],
                forall|j: int| i < j < s.len() ==> #[trigger] self@[j] == s[j],
            decreases s.len() - i,
        {
            self.memory.data.as_mut_slice().swap(i, i + 1);
            i = i + 1;
        }
        let r = self.memory.data.pop();
        proof {
            assert(self@ =~= s.remove(index as int));
        }
        r.unwrap()
    }
}

impl<T> Vector<T> {
    /// Turn the vector into a consuming iterator over its elements, front to back.
    pub fn into_iter(self) -> (r: IntoIter<T>)
        ensures
            r@ == self@,
    {
        let ghost all = self@;
        let mut data = self.memory.data;
        let mut buf = std::collections::VecDeque::new();
        while data.len() > 0
            invariant
                all == data@ + buf@,
            decreases data@.len(),
        {
            let ghost before = data@;
            let item = data.pop().unwrap();
            buf.push_front(item);
            proof {
                assert(before =~= data@.push(item));
            }
        }
        proof {
            assert(data@ =~= Seq::<T>::empty());
            assert(all =~= buf@);
        }
        IntoIter::from_deque(buf)
    }
}

impl<T> Default for Vector<T> {
    fn default() -> (r: Self)
        ensures
            r.wf(),
            r@ == Seq::<T>::empty(),
            r.spec_capacity() == 0,
    {
        Self::new()
    }
}

impl<T> core::ops::Deref for Vector<T> {
    type Target = [T];

    fn deref(&self) -> (r: &[T])
        ensures
            r@ == self@,
    {
        self.memory.data.as_slice()
    }
}

impl<T> core::ops::DerefMut for Vector<T> {
    fn deref_mut(&mut self) -> (r: &mut [T])
        ensures
            r@ == old(self)@,
            final(self)@ == final(r)@,
            final(self).spec_capacity() == old(self).spec_capacity(),
            old(self).wf() ==> final(self).wf(),
    {
        self.memory.data.as_mut_slice()
    }
}

impl<T: Clone> Vector<T> {
    /// A vector of clones of the elements, with as many slots reserved as there are elements.
    pub fn clone(&self) -> (r: Self)
        requires
            self.wf(),
            layout_fits::<T>(self@.len()),
        ensures
            r.wf(),
            r.within_capacity(),
            r@.len() == self@.len(),
            forall|i: int| 0 <= i < self@.len() ==> cloned::<T>(self@[i], #[trigger] r@[i]),
            r.spec_capacity() == if size_of::<T>() > 0 { self@.len() } else { 0 },
    {
        let mut new_obj = Vector::new();
        if core::mem::size_of::<T>() > 0 {
            new_obj.reserve(self.len());
        }
        let mut i: usize = 0;
        while i < self.len()
            invariant
                i <= self@.len(),
                self.wf(),
                new_obj.wf(),
                new_obj@.len() == i,
                new_obj.spec_capacity() == if size_of::<T>() > 0 { self@.len() } else { 0 },
                forall|k: int| 0 <= k < i ==> cloned::<T>(self@[k], #[trigger] new_obj@[k]),
                layout_fits::<T>(self@.len()),
            decreases self@.len() - i,
        {
            let item = self.memory.data[i].clone();
            proof {
                assert(layout_fits::<T>(new_obj.spec_grown_capacity()));
            }
            new_obj.push(item);
            i = i + 1;
        }
        new_obj
    }
}

impl<T: PartialEq> PartialEq for Vector<T> {
    fn eq(&self, other: &Self) -> (r: bool) {
        if self.len() != other.len() {
            return false;
        }
        let mut i: usize = 0;
        while i < self.len()
            invariant
                i <= self@.len(),
                self@.len() == other@.len(),
                T::obeys_eq_spec() ==> forall|k: int| 0 <= k < i ==> (#[trigger] self@[k]).eq_spec(&other@[k]),
            decreases self@.len() - i,
        {
            if !(self.memory.data[i] == other.memory.data[i]) {
                return false;
            }
            i = i + 1;
        }
        true
    }
}

impl<T: PartialEq> vstd::std_specs::cmp::PartialEqSpecImpl for Vector<T> {
    open spec fn obeys_eq_spec() -> bool {
        T::obeys_eq_spec()
    }

    open spec fn eq_spec(&self, other: &Self) -> bool {
        &&& self@.len() == other@.len()
        &&& forall|k: int| 0 <= k < self@.len() ==> (#[trigger] self@[k]).eq_spec(&other@[k])
    }
}

/// Popping right after pushing `value` gives back `value` and the elements as they were.
pub proof fn lemma_pop_after_push<T>(s: Seq<T>, value: T)
    ensures
        s.push(value).len() > 0,
        s.push(value).last() == value,
        s.push(value).drop_last() == s,
{
    assert(s.push(value).drop_last() =~= s);
}

/// Removing at `index` right after inserting `value` there gives back `value` and the
/// elements as they were.
pub proof fn lemma_remove_after_insert<T>(s: Seq<T>, index: int, value: T)
    requires
        0 <= index <= s.len(),
    ensures
        index < s.insert(index, value).len(),
        s.insert(index, value)[index] == value,
        s.insert(index, value).remove(index) == s,
{
    assert(s.insert(index, value).remove(index) =~= s);
}

} // verus!

//! Consuming iterator of a `Vector`.
use std::collections::VecDeque;
use vstd::prelude::*;

verus! {

/// Into Iterator structure for `Vector<T>`.
/// This allows for a consuming iterator to be built on this container
pub struct IntoIter<T> {
    buf: VecDeque<T>,
}

impl<T> View for IntoIter<T> {
    type V = Seq<T>;

    /// The elements not handed out yet, front first.
    closed spec fn view(&self) -> Seq<T> {
        self.buf@
    }
}

impl<T> IntoIter<T> {
    /// An iterator handing out the elements of `buf`, front first.
    pub(super) fn from_deque(buf: VecDeque<T>) -> (r: Self)
        ensures
            r@ == buf@,
    {
        IntoIter { buf }
    }

    /// Hand out the front element, if any.
    pub fn next(&mut self) -> (r: Option<T>)
        ensures
            old(self)@.len() == 0 ==> r is None && final(self)@ == old(self)@,
            old(self)@.len() > 0 ==> r == Some(old(self)@[0]) && final(self)@ == old(self)@.drop_first(),
    {
        self.buf.pop_front()
    }

    /// Hand out the back element, if any.
    pub fn next_back(&mut self) -> (r: Option<T>)
        ensures
            old(self)@.len() == 0 ==> r is None && final(self)@ == old(self)@,
            old(self)@.len() > 0 ==> r == Some(old(self)@.last()) && final(self)@ == old(self)@.drop_last(),
    {
        self.buf.pop_back()
    }

    /// Number of elements not handed out yet.
    pub fn len(&self) -> (r: usize)
        ensures
            r == self@.len(),
    {
        self.buf.len()
    }

    /// Bounds on the number of elements left: exactly `len()`.
    pub fn size_hint(&self) -> (r: (usize, Option<usize>))
        ensures
            r == (self@.len() as usize, Some(self@.len() as usize)),
    {
        let len = self.buf.len();
        (len, Some(len))
    }
}

/// Handing out from the front only, an iterator over `s` that has handed out `k` elements
/// holds `s.skip(k)`: the next element is `s[k]`, and after it the iterator holds
/// `s.skip(k + 1)`; after `s.len()` elements it is empty.
pub proof fn lemma_front_order<T>(s: Seq<T>, k: int)
    requires
        0 <= k < s.len(),
    ensures
        s.skip(k).len() > 0,
        s.skip(k)[0] == s[k],
        s.skip(k).drop_first() == s.skip(k + 1),
        s.skip(s.len() as int).len() == 0,
        s.skip(0) == s,
{
    assert(s.skip(k).drop_first() =~= s.skip(k + 1));
    assert(s.skip(0) =~= s);
}

} // verus!

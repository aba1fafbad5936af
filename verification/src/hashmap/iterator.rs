//! Iteration over the entries of a [`HashMap`], in slot order.
use super::key_value::KeyValue;
use super::{holds_map, key_at, occupied, unique_keys, HashMap, Slots};
use vstd::prelude::*;

verus! {

/// The entries held in slots `i` onward of `s`, in slot order, each as (hash, key, value).
pub open spec fn entries_from<K, V>(s: Slots<K, V>, i: int) -> Seq<(u64, K, V)>
    decreases s.len() - i,
{
    if 0 <= i < s.len() {
        match s[i] {
            Some(kv) => seq![(kv.hash, kv.key, kv.value)] + entries_from(s, i + 1),
            None => entries_from(s, i + 1),
        }
    } else {
        Seq::empty()
    }
}

/// The occupied slots of `s` from slot `i` onward, in increasing order.
pub open spec fn occupied_from<K, V>(s: Slots<K, V>, i: int) -> Seq<int>
    decreases s.len() - i,
{
    if 0 <= i < s.len() {
        if s[i] is Some {
            seq![i] + occupied_from(s, i + 1)
        } else {
            occupied_from(s, i + 1)
        }
    } else {
        Seq::empty()
    }
}

/// `e` lists the entries of `m`, each exactly once: every item is an entry of `m`, no two
/// items are the same entry, and every entry of `m` is an item.
pub open spec fn lists_entries<K, V>(e: Seq<(u64, K, V)>, m: Map<(u64, K), V>) -> bool {
    &&& e.len() == m.len()
    &&& forall|t: int|
        0 <= t < e.len() ==> m.contains_key((#[trigger] e[t].0, e[t].1)) && m[(e[t].0, e[t].1)]
            == e[t].2
    &&& forall|t1: int, t2: int|
        #![trigger e[t1], e[t2]]
        0 <= t1 < t2 < e.len() ==> (e[t1].0, e[t1].1) != (e[t2].0, e[t2].1)
    &&& forall|k: (u64, K)|
        #[trigger] m.contains_key(k) ==> exists|t: int|
            0 <= t < e.len() && (#[trigger] e[t].0, e[t].1) == k
}

/// The entries from slot `i` onward are those of the occupied slots from `i` onward, in
/// slot order.
proof fn lemma_entries_from<K, V>(s: Slots<K, V>, i: int)
    requires
        0 <= i <= s.len(),
    ensures
        entries_from(s, i).len() == occupied_from(s, i).len(),
        forall|t: int|
            #![trigger occupied_from(s, i)[t]]
            0 <= t < occupied_from(s, i).len() ==> {
                let p = occupied_from(s, i)[t];
                &&& i <= p < s.len()
                &&& occupied(s, p)
                &&& entries_from(s, i)[t] == (s[p]->0.hash, s[p]->0.key, s[p]->0.value)
            },
        forall|t1: int, t2: int|
            0 <= t1 < t2 < occupied_from(s, i).len() ==> #[trigger] occupied_from(s, i)[t1]
                < #[trigger] occupied_from(s, i)[t2],
        forall|j: int|
            i <= j < s.len() && #[trigger] occupied(s, j) ==> exists|t: int|
                0 <= t < occupied_from(s, i).len() && #[trigger] occupied_from(s, i)[t] == j,
    decreases s.len() - i,
{
    if i < s.len() {
        lemma_entries_from(s, i + 1);
        let o = occupied_from(s, i + 1);
        let e = entries_from(s, i + 1);
        if s[i] is Some {
            let kv = s[i]->0;
            assert(occupied_from(s, i) == seq![i] + o);
            assert(entries_from(s, i) == seq![(kv.hash, kv.key, kv.value)] + e);
            assert forall|j: int| i <= j < s.len() && #[trigger] occupied(s, j) implies exists|t: int|
                0 <= t < occupied_from(s, i).len() && #[trigger] occupied_from(s, i)[t] == j by {
                if j == i {
                    assert(occupied_from(s, i)[0] == i);
                } else {
                    let t = choose|t: int| 0 <= t < o.len() && #[trigger] o[t] == j;
                    assert(occupied_from(s, i)[t + 1] == j);
                }
            }
        } else {
            assert(occupied_from(s, i) == o);
            assert(entries_from(s, i) == e);
        }
    }
}

impl<K, V, S> HashMap<K, V, S> {
    /// The slots of a well-formed map list its entries each exactly once: iterating over all
    /// of them from the first slot visits every entry of the map, once.
    pub proof fn lemma_entries_list_map(&self)
        requires
            self.wf(),
        ensures
            lists_entries(entries_from(self.slots(), 0), self@),
    {
        let s = self.slots();
        let m = self@;
        self.lemma_slots_hold_view();
        lemma_entries_from(s, 0);
        let e = entries_from(s, 0);
        let o = occupied_from(s, 0);
        assert forall|t: int| 0 <= t < e.len() implies m.contains_key((#[trigger] e[t].0, e[t].1))
            && m[(e[t].0, e[t].1)] == e[t].2 by {
            assert(key_at(s, o[t]) == (e[t].0, e[t].1));
        }
        assert forall|t1: int, t2: int| 0 <= t1 < t2 < e.len() implies (#[trigger] e[t1].0, e[t1].1)
            != (#[trigger] e[t2].0, e[t2].1) by {
            assert(o[t1] < o[t2]);
            assert(key_at(s, o[t1]) == (e[t1].0, e[t1].1));
            assert(key_at(s, o[t2]) == (e[t2].0, e[t2].1));
        }
        assert forall|k: (u64, K)| #[trigger] m.contains_key(k) implies exists|t: int|
            0 <= t < e.len() && (#[trigger] e[t].0, e[t].1) == k by {
            let j = choose|j: int| 0 <= j < s.len() && occupied(s, j) && #[trigger] key_at(s, j) == k;
            let t = choose|t: int| 0 <= t < o.len() && #[trigger] o[t] == j;
            assert((e[t].0, e[t].1) == k);
        }
        let ks = e.map_values(|x: (u64, K, V)| (x.0, x.1));
        assert(ks.no_duplicates()) by {
            assert forall|a: int, b: int| 0 <= a < ks.len() && 0 <= b < ks.len() && a != b implies ks[a]
                != ks[b] by {
                if a < b {
                    assert((e[a].0, e[a].1) != (e[b].0, e[b].1));
                } else {
                    assert((e[b].0, e[b].1) != (e[a].0, e[a].1));
                }
            }
        }
        ks.unique_seq_to_set();
        assert(ks.to_set() =~= m.dom()) by {
            assert forall|k: (u64, K)| ks.to_set().contains(k) implies m.dom().contains(k) by {
                let t = choose|t: int| 0 <= t < ks.len() && ks[t] == k;
                assert(m.contains_key((e[t].0, e[t].1)));
            }
            assert forall|k: (u64, K)| m.dom().contains(k) implies ks.to_set().contains(k) by {
                assert(m.contains_key(k));
                let t = choose|t: int| 0 <= t < e.len() && (#[trigger] e[t].0, e[t].1) == k;
                assert(ks[t] == k);
            }
        }
    }
}


/// Changing a slot before `j` leaves the entries from `j` onward as they were.
proof fn lemma_entries_from_update<K, V>(s: Slots<K, V>, p: int, x: Option<KeyValue<K, V>>, j: int)
    requires
        0 <= p < j,
        p < s.len(),
    ensures
        entries_from(s.update(p, x), j) == entries_from(s, j),
    decreases s.len() - j,
{
    if j < s.len() {
        lemma_entries_from_update(s, p, x, j + 1);
    }
}

/// The first occupied slot of `s` at or after `from`, if there is one.
fn first_occupied<K, V>(s: &[Option<KeyValue<K, V>>], from: usize) -> (r: Option<usize>)
    ensures
        match r {
            Some(i) => {
                &&& from <= i < s@.len()
                &&& i < usize::MAX
                &&& occupied(s@, i as int)
                &&& entries_from(s@, from as int) == entries_from(s@, i as int)
            },
            None => entries_from(s@, from as int).len() == 0,
        },
{
    let mut i: usize = from;
    while i < s.len()
        invariant
            from <= i,
            entries_from(s@, from as int) == entries_from(s@, i as int),
        decreases s@.len() - i,
    {
        if s[i].is_some() {
            return Some(i);
        }
        i = i + 1;
    }
    None
}

/// What handing out the entry in the first occupied slot `i` at or after `from` leaves
/// still to come: the entries after slot `i`.
proof fn lemma_hand_out<K, V>(s: Slots<K, V>, from: int, i: int)
    requires
        0 <= from <= i < s.len(),
        occupied(s, i),
        entries_from(s, from) == entries_from(s, i),
    ensures
        entries_from(s, from).len() > 0,
        entries_from(s, from)[0] == (s[i]->0.hash, s[i]->0.key, s[i]->0.value),
        entries_from(s, from).drop_first() == entries_from(s, i + 1),
{
    let kv = s[i]->0;
    assert(entries_from(s, i) == seq![(kv.hash, kv.key, kv.value)] + entries_from(s, i + 1));
    assert((seq![(kv.hash, kv.key, kv.value)] + entries_from(s, i + 1)).drop_first() =~= entries_from(
        s,
        i + 1,
    ));
}

/// Iterator for [`HashMap`]
#[verifier::reject_recursive_types(K)]
pub struct HashMapIterator<'a, K, V, S> {
    container: &'a HashMap<K, V, S>,
    current: usize,
}

impl<'a, K, V, S> HashMapIterator<'a, K, V, S> {
    /// The entries still to be handed out, in slot order, each as (hash, key, value).
    pub closed spec fn remaining(&self) -> Seq<(u64, K, V)> {
        entries_from(self.container.slots(), self.current as int)
    }

    /// Create an iterator over the entries of a container
    pub fn new(container: &'a HashMap<K, V, S>) -> (r: HashMapIterator<'a, K, V, S>)
        ensures
            r.remaining() == entries_from(container.slots(), 0),
    {
        HashMapIterator { container, current: 0 }
    }

    /// The key and value of the next occupied slot, or `None` when no slot is left.
    pub fn next(&mut self) -> (r: Option<(&'a K, &'a V)>)
        ensures
            match r {
                Some((k, v)) => {
                    &&& old(self).remaining().len() > 0
                    &&& *k == old(self).remaining()[0].1
                    &&& *v == old(self).remaining()[0].2
                    &&& final(self).remaining() == old(self).remaining().drop_first()
                },
                None => {
                    &&& old(self).remaining().len() == 0
                    &&& final(self).remaining() == old(self).remaining()
                },
            },
    {
        let container: &'a HashMap<K, V, S> = self.container;
        let slots = container.data.as_slice();
        match first_occupied(slots, self.current) {
            Some(i) => {
                proof {
                    lemma_hand_out(slots@, self.current as int, i as int);
                }
                self.current = i + 1;
                match &slots[i] {
                    Some(kv) => Some((&kv.key, &kv.value)),
                    None => None,
                }
            },
            None => None,
        }
    }
}

/// Mutable Iterator for [`HashMap`]
#[verifier::reject_recursive_types(K)]
pub struct HashMapIteratorMut<'a, K, V, S> {
    pub container: &'a mut HashMap<K, V, S>,
    pub current: usize,
}

impl<'a, K, V, S> HashMapIteratorMut<'a, K, V, S> {
    /// The entries still to be handed out, in slot order, each as (hash, key, value).
    pub open spec fn remaining(&self) -> Seq<(u64, K, V)> {
        entries_from(self.container.slots(), self.current as int)
    }

    /// Create a new mutable iterator from a container
    pub fn new(container: &'a mut HashMap<K, V, S>) -> (r: HashMapIteratorMut<'a, K, V, S>)
        ensures
            *r.container == *old(container),
            *final(r.container) == *final(container),
            r.current == 0,
    {
        HashMapIteratorMut { container, current: 0 }
    }

    /// The key of the next occupied slot and a mutable reference to its value, or `None`
    /// when no slot is left. What is written through the reference is the entry's new value.
    pub fn next(&mut self) -> (r: Option<(&K, &mut V)>)
        requires
            old(self).container.wf(),
        ensures
            final(self).container.wf(),
            *final(final(self).container) == *final(old(self).container),
            final(self).container.spec_capacity() == old(self).container.spec_capacity(),
            final(self).container.spec_hasher() == old(self).container.spec_hasher(),
            match r {
                Some((k, v)) => {
                    let e = old(self).remaining();
                    &&& e.len() > 0
                    &&& *k == e[0].1
                    &&& *v == e[0].2
                    &&& final(self).container@ == old(self).container@.insert((e[0].0, e[0].1), *final(v))
                    &&& final(self).remaining() == e.drop_first()
                },
                None => {
                    &&& old(self).remaining().len() == 0
                    &&& *final(self).container == *old(self).container
                    &&& final(self).current == old(self).current
                },
            },
    {
        match first_occupied(self.container.data.as_slice(), self.current) {
            Some(i) => {
                let ghost s0 = self.container.slots();
                proof {
                    lemma_hand_out(s0, self.current as int, i as int);
                }
                self.current = i + 1;
                let (k, v) = self.container.entry_mut(i);
                proof {
                    lemma_entries_from_update(
                        s0,
                        i as int,
                        Some(KeyValue { hash: s0[i as int]->0.hash, key: s0[i as int]->0.key, value: *final(v) }),
                        i + 1,
                    );
                }
                Some((k, v))
            },
            None => None,
        }
    }
}

/// Into-Iterator for [`HashMap`]
pub struct HashMapIntoIter<K, V> {
    data: Vec<Option<KeyValue<K, V>>>,
    current: usize,
}

impl<K, V> HashMapIntoIter<K, V> {
    /// The entries still to be handed out, in slot order, each as (hash, key, value).
    pub closed spec fn remaining(&self) -> Seq<(u64, K, V)> {
        entries_from(self.data@, self.current as int)
    }

    /// Create a new consuming iterator from the slots of a container
    pub(crate) fn new(data: Vec<Option<KeyValue<K, V>>>) -> (r: HashMapIntoIter<K, V>)
        ensures
            r.remaining() == entries_from(data@, 0),
    {
        HashMapIntoIter { data, current: 0 }
    }

    /// Move out the key and value of the next occupied slot, or `None` when no slot is left.
    pub fn next(&mut self) -> (r: Option<(K, V)>)
        ensures
            match r {
                Some((k, v)) => {
                    &&& old(self).remaining().len() > 0
                    &&& k == old(self).remaining()[0].1
                    &&& v == old(self).remaining()[0].2
                    &&& final(self).remaining() == old(self).remaining().drop_first()
                },
                None => {
                    &&& old(self).remaining().len() == 0
                    &&& final(self).remaining() == old(self).remaining()
                },
            },
    {
        match first_occupied(self.data.as_slice(), self.current) {
            Some(i) => {
                let ghost s0 = self.data@;
                proof {
                    lemma_hand_out(s0, self.current as int, i as int);
                    lemma_entries_from_update(s0, i as int, None, i + 1);
                }
                self.current = i + 1;
                let mut taken: Option<KeyValue<K, V>> = None;
                self.data.set_and_swap(i, &mut taken);
                match taken {
                    Some(kv) => Some((kv.key, kv.value)),
                    None => None,
                }
            },
            None => None,
        }
    }
}

impl<K, V, S> HashMap<K, V, S> {
    /// Create an iterator from the current object
    pub fn iter(&self) -> (r: HashMapIterator<'_, K, V, S>)
        ensures
            r.remaining() == entries_from(self.slots(), 0),
    {
        HashMapIterator::new(self)
    }

    /// Create a mutable iterator from the current object
    pub fn iter_mut(&mut self) -> (r: HashMapIteratorMut<'_, K, V, S>)
        ensures
            *r.container == *old(self),
            *final(r.container) == *final(self),
            r.current == 0,
    {
        HashMapIteratorMut::new(self)
    }

    /// Consume the map into an iterator over its entries, handed out by value.
    pub fn into_iter(self) -> (r: HashMapIntoIter<K, V>)
        ensures
            r.remaining() == entries_from(self.slots(), 0),
    {
        HashMapIntoIter::new(self.data)
    }
}

} // verus!

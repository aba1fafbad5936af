//! A hash map using open addressing with robin hood probing and
//! backward-shift deletion.
pub mod fixed_hasher;
pub mod iterator;
pub mod key_value;

use key_value::KeyValue;
use std::hash::{BuildHasher, Hash, RandomState};
use vstd::laws_eq::obeys_concrete_eq;
use vstd::layout::size_of;
use vstd::prelude::*;

verus! {

/// `n` is a non-zero power of two.
pub open spec fn is_pow2(n: usize) -> bool {
    n > 0 && n & ((n - 1) as usize) == 0
}

/// `mask` is one less than a non-zero power of two: the mask of a table of `mask + 1` slots.
pub open spec fn is_mask(mask: usize) -> bool {
    mask < usize::MAX && is_pow2((mask + 1) as usize)
}

/// The slot after `i` in a table of `n` slots, wrapping around at the end.
pub open spec fn next_slot(i: int, n: int) -> int {
    if i + 1 >= n { 0 } else { i + 1 }
}

/// The slot before `i` in a table of `n` slots, wrapping around at the start.
pub open spec fn prev_slot(i: int, n: int) -> int {
    if i <= 0 { n - 1 } else { i - 1 }
}

/// Number of steps forward from slot `from` to slot `to` in a table of `n` slots.
pub open spec fn cyclic_distance(from: int, to: int, n: int) -> int {
    if to >= from { to - from } else { to + n - from }
}

/// The slot reached by stepping `t` slots back from `i` in a table of `n` slots.
pub open spec fn slot_back(i: int, t: int, n: int) -> int {
    if i >= t { i - t } else { i - t + n }
}

/// The slot reached by stepping `t` slots forward from `i` in a table of `n` slots.
pub open spec fn slot_ahead(i: int, t: int, n: int) -> int {
    if i + t < n { i + t } else { i + t - n }
}

proof fn lemma_mask_below(x: usize, n: usize)
    by (bit_vector)
    requires
        n > 0,
        n & ((n - 1) as usize) == 0,
    ensures
        x & ((n - 1) as usize) < n,
{
}

proof fn lemma_mask_small(x: usize, n: usize)
    by (bit_vector)
    requires
        n > 0,
        n & ((n - 1) as usize) == 0,
        x < n,
    ensures
        x & ((n - 1) as usize) == x,
{
}

proof fn lemma_mask_wrap_sub(p: usize, q: usize, w: usize, n: usize, max: usize)
    by (bit_vector)
    requires
        (usize::BITS == 64 && max as u64 == 0xffff_ffff_ffff_ffffu64) || (usize::BITS == 32 && max as u64 == 0xffff_ffffu64),
        n > 0,
        n & ((n - 1) as usize) == 0,
        p < q,
        q < n,
        w == p + (max - q) + 1,
    ensures
        w & ((n - 1) as usize) == p + n - q,
{
}

proof fn lemma_usize_max()
    ensures
        (usize::BITS == 64 && usize::MAX as u64 == 0xffff_ffff_ffff_ffffu64) || (usize::BITS == 32 && usize::MAX as u64 == 0xffff_ffffu64),
{
}

proof fn lemma_pow2_double(n: usize)
    by (bit_vector)
    requires
        n > 0,
        n & ((n - 1) as usize) == 0,
        ((n + n) as usize) > n,
    ensures
        ((n + n) as usize) & ((n + n - 1) as usize) == 0,
{
}

/// The number of steps from `ideal` forward to `pos`, in a table whose slot count is `mask + 1`.
pub fn get_probe_distance(pos: usize, ideal: usize, mask: usize) -> (r: usize)
    ensures
        r == pos.wrapping_sub(ideal) & mask,
        is_mask(mask) && pos <= mask && ideal <= mask ==> r == cyclic_distance(
            ideal as int,
            pos as int,
            mask + 1,
        ),
{
    let r = pos.wrapping_sub(ideal) & mask;
    proof {
        if is_mask(mask) && pos <= mask && ideal <= mask {
            let n: usize = (mask + 1) as usize;
            assert(n == mask + 1);
            assert(((n - 1) as usize) == mask);
            if pos >= ideal {
                lemma_mask_small((pos - ideal) as usize, n);
            } else {
                lemma_usize_max();
                lemma_mask_wrap_sub(pos, ideal, pos.wrapping_sub(ideal), n, usize::MAX);
            }
        }
    }
    r
}

/// The slot after `pos`, in a table whose slot count is `mask + 1`.
pub fn get_next_location(pos: usize, mask: usize) -> (r: usize)
    ensures
        r == pos.wrapping_add(1) & mask,
        is_mask(mask) && pos <= mask ==> r == next_slot(pos as int, mask + 1),
{
    let r = pos.wrapping_add(1) & mask;
    proof {
        if is_mask(mask) && pos <= mask {
            let n: usize = (mask + 1) as usize;
            assert(((n - 1) as usize) == mask);
            if pos < mask {
                lemma_mask_small((pos + 1) as usize, n);
            } else {
                assert(0usize & mask == 0) by (bit_vector);
            }
        }
    }
    r
}

/// The slot at which an entry with hash `hash` would ideally sit.
#[verifier::truncate]
pub fn get_location_from_hash(hash: u64, mask: usize) -> (r: usize)
    ensures
        r == (hash as usize) & mask,
        is_mask(mask) ==> r <= mask,
{
    let r = (hash as usize) & mask;
    proof {
        if is_mask(mask) {
            lemma_mask_below(hash as usize, (mask + 1) as usize);
        }
    }
    r
}

/// The slot at which an entry with `hash` ideally sits in a table of `n` slots.
pub open spec fn home_of(hash: u64, n: int) -> int {
    ((hash as usize) & ((n - 1) as usize)) as int
}

/// The slot sequence of a table: empty slots are `None`.
pub type Slots<K, V> = Seq<Option<KeyValue<K, V>>>;

pub open spec fn occupied<K, V>(s: Slots<K, V>, i: int) -> bool {
    s[i] is Some
}

/// The identity of the entry in slot `i`: its stored hash and its key.
pub open spec fn key_at<K, V>(s: Slots<K, V>, i: int) -> (u64, K) {
    (s[i]->0.hash, s[i]->0.key)
}

/// How far the entry in slot `i` sits from its home slot.
pub open spec fn probe_len<K, V>(s: Slots<K, V>, i: int) -> int {
    cyclic_distance(home_of(s[i]->0.hash, s.len() as int), i, s.len() as int)
}

/// The robin hood condition at slot `i`: an entry that is not at its home slot follows
/// an occupied slot whose entry sits at most one step closer to its own home.
pub open spec fn rh_at<K, V>(s: Slots<K, V>, i: int) -> bool {
    let p = prev_slot(i, s.len() as int);
    occupied(s, i) && probe_len(s, i) > 0 ==> occupied(s, p) && probe_len(s, p) + 1 >= probe_len(s, i)
}

pub open spec fn robin_hood<K, V>(s: Slots<K, V>) -> bool {
    forall|i: int| 0 <= i < s.len() ==> #[trigger] rh_at(s, i)
}

/// No two occupied slots hold entries with the same hash and key.
pub open spec fn unique_keys<K, V>(s: Slots<K, V>) -> bool {
    forall|i: int, j: int|
        #![trigger key_at(s, i), key_at(s, j)]
        0 <= i < s.len() && 0 <= j < s.len() && occupied(s, i) && occupied(s, j) && key_at(s, i)
            == key_at(s, j) ==> i == j
}

/// The occupied slots of `s` hold exactly the entries of `m`.
pub open spec fn holds_map<K, V>(s: Slots<K, V>, m: Map<(u64, K), V>) -> bool {
    &&& forall|i: int|
        #![trigger key_at(s, i)]
        0 <= i < s.len() && occupied(s, i) ==> m.contains_key(key_at(s, i)) && m[key_at(s, i)]
            == s[i]->0.value
    &&& forall|k: (u64, K)|
        #![trigger m.contains_key(k)]
        m.contains_key(k) ==> exists|i: int|
            0 <= i < s.len() && occupied(s, i) && #[trigger] key_at(s, i) == k
}

/// Number of occupied slots.
pub open spec fn count_occupied<K, V>(s: Slots<K, V>) -> nat
    decreases s.len(),
{
    if s.len() == 0 {
        0
    } else {
        count_occupied(s.drop_last()) + if s.last() is Some { 1nat } else { 0nat }
    }
}

/// A table has no slots or a power-of-two number of them.
pub open spec fn table_shape(n: int) -> bool {
    n == 0 || (n <= usize::MAX && is_pow2(n as usize))
}

proof fn lemma_home_in_range(hash: u64, n: int)
    requires
        0 < n <= usize::MAX,
        is_pow2(n as usize),
    ensures
        0 <= home_of(hash, n) < n,
{
    lemma_mask_below(hash as usize, n as usize);
}

proof fn lemma_count_update<K, V>(s: Slots<K, V>, i: int, x: Option<KeyValue<K, V>>)
    requires
        0 <= i < s.len(),
    ensures
        count_occupied(s.update(i, x)) + (if s[i] is Some { 1int } else { 0int })
            == count_occupied(s) + (if x is Some { 1int } else { 0int }),
    decreases s.len(),
{
    let t = s.update(i, x);
    if i == s.len() - 1 {
        assert(t.drop_last() =~= s.drop_last());
    } else {
        lemma_count_update(s.drop_last(), i, x);
        assert(t.drop_last() =~= s.drop_last().update(i, x));
    }
}

proof fn lemma_count_zero<K, V>(s: Slots<K, V>)
    requires
        forall|k: int| 0 <= k < s.len() ==> #[trigger] s[k] is None,
    ensures
        count_occupied(s) == 0,
    decreases s.len(),
{
    if s.len() > 0 {
        lemma_count_zero(s.drop_last());
    }
}

proof fn lemma_count_bound<K, V>(s: Slots<K, V>)
    ensures
        count_occupied(s) <= s.len(),
        count_occupied(s) < s.len() ==> exists|e: int| 0 <= e < s.len() && s[e] is None,
    decreases s.len(),
{
    if s.len() > 0 {
        lemma_count_bound(s.drop_last());
        if count_occupied(s) < s.len() {
            if s.last() is None {
                assert(s[s.len() - 1] is None);
            } else {
                let e = choose|e: int| 0 <= e < s.drop_last().len() && s.drop_last()[e] is None;
                assert(s[e] is None);
            }
        }
    }
}

/// Walking back from slot `c`, where an entry `d` steps from its home sits or would sit,
/// every slot up to `d` steps back is occupied by an entry at least as far from its home
/// as the remaining steps.
proof fn lemma_chain<K, V>(s: Slots<K, V>, c: int, d: int, t: int)
    requires
        robin_hood(s),
        0 <= c < s.len(),
        1 <= t <= d,
        occupied(s, prev_slot(c, s.len() as int)),
        probe_len(s, prev_slot(c, s.len() as int)) + 1 >= d,
    ensures
        occupied(s, slot_back(c, t, s.len() as int)),
        probe_len(s, slot_back(c, t, s.len() as int)) >= d - t,
    decreases t,
{
    let n = s.len() as int;
    if t > 1 {
        lemma_chain(s, c, d, t - 1);
        let b = slot_back(c, t - 1, n);
        assert(rh_at(s, b));
        assert(prev_slot(b, n) == slot_back(c, t, n));
    }
}

/// No slot of `s` holds an entry with hash `hash` and key `key`.
pub open spec fn absent<K, V>(s: Slots<K, V>, hash: u64, key: K) -> bool {
    forall|i: int| 0 <= i < s.len() && occupied(s, i) ==> #[trigger] key_at(s, i) != (hash, key)
}

/// Every entry's probe path is occupied: each slot from an entry's home slot up to the slot
/// before its own holds an entry.
pub open spec fn paths_occupied<K, V>(s: Slots<K, V>) -> bool {
    forall|i: int, t: int|
        #![trigger occupied(s, i), slot_ahead(home_of(s[i]->0.hash, s.len() as int), t, s.len() as int)]
        0 <= i < s.len() && occupied(s, i) && 0 <= t < probe_len(s, i) ==> occupied(
            s,
            slot_ahead(home_of(s[i]->0.hash, s.len() as int), t, s.len() as int),
        )
}

/// A table that keeps the robin hood condition has every probe path occupied.
pub proof fn lemma_robin_hood_paths<K, V>(s: Slots<K, V>)
    requires
        robin_hood(s),
        table_shape(s.len() as int),
    ensures
        paths_occupied(s),
{
    let n = s.len() as int;
    assert forall|i: int, t: int|
        0 <= i < n && #[trigger] occupied(s, i) && 0 <= t < probe_len(s, i) implies occupied(
        s,
        #[trigger] slot_ahead(home_of(s[i]->0.hash, n), t, n),
    ) by {
        let start = home_of(s[i]->0.hash, n);
        lemma_home_in_range(s[i]->0.hash, n);
        let d = probe_len(s, i);
        assert(slot_ahead(start, d, n) == i);
        assert(rh_at(s, i));
        lemma_chain(s, i, d, d - t);
        assert(slot_back(i, d - t, n) == slot_ahead(start, t, n));
    }
}

/// An entry with `hash` that is missing from the probe sequence starting at its home slot,
/// up to the first empty slot, is absent from a table whose probe paths are occupied.
proof fn lemma_absent_from_probe<K, V>(s: Slots<K, V>, hash: u64, key: K, step: int)
    requires
        paths_occupied(s),
        table_shape(s.len() as int),
        s.len() > 0,
        0 <= step <= s.len(),
        forall|t: int|
            0 <= t < step ==> #[trigger] occupied(
                s,
                slot_ahead(home_of(hash, s.len() as int), t, s.len() as int),
            ),
        forall|t: int|
            0 <= t < step ==> #[trigger] key_at(
                s,
                slot_ahead(home_of(hash, s.len() as int), t, s.len() as int),
            ) != (hash, key),
        step < s.len() ==> !occupied(s, slot_ahead(home_of(hash, s.len() as int), step, s.len() as int)),
    ensures
        absent(s, hash, key),
{
    let n = s.len() as int;
    let start = home_of(hash, n);
    lemma_home_in_range(hash, n);
    assert forall|i: int| 0 <= i < n && occupied(s, i) implies #[trigger] key_at(s, i) != (hash, key) by {
        if key_at(s, i) == (hash, key) {
            let d = probe_len(s, i);
            assert(slot_ahead(start, d, n) == i);
            if d < step {
                assert(key_at(s, slot_ahead(start, d, n)) != (hash, key));
            } else if d > step {
                assert(occupied(s, slot_ahead(home_of(s[i]->0.hash, n), step, n)));
            }
        }
    }
}

/// Find the slot of the entry with `hash` and `key`, probing from its home slot up to the
/// first empty slot. In a table whose probe paths are occupied (as the robin hood condition
/// ensures), finding no such slot means that the entry is absent.
pub fn get_index<K: Eq, V>(slice: &[Option<KeyValue<K, V>>], hash: u64, key: &K) -> (r: Option<usize>)
    requires
        table_shape(slice@.len() as int),
    ensures
        match r {
            Some(i) => {
                &&& i < slice@.len()
                &&& occupied(slice@, i as int)
                &&& slice@[i as int]->0.hash == hash
                &&& obeys_concrete_eq::<K>() ==> slice@[i as int]->0.key == *key
            },
            None => obeys_concrete_eq::<K>() && paths_occupied(slice@) ==> absent(slice@, hash, *key),
        },
{
    if slice.len() == 0 {
        return None;
    }
    let n: usize = slice.len();
    let mask: usize = n - 1;
    proof {
        assert(is_mask(mask));
    }
    let mut loc_idx: usize = get_location_from_hash(hash, mask);
    let ghost start: int = loc_idx as int;
    proof {
        reveal(obeys_concrete_eq);
    }
    let mut step: usize = 0;
    while step < n
        invariant
            n == slice@.len(),
            mask == n - 1,
            is_mask(mask),
            table_shape(n as int),
            start == home_of(hash, n as int),
            0 <= start < n,
            step <= n,
            loc_idx == slot_ahead(start, step as int, n as int),
            forall|t: int| 0 <= t < step ==> #[trigger] occupied(slice@, slot_ahead(start, t, n as int)),
            forall|t: int|
                0 <= t < step && obeys_concrete_eq::<K>() ==> #[trigger] key_at(
                    slice@,
                    slot_ahead(start, t, n as int),
                ) != (hash, *key),
        decreases n - step,
    {
        proof {
            reveal(obeys_concrete_eq);
        }
        match &slice[loc_idx] {
            Some(rslt) => {
                if rslt.hash == hash && rslt.key == *key {
                    return Some(loc_idx);
                }
                assert(occupied(slice@, loc_idx as int));
                assert(obeys_concrete_eq::<K>() ==> key_at(slice@, loc_idx as int) != (hash, *key));
                loc_idx = get_next_location(loc_idx, mask);
                assert(loc_idx == slot_ahead(start, step + 1, n as int));
            },
            None => {
                proof {
                    if obeys_concrete_eq::<K>() && paths_occupied(slice@) {
                        lemma_absent_from_probe(slice@, hash, *key, step as int);
                    }
                }
                return None;
            },
        }
        step = step + 1;
    }
    proof {
        if obeys_concrete_eq::<K>() && paths_occupied(slice@) {
            lemma_absent_from_probe(slice@, hash, *key, step as int);
        }
    }
    None
}

/// Writing entry `x` into slot `c` keeps the robin hood condition, provided `x` would
/// satisfy it there and sits at least as far from its home as the entry it replaces.
proof fn lemma_rh_put<K, V>(s: Slots<K, V>, c: int, x: KeyValue<K, V>)
    requires
        robin_hood(s),
        table_shape(s.len() as int),
        0 <= c < s.len(),
        ({
            let px = cyclic_distance(home_of(x.hash, s.len() as int), c, s.len() as int);
            &&& px == 0 || (occupied(s, prev_slot(c, s.len() as int)) && probe_len(
                s,
                prev_slot(c, s.len() as int),
            ) + 1 >= px)
            &&& occupied(s, c) ==> probe_len(s, c) <= px
        }),
    ensures
        robin_hood(s.update(c, Some(x))),
{
    let n = s.len() as int;
    let t = s.update(c, Some(x));
    lemma_home_in_range(x.hash, n);
    assert forall|j: int| 0 <= j < n implies #[trigger] rh_at(t, j) by {
        assert(rh_at(s, j));
        if j != c {
            assert(t[j] == s[j]);
            if prev_slot(j, n) == c {
                assert(j == next_slot(c, n));
            } else {
                assert(t[prev_slot(j, n)] == s[prev_slot(j, n)]);
            }
        }
    }
}

/// Replacing the entry in an occupied slot by one with the same identity, or with an
/// identity that the table does not hold, keeps identities unique and the held map exact.
proof fn lemma_table_update<K, V>(s: Slots<K, V>, m: Map<(u64, K), V>, c: int, x: KeyValue<K, V>)
    requires
        holds_map(s, m),
        unique_keys(s),
        0 <= c < s.len(),
        occupied(s, c),
        (x.hash, x.key) == key_at(s, c) || !m.contains_key((x.hash, x.key)),
    ensures
        holds_map(s.update(c, Some(x)), m.remove(key_at(s, c)).insert((x.hash, x.key), x.value)),
        unique_keys(s.update(c, Some(x))),
{
    let t = s.update(c, Some(x));
    let kc = key_at(s, c);
    let kx = (x.hash, x.key);
    let m2 = m.remove(kc).insert(kx, x.value);
    assert(key_at(t, c) == kx);
    assert forall|i: int| 0 <= i < t.len() && occupied(t, i) implies m2.contains_key(
        #[trigger] key_at(t, i),
    ) && m2[key_at(t, i)] == t[i]->0.value by {
        if i != c {
            assert(key_at(t, i) == key_at(s, i));
            assert(key_at(s, i) != kc);
        }
    }
    assert forall|k: (u64, K)| #[trigger] m2.contains_key(k) implies exists|i: int|
        0 <= i < t.len() && occupied(t, i) && #[trigger] key_at(t, i) == k by {
        if k == kx {
            assert(key_at(t, c) == k);
        } else {
            assert(m.contains_key(k));
            let i = choose|i: int| 0 <= i < s.len() && occupied(s, i) && #[trigger] key_at(s, i) == k;
            assert(i != c);
            assert(key_at(t, i) == k);
        }
    }
    assert forall|i: int, j: int|
        0 <= i < t.len() && 0 <= j < t.len() && occupied(t, i) && occupied(t, j) && #[trigger] key_at(
            t,
            i,
        ) == #[trigger] key_at(t, j) implies i == j by {
        if i != c && j != c {
            assert(key_at(s, i) == key_at(s, j));
        } else if i == c && j != c {
            assert(key_at(s, j) == kx);
            assert(key_at(s, j) != kc);
            assert(m.contains_key(key_at(s, j)));
        } else if i != c && j == c {
            assert(key_at(s, i) == kx);
            assert(key_at(s, i) != kc);
            assert(m.contains_key(key_at(s, i)));
        }
    }
}

/// Writing an entry whose identity the table does not hold into an empty slot keeps
/// identities unique and adds the entry to the held map.
proof fn lemma_table_fill<K, V>(s: Slots<K, V>, m: Map<(u64, K), V>, c: int, x: KeyValue<K, V>)
    requires
        holds_map(s, m),
        unique_keys(s),
        0 <= c < s.len(),
        !occupied(s, c),
        !m.contains_key((x.hash, x.key)),
    ensures
        holds_map(s.update(c, Some(x)), m.insert((x.hash, x.key), x.value)),
        unique_keys(s.update(c, Some(x))),
{
    let t = s.update(c, Some(x));
    let kx = (x.hash, x.key);
    let m2 = m.insert(kx, x.value);
    assert(key_at(t, c) == kx);
    assert forall|i: int| 0 <= i < t.len() && occupied(t, i) implies m2.contains_key(
        #[trigger] key_at(t, i),
    ) && m2[key_at(t, i)] == t[i]->0.value by {
        if i != c {
            assert(key_at(t, i) == key_at(s, i));
            assert(m.contains_key(key_at(s, i)));
        }
    }
    assert forall|k: (u64, K)| #[trigger] m2.contains_key(k) implies exists|i: int|
        0 <= i < t.len() && occupied(t, i) && #[trigger] key_at(t, i) == k by {
        if k == kx {
            assert(key_at(t, c) == k);
        } else {
            assert(m.contains_key(k));
            let i = choose|i: int| 0 <= i < s.len() && occupied(s, i) && #[trigger] key_at(s, i) == k;
            assert(key_at(t, i) == k);
        }
    }
    assert forall|i: int, j: int|
        0 <= i < t.len() && 0 <= j < t.len() && occupied(t, i) && occupied(t, j) && #[trigger] key_at(
            t,
            i,
        ) == #[trigger] key_at(t, j) implies i == j by {
        if i != c && j != c {
            assert(key_at(s, i) == key_at(s, j));
        } else if i == c && j != c {
            assert(m.contains_key(key_at(s, j)));
        } else if i != c && j == c {
            assert(m.contains_key(key_at(s, i)));
        }
    }
}

/// The carried entry, `dx` steps from its home at occupied slot `c`, is followed back by `dx`
/// occupied slots; an empty slot elsewhere bounds `dx + 1` below the table size.
proof fn lemma_carried_room<K, V>(s: Slots<K, V>, c: int, dx: int, e: int)
    requires
        robin_hood(s),
        0 <= c < s.len(),
        0 <= e < s.len(),
        occupied(s, c),
        !occupied(s, e),
        0 <= dx < s.len(),
        dx == 0 || (occupied(s, prev_slot(c, s.len() as int)) && probe_len(s, prev_slot(c, s.len() as int))
            + 1 >= dx),
    ensures
        dx + 1 < s.len(),
{
    let n = s.len() as int;
    let u = cyclic_distance(e, c, n);
    assert(slot_back(c, u, n) == e);
    if u <= dx {
        lemma_chain(s, c, dx, u);
    }
}

/// The probe sequence from `start` has met only occupied slots for `i + 1` steps; an empty
/// slot elsewhere bounds `i + 1` below the table size.
proof fn lemma_probe_room<K, V>(s: Slots<K, V>, start: int, i: int, e: int)
    requires
        0 <= start < s.len(),
        0 <= i < s.len(),
        0 <= e < s.len(),
        !occupied(s, e),
        forall|t: int| 0 <= t <= i ==> #[trigger] occupied(s, slot_ahead(start, t, s.len() as int)),
    ensures
        i + 1 < s.len(),
{
    let n = s.len() as int;
    let u = cyclic_distance(start, e, n);
    assert(slot_ahead(start, u, n) == e);
    if u <= i {
        assert(occupied(s, slot_ahead(start, u, n)));
    }
}

/// Probing for `(hash, key)` from its home met `i` occupied slots holding other entries and
/// then an empty one: the table does not hold the entry.
proof fn lemma_insert_absent_at_gap<K, V>(
    s: Slots<K, V>,
    m: Map<(u64, K), V>,
    hash: u64,
    key: K,
    start: int,
    i: int,
)
    requires
        robin_hood(s),
        table_shape(s.len() as int),
        s.len() > 0,
        holds_map(s, m),
        start == home_of(hash, s.len() as int),
        0 <= i < s.len(),
        forall|t: int| 0 <= t < i ==> #[trigger] occupied(s, slot_ahead(start, t, s.len() as int)),
        forall|t: int|
            0 <= t < i ==> #[trigger] key_at(s, slot_ahead(start, t, s.len() as int)) != (hash, key),
        !occupied(s, slot_ahead(start, i, s.len() as int)),
    ensures
        !m.contains_key((hash, key)),
{
    lemma_robin_hood_paths(s);
    lemma_absent_from_probe(s, hash, key, i);
}

/// Probing for `(hash, key)` from its home met `i` occupied slots holding other entries and
/// then one whose entry sits fewer than `i` steps from its own home: by the robin hood
/// condition the table does not hold the entry.
proof fn lemma_insert_absent_before_shorter<K, V>(
    s: Slots<K, V>,
    m: Map<(u64, K), V>,
    hash: u64,
    key: K,
    start: int,
    i: int,
)
    requires
        robin_hood(s),
        table_shape(s.len() as int),
        s.len() > 0,
        holds_map(s, m),
        start == home_of(hash, s.len() as int),
        0 <= i < s.len(),
        forall|t: int| 0 <= t < i ==> #[trigger] occupied(s, slot_ahead(start, t, s.len() as int)),
        forall|t: int|
            0 <= t < i ==> #[trigger] key_at(s, slot_ahead(start, t, s.len() as int)) != (hash, key),
        occupied(s, slot_ahead(start, i, s.len() as int)),
        key_at(s, slot_ahead(start, i, s.len() as int)) != (hash, key),
        probe_len(s, slot_ahead(start, i, s.len() as int)) < i,
    ensures
        !m.contains_key((hash, key)),
{
    let n = s.len() as int;
    lemma_home_in_range(hash, n);
    if m.contains_key((hash, key)) {
        let k = choose|k: int| 0 <= k < n && occupied(s, k) && #[trigger] key_at(s, k) == (hash, key);
        let d = probe_len(s, k);
        assert(slot_ahead(start, d, n) == k);
        if d < i {
            assert(key_at(s, slot_ahead(start, d, n)) != (hash, key));
        } else if d > i {
            assert(rh_at(s, k));
            lemma_chain(s, k, d, d - i);
            assert(slot_back(k, d - i, n) == slot_ahead(start, i, n));
        }
    }
}

/// Insert `key_value` into the table `slice` with robin hood probing: an entry that sits
/// further from its home slot than the seated one takes its place, and the seated one
/// moves on. Returns the value replaced when the table held an entry with the same hash
/// and key.
fn robin_hood_insert_slice<K: Eq, V>(
    slice: &mut Vec<Option<KeyValue<K, V>>>,
    key_value: KeyValue<K, V>,
    Ghost(m): Ghost<Map<(u64, K), V>>,
) -> (r: Option<V>)
    requires
        old(slice)@.len() > 0,
        table_shape(old(slice)@.len() as int),
        robin_hood(old(slice)@),
        unique_keys(old(slice)@),
        holds_map(old(slice)@, m),
        count_occupied(old(slice)@) < old(slice)@.len() || m.contains_key((key_value.hash, key_value.key)),
        obeys_concrete_eq::<K>(),
    ensures
        final(slice)@.len() == old(slice)@.len(),
        m.contains_key((key_value.hash, key_value.key)) ==> exists|p: int|
            {
                &&& 0 <= p < old(slice)@.len()
                &&& occupied(old(slice)@, p)
                &&& #[trigger] key_at(old(slice)@, p) == (key_value.hash, key_value.key)
                &&& final(slice)@ == old(slice)@.update(p, Some(key_value))
            },
        robin_hood(final(slice)@),
        unique_keys(final(slice)@),
        holds_map(final(slice)@, m.insert((key_value.hash, key_value.key), key_value.value)),
        r == (if m.contains_key((key_value.hash, key_value.key)) {
            Some(m[(key_value.hash, key_value.key)])
        } else {
            None
        }),
        count_occupied(final(slice)@) == count_occupied(old(slice)@) + (if m.contains_key(
            (key_value.hash, key_value.key),
        ) {
            0int
        } else {
            1int
        }),
{
    let ghost s0 = slice@;
    let ghost nk = (key_value.hash, key_value.key);
    let ghost kv0 = key_value;
    let ghost target = m.insert(nk, key_value.value);
    let n: usize = slice.len();
    let mask: usize = n - 1;
    let ghost present = m.contains_key(nk);
    proof {
        assert(is_mask(mask));
        lemma_count_bound(s0);
        lemma_home_in_range(key_value.hash, n as int);
    }
    let ghost e: int = choose|e: int| 0 <= e < s0.len() && s0[e] is None;
    let ghost p: int = choose|p: int| 0 <= p < s0.len() && occupied(s0, p) && #[trigger] key_at(s0, p) == nk;
    let ghost d: int = probe_len(s0, p);
    proof {
        if present {
            assert(0 <= p < n && occupied(s0, p) && key_at(s0, p) == nk);
            assert(home_of(s0[p]->0.hash, n as int) == home_of(kv0.hash, n as int));
            assert(0 <= d < n);
            assert(slot_ahead(home_of(kv0.hash, n as int), d, n as int) == p);
        }
    }
    let mut key_value_mut = key_value;
    let mut current_idx: usize = get_location_from_hash(key_value_mut.hash, mask);
    let mut ideal_idx: usize = current_idx;
    let ghost start: int = current_idx as int;
    let ghost mut displaced: bool = false;
    let mut i: usize = 0;
    loop
        invariant
            n == slice@.len(),
            n > 0,
            mask == n - 1,
            is_mask(mask),
            table_shape(n as int),
            obeys_concrete_eq::<K>(),
            target == m.insert(nk, kv0.value),
            nk == (kv0.hash, kv0.key),
            kv0 == key_value,
            s0 == old(slice)@,
            s0.len() == n,
            i < n,
            start == home_of(kv0.hash, n as int),
            0 <= start < n,
            current_idx == slot_ahead(start, i as int, n as int),
            ideal_idx == home_of(key_value_mut.hash, n as int),
            ideal_idx < n,
            robin_hood(slice@),
            unique_keys(slice@),
            present == m.contains_key(nk),
            !present ==> 0 <= e < n && slice@[e] is None,
            present ==> {
                &&& !displaced
                &&& i <= d
                &&& 0 <= p < n
                &&& 0 <= d < n
                &&& occupied(s0, p)
                &&& key_at(s0, p) == nk
                &&& d == probe_len(s0, p)
                &&& slot_ahead(start, d, n as int) == p
            },
            forall|j: int| 0 <= j < n ==> (#[trigger] occupied(slice@, j) <==> occupied(s0, j)),
            count_occupied(slice@) == count_occupied(s0),
            forall|t: int|
                0 <= t < i ==> #[trigger] occupied(slice@, slot_ahead(start, t, n as int)),
            ({
                let dx = cyclic_distance(ideal_idx as int, current_idx as int, n as int);
                dx == 0 || (occupied(slice@, prev_slot(current_idx as int, n as int)) && probe_len(
                    slice@,
                    prev_slot(current_idx as int, n as int),
                ) + 1 >= dx)
            }),
            !displaced ==> {
                &&& slice@ == s0
                &&& key_value_mut == kv0
                &&& holds_map(slice@, m)
                &&& forall|t: int|
                    0 <= t < i ==> #[trigger] key_at(slice@, slot_ahead(start, t, n as int)) != nk
            },
            displaced ==> {
                &&& !m.contains_key(nk)
                &&& target.contains_key((key_value_mut.hash, key_value_mut.key))
                &&& target[(key_value_mut.hash, key_value_mut.key)] == key_value_mut.value
                &&& holds_map(slice@, target.remove((key_value_mut.hash, key_value_mut.key)))
            },
        decreases n - i,
    {
        let ghost s = slice@;
        let ghost ck = (key_value_mut.hash, key_value_mut.key);
        let ghost dx = cyclic_distance(ideal_idx as int, current_idx as int, n as int);
        let (is_occupied, matches, seated_ideal_idx) = match &slice[current_idx] {
            Some(current) => (true, current.same_key(&key_value_mut), get_location_from_hash(current.hash, mask)),
            None => (false, false, 0),
        };
        if !is_occupied {
            proof {
                lemma_rh_put(s, current_idx as int, key_value_mut);
                lemma_count_update(s, current_idx as int, Some(key_value_mut));
                if !displaced {
                    lemma_insert_absent_at_gap(s, m, kv0.hash, kv0.key, start, i as int);
                    lemma_table_fill(s, m, current_idx as int, key_value_mut);
                } else {
                    lemma_table_fill(s, target.remove(ck), current_idx as int, key_value_mut);
                    assert(target.remove(ck).insert(ck, key_value_mut.value) =~= target);
                }
            }
            slice.set(current_idx, Some(key_value_mut));
            return None;
        }
        if matches {
            proof {
                if displaced {
                    assert(key_at(s, current_idx as int) == ck);
                    assert(target.remove(ck).contains_key(key_at(s, current_idx as int)));
                }
                lemma_home_in_range(key_value_mut.hash, n as int);
                lemma_rh_put(s, current_idx as int, key_value_mut);
                lemma_table_update(s, m, current_idx as int, key_value_mut);
                lemma_count_update(s, current_idx as int, Some(key_value_mut));
                assert(m.remove(nk).insert(nk, kv0.value) =~= target);
            }
            let mut replaced = Some(key_value_mut);
            slice.set_and_swap(current_idx, &mut replaced);
            proof {
                if present {
                    assert(key_at(s0, current_idx as int) == nk);
                    assert(slice@ == s0.update(current_idx as int, Some(key_value)));
                }
            }
            let old = replaced.unwrap();
            return Some(old.value);
        }
        proof {
            lemma_home_in_range(s[current_idx as int]->0.hash, n as int);
        }
        let seated_distance = get_probe_distance(current_idx, seated_ideal_idx, mask);
        let current_distance = get_probe_distance(current_idx, ideal_idx, mask);
        proof {
            if present {
                assert(key_at(s, current_idx as int) != nk);
                assert(current_idx != p);
                assert(i < d);
                assert(rh_at(s0, p));
                lemma_chain(s0, p, d, d - i);
                assert(slot_back(p, d - i, n as int) == current_idx);
                assert(dx == i);
            } else {
                lemma_carried_room(s, current_idx as int, dx, e);
            }
        }
        if current_distance > seated_distance {
            let ghost y = s[current_idx as int]->0;
            proof {
                lemma_rh_put(s, current_idx as int, key_value_mut);
                lemma_count_update(s, current_idx as int, Some(key_value_mut));
                if !displaced {
                    lemma_insert_absent_before_shorter(s, m, kv0.hash, kv0.key, start, i as int);
                    lemma_table_update(s, m, current_idx as int, key_value_mut);
                    assert(m.remove(key_at(s, current_idx as int)).insert(nk, kv0.value)
                        =~= target.remove(key_at(s, current_idx as int)));
                } else {
                    lemma_table_update(s, target.remove(ck), current_idx as int, key_value_mut);
                    assert(target.remove(ck).remove(key_at(s, current_idx as int)).insert(ck, key_value_mut.value)
                        =~= target.remove(key_at(s, current_idx as int)));
                }
            }
            let mut swapped = Some(key_value_mut);
            slice.set_and_swap(current_idx, &mut swapped);
            assert forall|j: int| 0 <= j < n implies (#[trigger] occupied(slice@, j) <==> occupied(s0, j)) by {
                assert(occupied(s, j) <==> occupied(s0, j));
            }
            key_value_mut = swapped.unwrap();
            ideal_idx = seated_ideal_idx;
            proof {
                displaced = true;
            }
        }
        proof {
            assert(occupied(slice@, current_idx as int));
            assert forall|t: int| 0 <= t <= i implies #[trigger] occupied(
                slice@,
                slot_ahead(start, t, n as int),
            ) by {
                if t < i {
                    assert(occupied(s, slot_ahead(start, t, n as int)));
                }
            }
            if !present {
                lemma_probe_room(slice@, start, i as int, e);
            }
        }
        current_idx = get_next_location(current_idx, mask);
        i = i + 1;
    }
}

/// Clearing an occupied slot removes its entry from the held map.
proof fn lemma_table_clear<K, V>(s: Slots<K, V>, m: Map<(u64, K), V>, c: int)
    requires
        holds_map(s, m),
        unique_keys(s),
        0 <= c < s.len(),
        occupied(s, c),
    ensures
        holds_map(s.update(c, None), m.remove(key_at(s, c))),
        unique_keys(s.update(c, None)),
{
    let t = s.update(c, None);
    let kc = key_at(s, c);
    let m2 = m.remove(kc);
    assert forall|i: int| 0 <= i < t.len() && occupied(t, i) implies m2.contains_key(
        #[trigger] key_at(t, i),
    ) && m2[key_at(t, i)] == t[i]->0.value by {
        assert(key_at(t, i) == key_at(s, i));
        assert(key_at(s, i) != kc);
    }
    assert forall|k: (u64, K)| #[trigger] m2.contains_key(k) implies exists|i: int|
        0 <= i < t.len() && occupied(t, i) && #[trigger] key_at(t, i) == k by {
        let i = choose|i: int| 0 <= i < s.len() && occupied(s, i) && #[trigger] key_at(s, i) == k;
        assert(i != c);
        assert(key_at(t, i) == k);
    }
    assert forall|i: int, j: int|
        0 <= i < t.len() && 0 <= j < t.len() && occupied(t, i) && occupied(t, j) && #[trigger] key_at(
            t,
            i,
        ) == #[trigger] key_at(t, j) implies i == j by {
        assert(key_at(s, i) == key_at(s, j));
    }
}

/// The slots of `t` are those of `s` with the entry of occupied slot `from` moved to the
/// empty slot `to`.
pub open spec fn moved_to<K, V>(s: Slots<K, V>, t: Slots<K, V>, from: int, to: int) -> bool {
    t == s.update(to, s[from]).update(from, None)
}

/// Moving an entry into an empty slot keeps the held map and identity uniqueness.
proof fn lemma_table_move<K, V>(s: Slots<K, V>, t: Slots<K, V>, m: Map<(u64, K), V>, from: int, to: int)
    requires
        holds_map(s, m),
        unique_keys(s),
        0 <= from < s.len(),
        0 <= to < s.len(),
        from != to,
        occupied(s, from),
        !occupied(s, to),
        moved_to(s, t, from, to),
    ensures
        holds_map(t, m),
        unique_keys(t),
        count_occupied(t) == count_occupied(s),
{
    assert(key_at(t, to) == key_at(s, from));
    assert forall|i: int| 0 <= i < t.len() && occupied(t, i) implies m.contains_key(
        #[trigger] key_at(t, i),
    ) && m[key_at(t, i)] == t[i]->0.value by {
        if i != to {
            assert(key_at(t, i) == key_at(s, i));
        }
    }
    assert forall|k: (u64, K)| #[trigger] m.contains_key(k) implies exists|i: int|
        0 <= i < t.len() && occupied(t, i) && #[trigger] key_at(t, i) == k by {
        let i = choose|i: int| 0 <= i < s.len() && occupied(s, i) && #[trigger] key_at(s, i) == k;
        if i == from {
            assert(key_at(t, to) == k);
        } else {
            assert(key_at(t, i) == k);
        }
    }
    assert forall|i: int, j: int|
        0 <= i < t.len() && 0 <= j < t.len() && occupied(t, i) && occupied(t, j) && #[trigger] key_at(
            t,
            i,
        ) == #[trigger] key_at(t, j) implies i == j by {
        let si = if i == to { from } else { i };
        let sj = if j == to { from } else { j };
        assert(key_at(t, i) == key_at(s, si));
        assert(key_at(t, j) == key_at(s, sj));
    }
    let u = s.update(to, s[from]);
    lemma_count_update(s, to, s[from]);
    lemma_count_update(u, from, None);
}

/// The robin hood condition holds everywhere except, possibly, just after the hole `h`.
pub open spec fn rh_except<K, V>(s: Slots<K, V>, h: int) -> bool {
    forall|j: int| 0 <= j < s.len() && j != next_slot(h, s.len() as int) ==> #[trigger] rh_at(s, j)
}

/// Moving the entry after the hole `h` back into it would satisfy the robin hood condition.
pub open spec fn shift_ok<K, V>(s: Slots<K, V>, h: int) -> bool {
    let n = s.len() as int;
    let nx = next_slot(h, n);
    occupied(s, nx) && probe_len(s, nx) > 1 ==> occupied(s, prev_slot(h, n)) && probe_len(
        s,
        prev_slot(h, n),
    ) + 1 >= probe_len(s, nx) - 1
}

proof fn lemma_remove_start<K, V>(s: Slots<K, V>, r: int)
    requires
        robin_hood(s),
        s.len() >= 3,
        0 <= r < s.len(),
        occupied(s, r),
    ensures
        rh_except(s.update(r, None), r),
        shift_ok(s.update(r, None), r),
{
    let n = s.len() as int;
    let t = s.update(r, None);
    assert forall|j: int| 0 <= j < n && j != next_slot(r, n) implies #[trigger] rh_at(t, j) by {
        assert(rh_at(s, j));
        if j != r {
            assert(prev_slot(j, n) != r);
        }
    }
    let nx = next_slot(r, n);
    assert(rh_at(s, nx));
    assert(rh_at(s, r));
    assert(prev_slot(r, n) != r);
}

proof fn lemma_shift_step<K, V>(s: Slots<K, V>, t: Slots<K, V>, h: int)
    requires
        rh_except(s, h),
        shift_ok(s, h),
        s.len() >= 3,
        table_shape(s.len() as int),
        0 <= h < s.len(),
        !occupied(s, h),
        occupied(s, next_slot(h, s.len() as int)),
        probe_len(s, next_slot(h, s.len() as int)) > 0,
        moved_to(s, t, next_slot(h, s.len() as int), h),
    ensures
        rh_except(t, next_slot(h, s.len() as int)),
        shift_ok(t, next_slot(h, s.len() as int)),
{
    let n = s.len() as int;
    let nx = next_slot(h, n);
    let nn = next_slot(nx, n);
    lemma_home_in_range(s[nx]->0.hash, n);
    assert(probe_len(t, h) == probe_len(s, nx) - 1);
    assert forall|j: int| 0 <= j < n && j != nn implies #[trigger] rh_at(t, j) by {
        if j == h {
        } else if j == nx {
        } else {
            assert(rh_at(s, j));
            assert(prev_slot(j, n) != h);
            assert(prev_slot(j, n) != nx);
        }
    }
    assert(rh_at(s, nn));
    assert(nn != h);
}

proof fn lemma_shift_end<K, V>(s: Slots<K, V>, h: int)
    requires
        rh_except(s, h),
        0 <= h < s.len(),
        !(occupied(s, next_slot(h, s.len() as int)) && probe_len(s, next_slot(h, s.len() as int)) > 0),
    ensures
        robin_hood(s),
{
    let n = s.len() as int;
    assert forall|j: int| 0 <= j < n implies #[trigger] rh_at(s, j) by {
    }
}

/// The slot of `s` that holds the entry identified by `k`.
pub open spec fn slot_of<K, V>(s: Slots<K, V>, k: (u64, K)) -> int {
    choose|i: int| 0 <= i < s.len() && occupied(s, i) && #[trigger] key_at(s, i) == k
}

/// The map over the identities in `keys`, each to the value of its slot in `s`.
pub open spec fn view_of<K, V>(s: Slots<K, V>, keys: Set<(u64, K)>) -> Map<(u64, K), V> {
    Map::new(|k: (u64, K)| keys.contains(k), |k: (u64, K)| s[slot_of(s, k)]->0.value)
}

proof fn lemma_view_dom<K, V>(s: Slots<K, V>, keys: Set<(u64, K)>)
    ensures
        view_of(s, keys).dom() == keys,
{
    assert(view_of(s, keys).dom() =~= keys);
}

proof fn lemma_view_of<K, V>(s: Slots<K, V>, m: Map<(u64, K), V>)
    requires
        holds_map(s, m),
    ensures
        view_of(s, m.dom()) == m,
{
    assert forall|k: (u64, K)| #[trigger] m.contains_key(k) implies view_of(s, m.dom())[k] == m[k] by {
        let i = slot_of(s, k);
        assert(key_at(s, i) == k);
    }
    assert(view_of(s, m.dom()) =~= m);
}

/// `Some` of the value that `m` maps `k` to, or `None` when `m` has no entry for `k`.
pub open spec fn map_get<K, V>(m: Map<K, V>, k: K) -> Option<V> {
    if m.contains_key(k) {
        Some(m[k])
    } else {
        None
    }
}

/// `r` is what a lookup of `key`, whose hash is `hash`, gives back from the map `m`: a value
/// stored under `hash` if any, and with a lawful `==` on keys exactly the value stored under
/// `(hash, key)`, or `None` when there is none.
pub open spec fn lookup_result<K: PartialEq, V>(
    m: Map<(u64, K), V>,
    hash: u64,
    key: K,
    r: Option<&V>,
) -> bool {
    &&& r matches Some(v) ==> exists|k: K| #[trigger] m.contains_key((hash, k)) && m[(hash, k)] == *v
    &&& obeys_concrete_eq::<K>() ==> r == match map_get(m, (hash, key)) {
        Some(v) => Some(&v),
        None => None,
    }
}

/// `after` and `r` are what removing `key`, whose hash is `hash`, makes of the map `before`:
/// either an entry stored under `hash` is gone and its value returned, or nothing changed;
/// with a lawful `==` on keys, exactly the entry under `(hash, key)` is removed.
pub open spec fn removal_result<K: PartialEq, V>(
    before: Map<(u64, K), V>,
    after: Map<(u64, K), V>,
    hash: u64,
    key: K,
    r: Option<V>,
) -> bool {
    &&& r matches Some(v) ==> exists|k: K|
        #[trigger] before.contains_key((hash, k)) && before[(hash, k)] == v && after == before.remove(
            (hash, k),
        )
    &&& r is None ==> after == before
    &&& obeys_concrete_eq::<K>() ==> after == before.remove((hash, key)) && r == map_get(before, (hash, key))
}

/// A mutable lookup of `key`, whose hash is `hash`, found in `before` an entry stored under
/// `hash` whose value was `current`, and left it with `last`, giving `after`; with a lawful
/// `==` on keys the entry is the one under `(hash, key)`.
pub open spec fn found_entry<K: PartialEq, V>(
    before: Map<(u64, K), V>,
    after: Map<(u64, K), V>,
    hash: u64,
    key: K,
    current: V,
    last: V,
) -> bool {
    exists|k: K|
        {
            &&& #[trigger] before.contains_key((hash, k))
            &&& current == before[(hash, k)]
            &&& after == before.insert((hash, k), last)
            &&& obeys_concrete_eq::<K>() ==> k == key
        }
}

/// A mutable lookup of `key` found in `before` an entry, under some hash, whose value was
/// `current`, and left it with `last`, giving `after`; with a lawful `==` on keys the entry
/// is the one of `key`.
pub open spec fn entry_written<K: PartialEq, V>(
    before: Map<(u64, K), V>,
    after: Map<(u64, K), V>,
    key: K,
    current: V,
    last: V,
) -> bool {
    exists|hash: u64, k: K|
        {
            &&& #[trigger] before.contains_key((hash, k))
            &&& current == before[(hash, k)]
            &&& after == before.insert((hash, k), last)
            &&& obeys_concrete_eq::<K>() ==> k == key
        }
}

/// A table of `n` slots can be laid out in memory: the allocation of the slot array
/// stays within `isize::MAX` bytes.
pub open spec fn slots_fit<K, V>(n: nat) -> bool {
    n <= isize::MAX && n * size_of::<Option<KeyValue<K, V>>>() <= isize::MAX
}

/// The hash of `key` under the hasher that `build_hasher` builds, by `BuildHasher::hash_one`.
/// The digest depends on the hasher's state (for `RandomState`, keys drawn at random per
/// process) and on the key's `Hash` impl, so nothing is stated of it.
#[verifier::external_body]
pub(crate) fn hash_key<K: Hash + ?Sized, S: BuildHasher>(build_hasher: &S, key: &K) -> u64 {
    build_hasher.hash_one(key)
}

/// Hash map with open addressing, robin hood insertion and backward-shift deletion.
///
/// Each entry keeps the hash of its key computed when it was inserted; the map is viewed
/// as a map from (hash, key) to value, which is how entries are told apart.
#[verifier::reject_recursive_types(K)]
pub struct HashMap<K, V, S = RandomState> {
    data: Vec<Option<KeyValue<K, V>>>,
    size: usize,
    build_hasher: S,
    keys: Ghost<Set<(u64, K)>>,
}

impl<K, V, S> View for HashMap<K, V, S> {
    type V = Map<(u64, K), V>;

    closed spec fn view(&self) -> Map<(u64, K), V> {
        view_of(self.data@, self.keys@)
    }
}

impl<K, V, S> HashMap<K, V, S> {
    /// The table invariant: the slot count is zero or a power of two of at least eight, the
    /// table satisfies the robin hood condition, entries are unique by hash and key and are
    /// exactly those of the view, and at most three quarters of the slots are occupied.
    pub closed spec fn wf(&self) -> bool {
        let s = self.data@;
        let n = s.len() as int;
        &&& table_shape(n)
        &&& n == 0 || n >= 8
        &&& slots_fit::<K, V>(n as nat)
        &&& robin_hood(s)
        &&& unique_keys(s)
        &&& holds_map(s, self@)
        &&& self.size == count_occupied(s)
        &&& self@.dom() == self.keys@
        &&& self.keys@.finite()
        &&& self.keys@.len() == self.size
        &&& self.size <= (n / 4) * 3
    }

    /// The slots of the table, in order; an empty slot is `None`.
    pub closed spec fn slots(&self) -> Slots<K, V> {
        self.data@
    }

    /// The occupied slots of a well-formed map hold exactly its entries, no two of them the
    /// same entry.
    pub proof fn lemma_slots_hold_view(&self)
        requires
            self.wf(),
        ensures
            holds_map(self.slots(), self@),
            unique_keys(self.slots()),
            self.slots().len() == self.spec_capacity(),
    {
    }

    /// A well-formed map has finitely many entries, no slots or a power of two of at least
    /// eight, and keeps at least a quarter of its slots free: growth happens before an
    /// insertion would go beyond three quarters.
    pub proof fn lemma_load_factor(&self)
        requires
            self.wf(),
        ensures
            self@.dom().finite(),
            self@.len() <= (self.spec_capacity() / 4) * 3,
            self.spec_capacity() == 0 || (self.spec_capacity() >= 8 && self.spec_capacity() <= usize::MAX
                && is_pow2(self.spec_capacity() as usize)),
    {
    }

    /// Number of slots in the table.
    pub closed spec fn spec_capacity(&self) -> nat {
        self.data@.len()
    }

    /// The hasher the map was built with.
    pub closed spec fn spec_hasher(&self) -> S {
        self.build_hasher
    }

    /// An insertion grows the table first: three quarters of its slots are in use.
    pub open spec fn spec_should_grow(&self) -> bool {
        self@.len() >= (self.spec_capacity() / 4) * 3
    }

    /// The slot count after the growth step of an insertion.
    pub open spec fn spec_grown_capacity(&self) -> nat {
        if self.spec_should_grow() {
            if self.spec_capacity() == 0 {
                8
            } else {
                self.spec_capacity() * 2
            }
        } else {
            self.spec_capacity()
        }
    }

    /// Number of slots in the table.
    pub fn capacity(&self) -> (r: usize)
        ensures
            r == self.spec_capacity(),
    {
        self.data.len()
    }

    /// Returns the number of items in the map
    pub fn len(&self) -> (r: usize)
        requires
            self.wf(),
        ensures
            r == self@.len(),
    {
        self.size
    }

    /// Returns true if the container is empty
    pub fn is_empty(&self) -> (r: bool)
        requires
            self.wf(),
        ensures
            r == (self@.len() == 0),
    {
        self.size == 0
    }

    fn should_grow(&self) -> (r: bool)
        requires
            self.wf(),
        ensures
            r == self.spec_should_grow(),
    {
        self.size >= (self.data.len() / 4) * 3
    }

    /// Whether the table that an insertion grows to can be laid out in memory, which
    /// [`HashMap::insert`] requires: false exactly when growing would take more than
    /// `isize::MAX` bytes.
    pub fn insert_fits(&self) -> (r: bool)
        requires
            self.wf(),
        ensures
            r == (self.spec_should_grow() ==> slots_fit::<K, V>(self.spec_grown_capacity())),
    {
        if !self.should_grow() {
            return true;
        }
        let n: usize = self.data.len();
        let grown: usize = if n == 0 {
            8
        } else {
            if n > usize::MAX / 2 {
                return false;
            }
            n * 2
        };
        let size: usize = core::mem::size_of::<Option<KeyValue<K, V>>>();
        let limit: usize = isize::MAX as usize;
        if grown > limit {
            return false;
        }
        match grown.checked_mul(size) {
            Some(bytes) => bytes <= limit,
            None => false,
        }
    }
}

impl<K, V, S> HashMap<K, V, S> where K: Hash + Eq, S: BuildHasher {
    /// Build a new hashmap with a custom hasher
    pub fn new_with_hasher(build_hasher: S) -> (r: Self)
        ensures
            r.wf(),
            r@ == Map::<(u64, K), V>::empty(),
            r.spec_capacity() == 0,
            r.spec_hasher() == build_hasher,
    {
        let r = HashMap { data: Vec::new(), size: 0, build_hasher, keys: Ghost(Set::empty()) };
        proof {
            assert(r@ =~= Map::<(u64, K), V>::empty());
            lemma_view_dom(r.data@, r.keys@);
        }
        r
    }

    /// Move every entry into a fresh table of `new_size` slots.
    fn rehash(&mut self, new_size: usize)
        requires
            old(self).wf(),
            obeys_concrete_eq::<K>(),
            table_shape(new_size as int),
            new_size > 0,
            slots_fit::<K, V>(new_size as nat),
            old(self)@.len() <= new_size,
        ensures
            final(self)@ == old(self)@,
            final(self).spec_capacity() == new_size,
            final(self).build_hasher == old(self).build_hasher,
            robin_hood(final(self).slots()),
            unique_keys(final(self).slots()),
            holds_map(final(self).slots(), final(self)@),
            new_size >= 8 && old(self)@.len() <= (new_size / 4) * 3 ==> final(self).wf(),
    {
        let mut new_data: Vec<Option<KeyValue<K, V>>> = Vec::with_capacity(new_size);
        let mut j: usize = 0;
        while j < new_size
            invariant
                j <= new_size,
                new_data@.len() == j,
                forall|k: int| 0 <= k < j ==> #[trigger] new_data@[k] is None,
            decreases new_size - j,
        {
            new_data.push(None);
            j = j + 1;
        }
        let ghost old_slots = self.data@;
        let ghost old_map = self@;
        let ghost mut moved: Map<(u64, K), V> = Map::empty();
        proof {
            assert forall|k: int| 0 <= k < new_size implies #[trigger] rh_at(new_data@, k) by {
                assert(!occupied(new_data@, k));
            }
            lemma_count_zero(new_data@);
        }
        let cap: usize = self.data.len();
        let mut i: usize = 0;
        while i < cap
            invariant
                i <= cap,
                cap == old_slots.len(),
                self.data@.len() == cap,
                old_map == old(self)@,
                old_slots == old(self).data@,
                old(self).wf(),
                obeys_concrete_eq::<K>(),
                self.build_hasher == old(self).build_hasher,
                self.size == old(self).size,
                self.keys == old(self).keys,
                new_data@.len() == new_size,
                table_shape(new_size as int),
                new_size > 0,
                old(self).size <= new_size,
                robin_hood(new_data@),
                unique_keys(new_data@),
                holds_map(new_data@, moved),
                count_occupied(new_data@) == moved.len(),
                moved.dom().finite(),
                forall|k: int| i <= k < cap ==> #[trigger] self.data@[k] == old_slots[k],
                forall|key: (u64, K)|
                    #[trigger] moved.contains_key(key) ==> old_map.contains_key(key) && moved[key]
                        == old_map[key],
                forall|k: int|
                    0 <= k < i && occupied(old_slots, k) ==> #[trigger] moved.contains_key(
                        key_at(old_slots, k),
                    ),
                forall|k: int|
                    i <= k < cap && occupied(old_slots, k) ==> !#[trigger] moved.contains_key(
                        key_at(old_slots, k),
                    ),
            decreases cap - i,
        {
            let mut taken: Option<KeyValue<K, V>> = None;
            self.data.set_and_swap(i, &mut taken);
            if let Some(occupied_data) = taken {
                let ghost k = (occupied_data.hash, occupied_data.key);
                proof {
                    assert(key_at(old_slots, i as int) == k);
                    assert(old_map.contains_key(k));
                    assert(!moved.contains_key(k));
                    assert(moved.dom().subset_of(old_map.dom().remove(k)));
                    vstd::set_lib::lemma_len_subset(moved.dom(), old_map.dom().remove(k));
                    lemma_count_bound(new_data@);
                }
                let r = robin_hood_insert_slice(&mut new_data, occupied_data, Ghost(moved));
                proof {
                    let moved2 = moved.insert(k, occupied_data.value);
                    assert forall|kk: int|
                        i + 1 <= kk < cap && occupied(old_slots, kk) implies !#[trigger] moved2.contains_key(
                        key_at(old_slots, kk),
                    ) by {
                        assert(key_at(old_slots, kk) != k);
                    }
                    moved = moved2;
                }
            }
            i = i + 1;
        }
        proof {
            assert(moved =~= old_map) by {
                assert forall|key: (u64, K)| #[trigger] old_map.contains_key(key) implies moved.contains_key(
                    key,
                ) by {
                    let k = choose|k: int|
                        0 <= k < old_slots.len() && occupied(old_slots, k) && #[trigger] key_at(old_slots, k)
                            == key;
                }
            }
            lemma_view_of(new_data@, moved);
            assert(moved.dom() =~= self.keys@);
            lemma_view_dom(new_data@, self.keys@);
        }
        self.data = new_data;
    }

    /// Grow the existing capacity if necessary
    fn grow(&mut self)
        requires
            old(self).wf(),
            obeys_concrete_eq::<K>(),
            old(self).spec_should_grow() ==> slots_fit::<K, V>(old(self).spec_grown_capacity()),
        ensures
            final(self).wf(),
            final(self)@ == old(self)@,
            final(self).spec_capacity() == old(self).spec_grown_capacity(),
            final(self).build_hasher == old(self).build_hasher,
            final(self)@.len() < (final(self).spec_capacity() / 4) * 3,
    {
        if !self.should_grow() {
            return;
        }
        let new_size: usize = if self.data.len() == 0 {
            8
        } else {
            self.data.len() * 2
        };
        proof {
            if self.data@.len() == 0 {
                assert(is_pow2(8usize)) by (bit_vector);
            } else {
                let n = self.data@.len() as usize;
                assert(((n + n) as usize) > n);
                lemma_pow2_double(n);
            }
        }
        self.rehash(new_size);
    }

    /// Insert an entry, growing the table first when three quarters of it is in use.
    fn insert_key_value(&mut self, key_value: KeyValue<K, V>) -> (r: Option<V>)
        requires
            old(self).wf(),
            obeys_concrete_eq::<K>(),
            old(self)@.len() < (old(self).spec_capacity() / 4) * 3,
        ensures
            final(self).wf(),
            final(self)@ == old(self)@.insert((key_value.hash, key_value.key), key_value.value),
            r == map_get(old(self)@, (key_value.hash, key_value.key)),
            final(self).spec_capacity() == old(self).spec_capacity(),
            final(self).build_hasher == old(self).build_hasher,
    {
        let ghost k = (key_value.hash, key_value.key);
        proof {
            lemma_count_bound(self.data@);
        }
        let ghost m = self@;
        let old_value = robin_hood_insert_slice(&mut self.data, key_value, Ghost(m));
        if old_value.is_none() {
            self.size = self.size + 1;
        }
        self.keys = Ghost(self.keys@.insert(k));
        proof {
            lemma_view_of(self.data@, m.insert(k, key_value.value));
            assert(m.insert(k, key_value.value).dom() =~= self.keys@);
            lemma_view_dom(self.data@, self.keys@);
        }
        old_value
    }

    /// Insert `value` under `key` whose hash under the map's hasher is `hash`.
    pub fn insert_hashed(&mut self, hash: u64, key: K, value: V) -> (r: Option<V>)
        requires
            old(self).wf(),
            obeys_concrete_eq::<K>(),
            old(self).spec_should_grow() ==> slots_fit::<K, V>(old(self).spec_grown_capacity()),
        ensures
            final(self).wf(),
            final(self)@ == old(self)@.insert((hash, key), value),
            r == map_get(old(self)@, (hash, key)),
            final(self).spec_capacity() == old(self).spec_grown_capacity(),
            final(self).spec_hasher() == old(self).spec_hasher(),
    {
        self.grow();
        self.insert_key_value(KeyValue { hash, key, value })
    }

    /// Insert the specified value given a specified key
    pub fn insert(&mut self, key: K, value: V) -> (r: Option<V>)
        requires
            old(self).wf(),
            obeys_concrete_eq::<K>(),
            old(self).spec_should_grow() ==> slots_fit::<K, V>(old(self).spec_grown_capacity()),
        ensures
            final(self).wf(),
            exists|hash: u64|
                {
                    &&& final(self)@ == old(self)@.insert((hash, key), value)
                    &&& r == map_get(old(self)@, (hash, key))
                },
            final(self).spec_capacity() == old(self).spec_grown_capacity(),
            final(self).spec_hasher() == old(self).spec_hasher(),
    {
        self.grow();
        let new_value = KeyValue::<K, V>::new_with_hasher(&self.build_hasher, key, value);
        self.insert_key_value(new_value)
    }

    /// Get the value stored under `key` whose hash under the map's hasher is `hash`.
    pub fn get_hashed(&self, hash: u64, key: &K) -> (r: Option<&V>)
        requires
            self.wf(),
        ensures
            lookup_result(self@, hash, *key, r),
    {
        let slice = self.data.as_slice();
        proof {
            lemma_robin_hood_paths(self.data@);
        }
        if let Some(idx) = get_index(slice, hash, key) {
            if let Some(rslt) = &slice[idx] {
                proof {
                    let k = key_at(self.data@, idx as int);
                    assert(self@.contains_key(k) && self@[k] == rslt.value);
                    assert(self@.contains_key((hash, k.1)));
                }
                return Some(&rslt.value);
            }
        }
        proof {
            if obeys_concrete_eq::<K>() {
                assert(!self@.contains_key((hash, *key))) by {
                    if self@.contains_key((hash, *key)) {
                        let i = choose|i: int|
                            0 <= i < self.data@.len() && occupied(self.data@, i) && #[trigger] key_at(
                                self.data@,
                                i,
                            ) == (hash, *key);
                    }
                }
            }
        }
        None
    }

    /// Get the value at the specied key location
    pub fn get(&self, key: &K) -> (r: Option<&V>)
        requires
            self.wf(),
        ensures
            exists|hash: u64| #[trigger] lookup_result(self@, hash, *key, r),
    {
        let hash = hash_key(&self.build_hasher, key);
        self.get_hashed(hash, key)
    }
}

fn value_mut<K, V>(v: &mut Vec<Option<KeyValue<K, V>>>, i: usize) -> (r: &mut V)
    requires
        i < old(v)@.len(),
        old(v)@[i as int] is Some,
    ensures
        *r == old(v)@[i as int]->0.value,
        final(v)@ == old(v)@.update(
            i as int,
            Some(KeyValue { hash: old(v)@[i as int]->0.hash, key: old(v)@[i as int]->0.key, value: *final(r) }),
        ),
{
    match &mut v[i] {
        Some(kv) => &mut kv.value,
        None => unreached(),
    }
}

impl<K, V, S> HashMap<K, V, S> where K: Hash + Eq, S: BuildHasher {
    /// Remove the entry stored under `key`, whose hash under the map's hasher is `hash`, and
    /// return its value. Entries that follow it in its probe run shift back one slot.
    pub fn remove_hashed(&mut self, hash: u64, key: &K) -> (r: Option<V>)
        requires
            old(self).wf(),
        ensures
            final(self).wf(),
            final(self).spec_capacity() == old(self).spec_capacity(),
            final(self).spec_hasher() == old(self).spec_hasher(),
            removal_result(old(self)@, final(self)@, hash, *key, r),
    {
        let ghost s0 = self.data@;
        let ghost m0 = self@;
        proof {
            lemma_robin_hood_paths(self.data@);
        }
        let rslt = get_index(self.data.as_slice(), hash, key);
        if let Some(rslt) = rslt {
            let capacity: usize = self.data.len();
            let ghost kr = key_at(s0, rslt as int);
            let mut old_value: Option<KeyValue<K, V>> = None;
            self.data.set_and_swap(rslt, &mut old_value);
            let mask: usize = capacity - 1;
            let ghost n: int = capacity as int;
            proof {
                assert(is_mask(mask));
                lemma_remove_start(s0, rslt as int);
                lemma_table_clear(s0, m0, rslt as int);
                lemma_count_update(s0, rslt as int, None);
                let filled = self.data@.update(rslt as int, s0[rslt as int]);
                lemma_count_update(self.data@, rslt as int, s0[rslt as int]);
                assert(count_occupied(filled) == count_occupied(s0));
                assert(count_occupied(s0) < n);
                lemma_count_bound(filled);
                assert(m0.contains_key(kr));
                assert(m0.dom() == self.keys@);
            }
            let ghost e: int = choose|e: int|
                0 <= e < n && self.data@.update(rslt as int, s0[rslt as int])[e] is None;
            let mut previous_location: usize = rslt;
            let mut next_location: usize = get_next_location(rslt, mask);
            loop
                invariant
                    self.data@.len() == n,
                    n == capacity,
                    mask == n - 1,
                    is_mask(mask),
                    table_shape(n),
                    n >= 8,
                    0 <= previous_location < n,
                    next_location == next_slot(previous_location as int, n),
                    !occupied(self.data@, previous_location as int),
                    rh_except(self.data@, previous_location as int),
                    shift_ok(self.data@, previous_location as int),
                    unique_keys(self.data@),
                    holds_map(self.data@, m0.remove(kr)),
                    count_occupied(self.data@) == count_occupied(s0) - 1,
                    0 <= e < n,
                    e != previous_location,
                    !occupied(self.data@, e),
                    old(self).wf(),
                    s0 == old(self).data@,
                    m0 == old(self)@,
                    self.size == old(self).size,
                    self.size == count_occupied(s0),
                    self.keys == old(self).keys,
                    self.build_hasher == old(self).build_hasher,
                    m0.contains_key(kr),
                ensures
                    !(occupied(self.data@, next_slot(previous_location as int, n)) && probe_len(
                        self.data@,
                        next_slot(previous_location as int, n),
                    ) > 0),
                decreases cyclic_distance(next_location as int, e, n),
            {
                let shift = match &self.data[next_location] {
                    Some(next_keyval) => get_location_from_hash(next_keyval.hash, mask) != next_location,
                    None => false,
                };
                if !shift {
                    proof {
                        lemma_home_in_range(self.data@[next_location as int]->0.hash, n);
                    }
                    break;
                }
                let ghost s = self.data@;
                proof {
                    lemma_home_in_range(s[next_location as int]->0.hash, n);
                }
                self.data.as_mut_slice().swap(previous_location, next_location);
                proof {
                    assert(self.data@ =~= s.update(previous_location as int, s[next_location as int]).update(
                        next_location as int,
                        None,
                    ));
                    lemma_shift_step(s, self.data@, previous_location as int);
                    lemma_table_move(s, self.data@, m0.remove(kr), next_location as int, previous_location as int);
                }
                previous_location = next_location;
                next_location = get_next_location(next_location, mask);
            }
            proof {
                lemma_shift_end(self.data@, previous_location as int);
                lemma_view_of(self.data@, m0.remove(kr));
                assert(m0.remove(kr).dom() =~= self.keys@.remove(kr));
            }
            self.size = self.size - 1;
            self.keys = Ghost(self.keys@.remove(kr));
            proof {
                lemma_view_dom(self.data@, self.keys@);
            }
            let old_value = old_value.unwrap();
            Some(old_value.value)
        } else {
            proof {
                if obeys_concrete_eq::<K>() {
                    assert(!m0.contains_key((hash, *key))) by {
                        if m0.contains_key((hash, *key)) {
                            let i = choose|i: int|
                                0 <= i < s0.len() && occupied(s0, i) && #[trigger] key_at(s0, i) == (
                                hash,
                                *key,
                            );
                        }
                    }
                    assert(m0.remove((hash, *key)) =~= m0);
                }
            }
            None
        }
    }

    /// Remove value at specified key and return the old value if the key existed.
    ///
    /// This uses backward shift deletions so other items might be moved at the same time.
    pub fn remove(&mut self, key: &K) -> (r: Option<V>)
        requires
            old(self).wf(),
        ensures
            final(self).wf(),
            final(self).spec_capacity() == old(self).spec_capacity(),
            final(self).spec_hasher() == old(self).spec_hasher(),
            exists|hash: u64| #[trigger] removal_result(old(self)@, final(self)@, hash, *key, r),
    {
        let hash = hash_key(&self.build_hasher, key);
        self.remove_hashed(hash, key)
    }
}

/// Changing the value in an occupied slot keeps the table's shape and changes the viewed
/// map at that slot's identity only.
proof fn lemma_value_update<K, V>(s: Slots<K, V>, keys: Set<(u64, K)>, i: int, v: V)
    requires
        holds_map(s, view_of(s, keys)),
        keys == view_of(s, keys).dom(),
        unique_keys(s),
        robin_hood(s),
        0 <= i < s.len(),
        occupied(s, i),
    ensures
        ({
            let t = s.update(i, Some(KeyValue { hash: s[i]->0.hash, key: s[i]->0.key, value: v }));
            &&& holds_map(t, view_of(t, keys))
            &&& view_of(t, keys) == view_of(s, keys).insert(key_at(s, i), v)
            &&& view_of(t, keys).dom() == keys
            &&& unique_keys(t)
            &&& robin_hood(t)
            &&& count_occupied(t) == count_occupied(s)
        }),
{
    let x = KeyValue { hash: s[i]->0.hash, key: s[i]->0.key, value: v };
    let t = s.update(i, Some(x));
    let m = view_of(s, keys);
    let k = key_at(s, i);
    lemma_table_update(s, m, i, x);
    assert(m.remove(k).insert(k, v) =~= m.insert(k, v));
    lemma_view_of(t, m.insert(k, v));
    assert(m.insert(k, v).dom() =~= keys);
    lemma_view_dom(t, keys);
    lemma_count_update(s, i, Some(x));
    assert forall|j: int| 0 <= j < t.len() implies #[trigger] rh_at(t, j) by {
        assert(rh_at(s, j));
    }
}

impl<K, V, S> HashMap<K, V, S> where K: Hash + Eq, S: BuildHasher {
    /// Get a mutable reference to the value stored under `key`, whose hash under the map's
    /// hasher is `hash`.
    pub fn get_mut_hashed(&mut self, hash: u64, key: &K) -> (r: Option<&mut V>)
        requires
            old(self).wf(),
        ensures
            final(self).wf(),
            final(self).spec_capacity() == old(self).spec_capacity(),
            final(self).spec_hasher() == old(self).spec_hasher(),
            match r {
                Some(v) => {
                    &&& found_entry(old(self)@, final(self)@, hash, *key, *v, *final(v))
                    &&& entry_written(old(self)@, final(self)@, *key, *v, *final(v))
                },
                None => {
                    &&& final(self)@ == old(self)@
                    &&& obeys_concrete_eq::<K>() ==> !old(self)@.contains_key((hash, *key))
                },
            },
    {
        let ghost s0 = self.data@;
        let ghost m0 = self@;
        proof {
            lemma_robin_hood_paths(self.data@);
        }
        let rslt = get_index(self.data.as_slice(), hash, key);
        match rslt {
            Some(i) => {
                let ghost k = key_at(s0, i as int);
                proof {
                    assert(m0.contains_key(k));
                    assert(m0.contains_key((hash, s0[i as int]->0.key)));
                }
                let value = value_mut(&mut self.data, i);
                proof {
                    lemma_value_update(s0, self.keys@, i as int, *final(value));
                }
                Some(value)
            },
            None => {
                proof {
                    if obeys_concrete_eq::<K>() {
                        assert(!m0.contains_key((hash, *key))) by {
                            if m0.contains_key((hash, *key)) {
                                let i = choose|i: int|
                                    0 <= i < s0.len() && occupied(s0, i) && #[trigger] key_at(s0, i) == (
                                    hash,
                                    *key,
                                );
                            }
                        }
                    }
                }
                None
            },
        }
    }
}

fn key_value_mut<K, V>(v: &mut Vec<Option<KeyValue<K, V>>>, i: usize) -> (r: (&K, &mut V))
    requires
        i < old(v)@.len(),
        old(v)@[i as int] is Some,
    ensures
        *r.0 == old(v)@[i as int]->0.key,
        *r.1 == old(v)@[i as int]->0.value,
        final(v)@ == old(v)@.update(
            i as int,
            Some(KeyValue { hash: old(v)@[i as int]->0.hash, key: old(v)@[i as int]->0.key, value: *final(r.1) }),
        ),
{
    match &mut v[i] {
        Some(kv) => (&kv.key, &mut kv.value),
        None => unreached(),
    }
}

impl<K, V, S> HashMap<K, V, S> {
    /// The key in occupied slot `i` and a mutable reference to its value; what is written
    /// through the reference becomes the value of that entry.
    pub(crate) fn entry_mut(&mut self, i: usize) -> (r: (&K, &mut V))
        requires
            old(self).wf(),
            i < old(self).slots().len(),
            occupied(old(self).slots(), i as int),
        ensures
            final(self).wf(),
            *r.0 == old(self).slots()[i as int]->0.key,
            *r.1 == old(self).slots()[i as int]->0.value,
            final(self).slots() == old(self).slots().update(
                i as int,
                Some(
                    KeyValue {
                        hash: old(self).slots()[i as int]->0.hash,
                        key: old(self).slots()[i as int]->0.key,
                        value: *final(r.1),
                    },
                ),
            ),
            final(self)@ == old(self)@.insert(key_at(old(self).slots(), i as int), *final(r.1)),
            final(self).spec_capacity() == old(self).spec_capacity(),
            final(self).spec_hasher() == old(self).spec_hasher(),
    {
        let ghost s0 = self.data@;
        let r = key_value_mut(&mut self.data, i);
        proof {
            lemma_value_update(s0, self.keys@, i as int, *final(r.1));
        }
        r
    }
}

impl<K, V, S> HashMap<K, V, S> where K: Hash + Eq, S: BuildHasher {
    /// Get the mutable value at the specied key location: the lookup of
    /// [`HashMap::get_mut_hashed`] under the hash that the map's hasher gives for `key`.
    pub fn get_mut(&mut self, key: &K) -> (r: Option<&mut V>)
        requires
            old(self).wf(),
        ensures
            final(self).wf(),
            final(self).spec_capacity() == old(self).spec_capacity(),
            final(self).spec_hasher() == old(self).spec_hasher(),
            match r {
                Some(v) => entry_written(old(self)@, final(self)@, *key, *v, *final(v)),
                None => final(self)@ == old(self)@,
            },
    {
        let hash = hash_key(&self.build_hasher, key);
        self.get_mut_hashed(hash, key)
    }
}

/// Cloning a `T` gives back an equal value.
pub open spec fn clone_is_exact<T: Clone>() -> bool {
    forall|a: T, b: T| #[trigger] cloned::<T>(a, b) ==> a == b
}

/// The slots of `b` are clones of those of `a`: the same slots are empty, and each occupied
/// slot holds the same hash, a clone of the key and a clone of the value.
pub open spec fn cloned_slots<K: Clone, V: Clone>(a: Slots<K, V>, b: Slots<K, V>) -> bool {
    &&& a.len() == b.len()
    &&& forall|i: int|
        #![trigger a[i], b[i]]
        0 <= i < a.len() ==> {
            &&& (a[i] is Some <==> b[i] is Some)
            &&& a[i] is Some ==> {
                &&& a[i]->0.hash == b[i]->0.hash
                &&& cloned::<K>(a[i]->0.key, b[i]->0.key)
                &&& cloned::<V>(a[i]->0.value, b[i]->0.value)
            }
        }
}

/// Tables with the same empty slots have the same number of occupied ones.
proof fn lemma_count_same_occupancy<K, V>(s: Slots<K, V>, t: Slots<K, V>)
    requires
        s.len() == t.len(),
        forall|i: int| 0 <= i < s.len() ==> (#[trigger] s[i] is Some <==> t[i] is Some),
    ensures
        count_occupied(s) == count_occupied(t),
    decreases s.len(),
{
    if s.len() > 0 {
        lemma_count_same_occupancy(s.drop_last(), t.drop_last());
        assert(s.last() is Some <==> t[t.len() - 1] is Some);
    }
}

/// A table whose slots hold the same hashes and keys as a well-formed one, with any
/// values, is well-formed over the same keys, each entry taking the value of its slot.
proof fn lemma_same_keys_table<K, V>(s: Slots<K, V>, t: Slots<K, V>, keys: Set<(u64, K)>)
    requires
        holds_map(s, view_of(s, keys)),
        keys == view_of(s, keys).dom(),
        unique_keys(s),
        robin_hood(s),
        s.len() == t.len(),
        forall|i: int|
            #![trigger s[i], t[i]]
            0 <= i < s.len() ==> (s[i] is Some <==> t[i] is Some) && (s[i] is Some ==> key_at(s, i)
                == key_at(t, i)),
    ensures
        holds_map(t, view_of(t, keys)),
        view_of(t, keys).dom() == keys,
        unique_keys(t),
        robin_hood(t),
        count_occupied(t) == count_occupied(s),
        forall|k: (u64, K)| #[trigger] keys.contains(k) ==> slot_of(t, k) == slot_of(s, k),
{
    let m = view_of(s, keys);
    assert forall|i: int| 0 <= i < t.len() && occupied(t, i) implies key_at(s, i) == key_at(t, i) by {
        assert(s[i] is Some);
    }
    assert forall|i: int, j: int|
        0 <= i < t.len() && 0 <= j < t.len() && occupied(t, i) && occupied(t, j) && #[trigger] key_at(t, i)
            == #[trigger] key_at(t, j) implies i == j by {
        assert(key_at(s, i) == key_at(t, i));
        assert(key_at(s, j) == key_at(t, j));
    }
    assert forall|k: (u64, K)| #[trigger] keys.contains(k) implies slot_of(t, k) == slot_of(s, k) by {
        assert(m.contains_key(k));
        let i = slot_of(s, k);
        assert(key_at(t, i) == k);
        let j = slot_of(t, k);
        assert(key_at(s, j) == key_at(t, j));
    }
    let m2 = view_of(t, keys);
    assert forall|i: int| 0 <= i < t.len() && occupied(t, i) implies m2.contains_key(#[trigger] key_at(t, i))
        && m2[key_at(t, i)] == t[i]->0.value by {
        let k = key_at(t, i);
        assert(key_at(s, i) == k);
        assert(m.contains_key(k));
        assert(keys.contains(k));
        let j = slot_of(t, k);
        assert(key_at(t, j) == k);
    }
    assert forall|k: (u64, K)| #[trigger] m2.contains_key(k) implies exists|i: int|
        0 <= i < t.len() && occupied(t, i) && #[trigger] key_at(t, i) == k by {
        assert(m.contains_key(k));
        let i = slot_of(s, k);
        assert(key_at(t, i) == k);
    }
    lemma_view_dom(t, keys);
    assert forall|i: int| 0 <= i < t.len() implies #[trigger] rh_at(t, i) by {
        assert(rh_at(s, i));
        let p = prev_slot(i, t.len() as int);
        if occupied(t, i) {
            assert(key_at(s, i) == key_at(t, i));
        }
        if 0 <= p < t.len() && occupied(t, p) {
            assert(key_at(s, p) == key_at(t, p));
        }
    }
    lemma_count_same_occupancy(s, t);
}

impl<K: Clone, V: Clone, S: Clone> HashMap<K, V, S> {
    /// A copy of the map: the same table layout, with every key and value cloned and the
    /// hasher cloned. Where cloning a key gives back an equal key, the copy is a well-formed
    /// map with the same entries, each value a clone of the original one.
    pub fn clone(&self) -> (r: Self)
        requires
            self.wf(),
        ensures
            cloned_slots(self.slots(), r.slots()),
            r.spec_capacity() == self.spec_capacity(),
            cloned::<S>(self.spec_hasher(), r.spec_hasher()),
            clone_is_exact::<K>() ==> {
                &&& r.wf()
                &&& r@.dom() == self@.dom()
                &&& forall|k: (u64, K)| #[trigger] r@.contains_key(k) ==> cloned::<V>(self@[k], r@[k])
            },
    {
        let mut data: Vec<Option<KeyValue<K, V>>> = Vec::new();
        let mut i: usize = 0;
        while i < self.data.len()
            invariant
                i <= self.data@.len(),
                data@.len() == i,
                forall|j: int|
                    #![trigger self.data@[j], data@[j]]
                    0 <= j < i ==> {
                        &&& (self.data@[j] is Some <==> data@[j] is Some)
                        &&& self.data@[j] is Some ==> {
                            &&& self.data@[j]->0.hash == data@[j]->0.hash
                            &&& cloned::<K>(self.data@[j]->0.key, data@[j]->0.key)
                            &&& cloned::<V>(self.data@[j]->0.value, data@[j]->0.value)
                        }
                    },
            decreases self.data@.len() - i,
        {
            let slot = match &self.data[i] {
                Some(kv) => Some(kv.clone()),
                None => None,
            };
            data.push(slot);
            i = i + 1;
        }
        let r = HashMap {
            data,
            size: self.size,
            build_hasher: self.build_hasher.clone(),
            keys: Ghost(self.keys@),
        };
        proof {
            if clone_is_exact::<K>() {
                let s = self.data@;
                let t = r.data@;
                assert forall|j: int| #![trigger s[j], t[j]] 0 <= j < s.len() implies (s[j] is Some <==> t[j]
                    is Some) && (s[j] is Some ==> key_at(s, j) == key_at(t, j)) by {
                    if s[j] is Some {
                        assert(cloned::<K>(s[j]->0.key, t[j]->0.key));
                    }
                }
                lemma_same_keys_table(s, t, self.keys@);
                assert forall|k: (u64, K)| #[trigger] r@.contains_key(k) implies cloned::<V>(self@[k], r@[k]) by {
                    let j = slot_of(s, k);
                    assert(self.keys@.contains(k));
                    assert(s[j] is Some);
                }
            }
        }
        r
    }
}

impl<K, V, S> HashMap<K, V, S> where K: Hash + Eq, S: BuildHasher + Default {
    /// Build a new hashmap with the default constructed hasher
    pub fn new() -> (r: Self)
        ensures
            call_ensures(S::default, (), r.spec_hasher()),
            r.wf(),
            r@ == Map::<(u64, K), V>::empty(),
            r.spec_capacity() == 0,
    {
        HashMap::<K, V, S>::default()
    }
}

impl<K, V, S> Default for HashMap<K, V, S> where K: Hash + Eq, S: BuildHasher + Default {
    fn default() -> (r: Self)
        ensures
            call_ensures(S::default, (), r.spec_hasher()),
            r.wf(),
            r@ == Map::<(u64, K), V>::empty(),
            r.spec_capacity() == 0,
    {
        let r = HashMap { data: Vec::new(), size: 0, build_hasher: S::default(), keys: Ghost(Set::empty()) };
        proof {
            assert(r@ =~= Map::<(u64, K), V>::empty());
            lemma_view_dom(r.data@, r.keys@);
        }
        r
    }
}

/// After `value` is inserted under `key`, a lookup of `key` with the same hash finds `value`.
pub proof fn lemma_get_after_insert<K: PartialEq, V>(
    m: Map<(u64, K), V>,
    hash: u64,
    key: K,
    value: V,
    r: Option<&V>,
)
    requires
        obeys_concrete_eq::<K>(),
        lookup_result(m.insert((hash, key), value), hash, key, r),
    ensures
        r == Some(&value),
{
}

/// An insertion under one key leaves what a lookup of any other key finds unchanged.
pub proof fn lemma_get_other_after_insert<K: PartialEq, V>(
    m: Map<(u64, K), V>,
    hash: u64,
    key: K,
    value: V,
    other_hash: u64,
    other: K,
    r: Option<&V>,
)
    requires
        obeys_concrete_eq::<K>(),
        (other_hash, other) != (hash, key),
        lookup_result(m.insert((hash, key), value), other_hash, other, r),
    ensures
        lookup_result(m, other_hash, other, r),
{
    let m2 = m.insert((hash, key), value);
    if r is Some {
        let k = choose|k: K| #[trigger] m2.contains_key((other_hash, k)) && m2[(other_hash, k)] == *r->0;
        assert(m.contains_key((other_hash, other)));
    }
}

/// After `key` is removed, a lookup of `key` with the same hash finds nothing.
pub proof fn lemma_get_after_remove<K: PartialEq, V>(
    m: Map<(u64, K), V>,
    hash: u64,
    key: K,
    r: Option<&V>,
)
    requires
        obeys_concrete_eq::<K>(),
        lookup_result(m.remove((hash, key)), hash, key, r),
    ensures
        r is None,
{
}

/// Removing a key right after inserting `value` under it gives back `value`, and when the key
/// was new, leaves the map as it was before the insertion.
pub proof fn lemma_remove_after_insert<K: PartialEq, V>(
    m: Map<(u64, K), V>,
    hash: u64,
    key: K,
    value: V,
    after: Map<(u64, K), V>,
    r: Option<V>,
)
    requires
        obeys_concrete_eq::<K>(),
        removal_result(m.insert((hash, key), value), after, hash, key, r),
    ensures
        r == Some(value),
        !m.contains_key((hash, key)) ==> after == m,
{
    if !m.contains_key((hash, key)) {
        assert(m.insert((hash, key), value).remove((hash, key)) =~= m);
    }
}

/// An insertion that returns no previous value adds one entry to the map; one that returns a
/// previous value keeps the number of entries.
pub proof fn lemma_insert_len<K, V>(m: Map<(u64, K), V>, hash: u64, key: K, value: V)
    requires
        m.dom().finite(),
    ensures
        m.insert((hash, key), value).len() == m.len() + if map_get(m, (hash, key)) is None {
            1int
        } else {
            0int
        },
{
    if m.contains_key((hash, key)) {
        assert(m.insert((hash, key), value).dom() =~= m.dom());
    }
}

/// A removal that returns a value takes one entry out of the map; one that returns nothing
/// leaves the number of entries as it was.
pub proof fn lemma_remove_len<K: PartialEq, V>(
    before: Map<(u64, K), V>,
    after: Map<(u64, K), V>,
    hash: u64,
    key: K,
    r: Option<V>,
)
    requires
        before.dom().finite(),
        removal_result(before, after, hash, key, r),
    ensures
        after.len() == before.len() - if r is Some { 1int } else { 0int },
{
    if r is Some {
        let k = choose|k: K|
            #[trigger] before.contains_key((hash, k)) && before[(hash, k)] == r->0 && after == before.remove(
                (hash, k),
            );
    }
}

} // verus!

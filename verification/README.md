# rust_lib

Collections and algorithms written in Verus, each with a contract that Verus proves:

- `vector`: `Vector<T>`, a growable vector viewed as a `Seq<T>`, with its growth rule
  (sixteen slots first, then doubling, then steps of `MAX_GROWTH`), its buffer `RawVector`
  and a consuming iterator `IntoIter`.
- `hashmap`: `HashMap<K, V, S>`, an open-addressing hash map with robin hood insertion and
  backward-shift deletion, viewed as a map from (hash, key) to value; its iterators over
  shared, mutable and owned entries; `KeyValue`, the stored entry; and `BuildFixedHasher`,
  a hasher that always gives the same hash.
- `sort`: bubble sort and quick sort (dutch-flag partition around a median of three),
  proved to permute their input into an order by any strict weak order the predicate
  computes; bubble sort is proved stable.
- `search`: binary search with lower and upper bounds, and linear search.

The only trusted items are the call of `BuildHasher::hash_one` in `hashmap::hash_key`,
of which nothing is assumed, and a specification of `<[T]>::swap`.

`tests/` holds ordinary Rust tests of the library.

use std::hash::{BuildHasher, Hasher};
use std::rc::Rc;

use rust_lib::hashmap::fixed_hasher::{BuildFixedHasher, FixedHasher};
use rust_lib::hashmap::key_value::KeyValue;
use rust_lib::hashmap::{
    get_index, get_location_from_hash, get_next_location, get_probe_distance, HashMap,
};
use rust_lib::vector::Vector;

#[test]
fn grow_at_correct_times() {
    let mut map = HashMap::<i32, i32>::new();
    map.insert(0, 0);
    assert_eq!(map.capacity(), 8);
    for i in 1..6 {
        map.insert(i, i * 2);
    }
    assert_eq!(map.capacity(), 8);
    map.insert(6, 12);
    assert_eq!(map.capacity(), 16);
}

#[test]
fn wrap_around_properly_retrieves_values() {
    let build_hasher = BuildFixedHasher { hash: 7 };
    let mut map = HashMap::<i32, i32, BuildFixedHasher>::new_with_hasher(build_hasher);
    map.insert(1, 1);
    map.insert(2, 2);
    map.insert(3, 3);

    assert_eq!(map.remove(&1).unwrap(), 1);

    assert_eq!(map.get(&2).unwrap(), &2);
    assert_eq!(map.get(&3).unwrap(), &3);
}

#[test]
fn probe_distance_handles_wraparound() {
    // ideal slot 6, wrapped forward past the end to position 1
    // true distance: 6 -> 7 -> 0 -> 1, three steps
    assert_eq!(3, get_probe_distance(1, 6, 7));
}

#[test]
fn probe_distance_no_wraparound_matches_simple_subtraction() {
    assert_eq!(2, get_probe_distance(5, 3, 7));
}

#[test]
fn probe_distance_underflow_returns_correct_value() {
    assert_eq!(1, get_probe_distance(0, 7, 7));
}

#[test]
fn next_location_handles_wraparound() {
    assert_eq!(0, get_next_location(7, 7));
}

#[test]
fn next_location_handles_overflow() {
    assert_eq!(0, get_next_location(usize::MAX, usize::MAX));
}

#[test]
fn next_location_no_wraparound_adds_1() {
    assert_eq!(7, get_next_location(6, 7));
}

#[test]
fn get_empty_returns_none() {
    let map = HashMap::<i32, i32>::new();
    assert_eq!(None, map.get(&1));
}

#[test]
fn insert_empty() {
    let mut map = HashMap::<i32, i32>::new();
    assert_eq!(None, map.insert(1, 2));
}

#[test]
fn inserted_value_returned() {
    let mut map = HashMap::<i32, i32>::new();
    map.insert(1, 2);

    assert_eq!(&2, map.get(&1).unwrap());
}

#[test]
fn insert_get_many() {
    let mut map = HashMap::<i32, i32>::new();
    for i in 0..100 {
        map.insert(i, i * 2);
    }

    for i in 0..100 {
        let expected = i * 2;
        assert_eq!(&expected, map.get(&i).unwrap());
    }
}

#[test]
fn insert_many_get_nonexistant() {
    let mut map = HashMap::<i32, i32>::new();
    for i in 0..100 {
        map.insert(i, i * 2);
    }

    assert_eq!(None, map.get(&101));
}

#[test]
fn insert_overwrite_returns_previous() {
    let mut map = HashMap::<i32, i32>::new();
    map.insert(10, 100);
    assert_eq!(100, map.insert(10, 101).unwrap());

    assert_eq!(&101, map.get(&10).unwrap());
    assert_eq!(map.len(), 1);
}

#[test]
fn insert_increments_size() {
    let mut map = HashMap::<i32, i32>::new();
    for i in 0..100 {
        assert_eq!(i as usize, map.len());
        map.insert(i, i);
    }
    assert_eq!(100, map.len());
}

#[test]
fn insert_then_remove_successful() {
    let mut map = HashMap::<i32, i32>::new();
    map.insert(0, 0);
    assert_eq!(0, map.remove(&0).unwrap());
}

#[test]
fn insert_then_remove_then_insert_successful() {
    let mut map = HashMap::<i32, i32>::new();
    map.insert(0, 0);
    map.remove(&0);

    map.insert(0, 1);
    assert_eq!(&1, map.get(&0).unwrap());
}

#[test]
fn remove_empty_returns_none() {
    let mut map = HashMap::<i32, i32>::new();
    assert_eq!(None, map.remove(&0));
}

#[test]
fn remove_nonexistant_returns_none() {
    let mut map = HashMap::<i32, i32>::new();
    map.insert(1, 0);
    assert_eq!(None, map.remove(&0));
}

#[test]
fn insert_decrements_size() {
    let mut map = HashMap::<i32, i32>::new();
    for i in 0..100 {
        map.insert(i, i);
    }

    for i in (0..100).rev() {
        map.remove(&i);
        assert_eq!(i as usize, map.len());
    }
}

#[test]
fn insert_then_access_via_index_successful() {
    let mut map = HashMap::<i32, i32>::new();
    map.insert(1, 2);
    assert_eq!(2, *map.get(&1).unwrap());
}

#[test]
fn clone_empty_successful() {
    let map = HashMap::<i32, i32>::new();
    let _map2 = map.clone();
}

#[test]
fn clone_successful() {
    let mut map = HashMap::<i32, i32>::new();
    map.insert(1, 2);
    map.insert(2, 4);
    let map2 = map.clone();

    let mut iter = map.into_iter();
    while let Some(kv) = iter.next() {
        assert_eq!(map2.get(&kv.0).unwrap(), &kv.1);
    }
}

#[test]
fn clone_copies_complex_objects() {
    let rc = Rc::<u64>::new(10);
    let mut map = HashMap::<i32, Rc<u64>>::new();
    map.insert(1, rc.clone());
    map.insert(2, rc.clone());

    assert_eq!(Rc::strong_count(&rc), 3);

    let _map2 = map.clone();
    assert_eq!(Rc::strong_count(&rc), 5);
}

struct PanicClone(Rc<u64>);

impl Clone for PanicClone {
    fn clone(&self) -> Self {
        if Rc::strong_count(&self.0) > 5 {
            panic!("panicing after 5th clone");
        }
        PanicClone(self.0.clone())
    }
}

#[test]
#[should_panic]
fn clone_does_not_leak_or_double_drop_panicing_object() {
    let rc = Rc::<u64>::new(10);
    let mut map = HashMap::<i32, PanicClone>::new();
    for i in 0..3 {
        map.insert(i, PanicClone(rc.clone()));
    }

    let _map2 = map.clone();
}

#[test]
fn insert_remove_after_collison_successful() {
    let mut map = HashMap::<u64, u64, BuildFixedHasher>::new();
    map.insert(0, 0);
    map.insert(1, 1);
    map.insert(2, 2);

    map.remove(&0);
    assert_eq!(Some(1), map.insert(1, 2));
}

pub struct DroppingHasher(Rc<u64>);

impl Hasher for DroppingHasher {
    fn finish(&self) -> u64 {
        *self.0
    }

    fn write(&mut self, _: &[u8]) {}

    fn write_u64(&mut self, _: u64) {}
}

#[derive(Default)]
pub struct BuildDroppingHasher(Rc<u64>);

impl BuildDroppingHasher {
    fn new(rc: Rc<u64>) -> Self {
        BuildDroppingHasher { 0: rc }
    }
}

impl BuildHasher for BuildDroppingHasher {
    type Hasher = DroppingHasher;

    fn build_hasher(&self) -> Self::Hasher {
        DroppingHasher { 0: self.0.clone() }
    }
}

#[test]
fn iterator_returns_all_values() {
    let mut vector = Vector::<(i32, i32)>::default();
    let mut map = HashMap::<i32, i32>::new();
    for i in 0..100 {
        map.insert(i, i);
        vector.push((i, i));
    }

    let mut i = 0;
    let mut iter = map.iter();
    while let Some(val) = iter.next() {
        i += 1;
        assert!(
            vector
                .binary_search(&(val.0.clone(), val.1.clone()))
                .is_ok()
        );
    }

    assert_eq!(i, 100);
}

#[test]
fn into_iterator_returns_all_values() {
    let mut vector = Vector::<(i32, i32)>::default();
    let mut map = HashMap::<i32, i32>::new();
    for i in 0..100 {
        map.insert(i, i);
        vector.push((i, i));
    }

    let mut i = 0;
    let mut iter = map.into_iter();
    while let Some(val) = iter.next() {
        assert!(vector.binary_search(&val).is_ok());
        i += 1;
    }
    assert_eq!(i, 100);
}

#[test]
fn mutable_iterator_changes_all_values() {
    let mut map = HashMap::<i32, i32>::new();
    for i in 0..100 {
        map.insert(i, i);
    }

    let mut iter = map.iter_mut();
    while let Some(val) = iter.next() {
        *val.1 = val.0 * 2;
    }

    for i in 0..100 {
        assert_eq!(map.get(&i).unwrap(), &(i * 2));
    }
}

#[test]
fn into_iterator_drops_hasher() {
    let rc = Rc::<u64>::new(10);
    {
        let mut map = HashMap::<i32, i32, BuildDroppingHasher>::new_with_hasher(
            BuildDroppingHasher::new(rc.clone()),
        );
        assert_eq!(Rc::strong_count(&rc), 2);
        map.insert(1, 1);
        let mut iter = map.into_iter();
        while let Some(_) = iter.next() {}

        assert_eq!(Rc::strong_count(&rc), 1);
    }
}

#[test]
fn location_from_hash_keeps_the_masked_bits() {
    assert_eq!(0x34, get_location_from_hash(0x1234, 0xff));
    assert_eq!(5, get_location_from_hash(13, 7));
    assert_eq!(0, get_location_from_hash(16, 15));
}

#[test]
fn probe_distance_is_zero_at_home() {
    assert_eq!(0, get_probe_distance(4, 4, 7));
}

#[test]
fn key_value_takes_hash_from_hasher() {
    let kv = KeyValue::new_with_hasher(&BuildFixedHasher { hash: 42 }, 1i32, 2i32);
    assert_eq!(42, kv.hash);
    assert_eq!(1, kv.key);
    assert_eq!(2, kv.value);
}

#[test]
fn key_value_same_key_compares_hash_and_key() {
    let a = KeyValue { hash: 1, key: 5, value: 10 };
    let b = KeyValue { hash: 1, key: 5, value: 20 };
    let c = KeyValue { hash: 2, key: 5, value: 10 };
    let d = KeyValue { hash: 1, key: 6, value: 10 };
    assert!(a.same_key(&b));
    assert!(!a.same_key(&c));
    assert!(!a.same_key(&d));
}

#[test]
fn key_value_clone_keeps_hash() {
    let a = KeyValue { hash: 9, key: 5, value: 10 };
    let b = a.clone();
    assert_eq!(9, b.hash);
    assert_eq!(5, b.key);
    assert_eq!(10, b.value);
}

#[test]
fn fixed_hasher_always_finishes_with_its_hash() {
    let build = BuildFixedHasher { hash: 99 };
    let mut hasher = build.build_hasher();
    hasher.write_u64(12345);
    hasher.write(&[1, 2, 3]);
    assert_eq!(99, hasher.finish());
    assert_eq!(99, FixedHasher { hash: 99 }.finish());
    assert_eq!(99, build.hash_one(7u32));
}

#[test]
fn get_index_follows_the_probe_run() {
    let slots: Vec<Option<KeyValue<i32, i32>>> = vec![
        Some(KeyValue { hash: 7, key: 3, value: 30 }),
        None,
        None,
        None,
        None,
        None,
        None,
        Some(KeyValue { hash: 7, key: 1, value: 10 }),
    ];
    assert_eq!(Some(7), get_index(&slots, 7, &1));
    assert_eq!(Some(0), get_index(&slots, 7, &3));
    assert_eq!(None, get_index(&slots, 7, &2));
    assert_eq!(None, get_index(&slots, 6, &1));
    assert_eq!(None, get_index::<i32, i32>(&[], 7, &1));
}

#[test]
fn get_after_remove_returns_none() {
    let mut map = HashMap::<i32, i32>::new();
    for i in 0..20 {
        map.insert(i, i);
    }
    assert_eq!(Some(7), map.remove(&7));
    assert_eq!(None, map.get(&7));
    assert_eq!(None, map.remove(&7));
    assert_eq!(19, map.len());
    for i in 0..20 {
        if i != 7 {
            assert_eq!(Some(&i), map.get(&i));
        }
    }
}

#[test]
fn remove_after_insert_restores_the_map() {
    let mut map = HashMap::<i32, i32>::new();
    map.insert(1, 10);
    map.insert(2, 20);
    assert_eq!(None, map.insert(3, 30));
    assert_eq!(Some(30), map.remove(&3));
    assert_eq!(2, map.len());
    assert_eq!(Some(&10), map.get(&1));
    assert_eq!(Some(&20), map.get(&2));
    assert_eq!(None, map.get(&3));
}

#[test]
fn colliding_keys_are_all_kept() {
    let mut map = HashMap::<i32, i32, BuildFixedHasher>::new_with_hasher(BuildFixedHasher {
        hash: 3,
    });
    for i in 0..6 {
        assert_eq!(None, map.insert(i, i * 100));
    }
    assert_eq!(6, map.len());
    for i in 0..6 {
        assert_eq!(Some(&(i * 100)), map.get(&i));
    }
    assert_eq!(Some(200), map.remove(&2));
    for i in 0..6 {
        if i != 2 {
            assert_eq!(Some(&(i * 100)), map.get(&i));
        }
    }
}

#[test]
fn hashed_operations_use_the_given_hash() {
    let mut map = HashMap::<i32, i32>::new();
    assert_eq!(None, map.insert_hashed(5, 1, 10));
    assert_eq!(None, map.insert_hashed(6, 1, 11));
    assert_eq!(2, map.len());
    assert_eq!(Some(&10), map.get_hashed(5, &1));
    assert_eq!(Some(&11), map.get_hashed(6, &1));
    assert_eq!(None, map.get_hashed(7, &1));
    assert_eq!(Some(10), map.insert_hashed(5, 1, 12));
    *map.get_mut_hashed(6, &1).unwrap() = 13;
    assert_eq!(Some(&13), map.get_hashed(6, &1));
    assert_eq!(None, map.get_mut_hashed(7, &1));
    assert_eq!(Some(12), map.remove_hashed(5, &1));
    assert_eq!(None, map.remove_hashed(5, &1));
    assert_eq!(1, map.len());
}

#[test]
fn get_mut_changes_the_value() {
    let mut map = HashMap::<i32, i32>::new();
    map.insert(4, 40);
    *map.get_mut(&4).unwrap() += 2;
    assert_eq!(Some(&42), map.get(&4));
    assert!(map.get_mut(&5).is_none());
}

#[test]
fn len_and_is_empty_follow_the_entries() {
    let mut map = HashMap::<i32, i32>::new();
    assert!(map.is_empty());
    assert_eq!(0, map.len());
    map.insert(1, 1);
    assert!(!map.is_empty());
    map.remove(&1);
    assert!(map.is_empty());
}

#[test]
fn capacity_doubles_when_three_quarters_full() {
    let mut map = HashMap::<i32, i32>::default();
    assert_eq!(0, map.capacity());
    for i in 0..12 {
        map.insert(i, i);
    }
    assert_eq!(16, map.capacity());
    map.insert(12, 12);
    assert_eq!(32, map.capacity());
    for i in 0..13 {
        assert_eq!(Some(&i), map.get(&i));
    }
}

#[test]
fn iterator_visits_each_entry_once() {
    let mut map = HashMap::<i32, i32>::new();
    for i in 0..30 {
        map.insert(i, i + 1000);
    }
    let mut seen = vec![0; 30];
    let mut iter = map.iter();
    while let Some((k, v)) = iter.next() {
        assert_eq!(*v, *k + 1000);
        seen[*k as usize] += 1;
    }
    assert!(iter.next().is_none());
    assert!(seen.iter().all(|c| *c == 1));
}

#[test]
fn iterators_over_an_empty_map_end_at_once() {
    let mut map = HashMap::<i32, i32>::new();
    assert!(map.iter().next().is_none());
    assert!(map.iter_mut().next().is_none());
    assert!(map.into_iter().next().is_none());
}

#[test]
fn clone_is_independent_of_the_original() {
    let mut map = HashMap::<i32, i32>::new();
    map.insert(1, 1);
    let mut copy = map.clone();
    copy.insert(1, 2);
    copy.insert(3, 3);
    assert_eq!(Some(&1), map.get(&1));
    assert_eq!(None, map.get(&3));
    assert_eq!(Some(&2), copy.get(&1));
    assert_eq!(2, copy.len());
    assert_eq!(map.capacity(), 8);
}

#[test]
fn insert_fits_for_ordinary_tables() {
    let mut map = HashMap::<i32, i32>::new();
    assert!(map.insert_fits());
    for i in 0..20 {
        assert!(map.insert_fits());
        map.insert(i, i);
    }
    assert!(map.insert_fits());
}

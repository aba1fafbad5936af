use std::rc::Rc;

use rust_lib::vector::raw::RawVector;
use rust_lib::vector::{Vector, INITIAL_GROWTH, MAX_GROWTH};

fn initialize_vector_of_5_rc() -> (Rc<i64>, Vector<Rc<i64>>) {
    let obj: Rc<i64> = Rc::new(1);
    let mut vec: Vector<Rc<i64>> = Vector::new();

    for _ in 0..5 {
        vec.push(obj.clone());
    }

    (obj, vec)
}

#[test]
fn len_matches_size() {
    let mut vec: Vector<usize> = Vector::new();
    assert_eq!(vec.len(), (*vec).len());

    for i in 0..10 {
        vec.push(i);
        assert_eq!(vec.len(), (*vec).len());
    }
}

#[test]
fn raw_create_succeeds() {
    let raw: RawVector<i64> = RawVector::new();
    assert_eq!(raw.capacity, 0);
}

#[test]
fn grow_zero_first_does_nothing() {
    let mut raw: RawVector<i64> = RawVector::new();
    raw.grow(0);

    assert_eq!(raw.capacity, 0);
}

#[test]
fn grow_once_succeeds() {
    const NEW_CAPACITY: usize = 10;
    let mut raw: RawVector<i64> = RawVector::new();
    raw.grow(NEW_CAPACITY);
    assert_eq!(raw.capacity, NEW_CAPACITY);
}

#[test]
fn grow_less_than_capacity_does_nothing() {
    let mut raw: RawVector<i64> = RawVector::new();
    raw.grow(100);
    raw.grow(10);
    assert_eq!(raw.capacity, 100);
}

#[test]
fn grow_equal_capacity_does_nothing() {
    let mut raw: RawVector<i64> = RawVector::new();
    raw.grow(100);
    raw.grow(100);
    assert_eq!(raw.capacity, 100);
}

#[test]
fn grow_twice_is_successful() {
    let mut raw: RawVector<i64> = RawVector::new();
    raw.grow(100);
    raw.grow(1000);
    assert_eq!(raw.capacity, 1000);
}

#[test]
fn vector_create_succeeds() {
    let _: Vector<i64> = Vector::new();
}

#[test]
#[allow(clippy::vec_init_then_push)]
fn push_one_succeeds() {
    let mut vec: Vector<i64> = Vector::new();
    vec.push(123);
}

#[test]
fn push_one_hundred_succeeds() {
    let mut vec: Vector<i64> = Vector::new();
    for i in 1..100 {
        vec.push(i);
    }

    assert_eq!(vec.len(), 99);
}

#[test]
fn push_pop_one_hundred_succeeds() {
    let obj: Rc<i64> = Rc::new(1);
    let mut vec: Vector<Rc<i64>> = Vector::new();
    for i in 1..100 {
        vec.push(obj.clone());
        assert_eq!(Rc::strong_count(&obj), i + 1);
    }

    for i in (1..100).rev() {
        let popped = vec.pop().unwrap();
        assert_eq!(*popped, 1);
        assert_eq!(Rc::strong_count(&obj), i + 1);
    }

    assert_eq!(None, vec.pop());
}

#[test]
fn push_100_drop_clears() {
    let obj: Rc<i64> = Rc::new(1);
    {
        let mut vec: Vector<Rc<i64>> = Vector::new();
        for i in 1..100 {
            vec.push(obj.clone());
            assert_eq!(Rc::strong_count(&obj), i + 1);
        }
        assert_eq!(Rc::strong_count(&obj), 100);
    }

    assert_eq!(Rc::strong_count(&obj), 1);
}

#[test]
fn push_past_max_growth() {
    let mut vec: Vector<usize> = Vector::new();
    for i in 0..(MAX_GROWTH + 100) {
        vec.push(i);
    }
    assert_eq!(vec.len(), MAX_GROWTH + 100);
}

#[test]
fn push_pop_arbitray_properly_drops() {
    let obj: Rc<i64> = Rc::new(1);
    let mut vec: Vector<Rc<i64>> = Vector::new();

    for _ in 0..10 {
        vec.push(obj.clone());
    }
    assert_eq!(Rc::strong_count(&obj), 11);

    for _ in 0..5 {
        vec.pop();
    }
    assert_eq!(Rc::strong_count(&obj), 6);

    for _ in 0..10 {
        vec.push(obj.clone());
    }
    assert_eq!(Rc::strong_count(&obj), 16);

    for _ in 0..5 {
        vec.pop();
    }
    assert_eq!(Rc::strong_count(&obj), 11);
}

#[test]
fn push_pop_arbitray_properly_orders() {
    let mut vec: Vector<i64> = Vector::new();

    for i in 0..10 {
        vec.push(i);
    }

    for i in (5..10).rev() {
        let popped = vec.pop().unwrap();
        assert_eq!(popped, i);
    }

    for i in 6..15 {
        vec.push(i);
    }

    for i in (10..15).rev() {
        let popped = vec.pop().unwrap();
        assert_eq!(popped, i);
    }
}

#[test]
fn is_empty_when_size_0() {
    let mut vec: Vector<usize> = Vector::new();
    assert!(vec.is_empty());
    vec.push(1);
    assert!(!vec.is_empty());
    vec.pop();
    assert!(vec.is_empty());
}

#[test]
fn clear_removes_and_drops_all_items() {
    let obj: Rc<i64> = Rc::new(1);
    let mut vec: Vector<Rc<i64>> = Vector::new();

    for _ in 0..10 {
        vec.push(obj.clone());
    }
    assert_eq!(Rc::strong_count(&obj), 11);

    vec.clear();
    assert!(vec.is_empty());
    assert_eq!(Rc::strong_count(&obj), 1);
}

#[test]
fn reserve_only_increases_memory_size() {
    let mut vec: Vector<i64> = Vector::new();
    vec.reserve(100);

    assert_eq!(vec.capacity(), 100);
    assert!(vec.is_empty());
}

#[test]
fn reserve_adds_to_memory_size() {
    let mut vec: Vector<i64> = Vector::new();
    vec.reserve(100);
    vec.push(1);
    vec.reserve(100);

    assert_eq!(vec.capacity(), 101);
}

#[test]
fn reserve_total_only_increases_memory_size() {
    let mut vec: Vector<i64> = Vector::new();
    vec.reserve_total(100);

    assert_eq!(vec.capacity(), 100);
    assert!(vec.is_empty());
}

#[test]
fn reserve_total_increases_only_to_memory_size() {
    let mut vec: Vector<i64> = Vector::new();
    vec.reserve_total(100);
    vec.reserve_total(100);

    assert_eq!(vec.capacity(), 100);
}

#[test]
fn accessing_via_index_returns_correct_value() {
    let mut vec: Vector<usize> = Vector::new();
    for i in 0..10 {
        vec.push(i);
        assert_eq!(vec[i], i);
    }
}

#[test]
fn can_mutate_value_in_vector_via_index() {
    let mut vec: Vector<usize> = Vector::new();
    for i in 0..10 {
        vec.push(i);
        vec[i] *= 10;
        assert_eq!(vec[i], i * 10);
    }
}

#[test]
#[should_panic = "index out of bounds: the len is 10 but the index is 11"]
fn access_index_out_of_range_panics() {
    let mut vec: Vector<usize> = Vector::new();
    for i in 0..10 {
        vec.push(i);
    }

    let _ = vec[11];
}

#[test]
#[should_panic = "index out of bounds: the len is 10 but the index is 11"]
fn access_mut_index_out_of_rane_panics() {
    let mut vec: Vector<usize> = Vector::new();
    for i in 0..10 {
        vec.push(i);
    }

    vec[11] = 11;
}

#[test]
fn clone_deep_copies() {
    let (obj, vec) = initialize_vector_of_5_rc();

    assert_eq!(Rc::strong_count(&obj), 6);

    let _vec2 = vec.clone();
    assert_eq!(Rc::strong_count(&obj), 11);
}

#[test]
fn deref_gives_slice_methods() {
    let mut vec: Vector<i32> = Vector::new();
    for i in 0..5 {
        vec.push(i);
    }
    assert_eq!(vec.first(), Some(&0));
    assert_eq!(vec.last(), Some(&4));
    assert!(vec.contains(&3));
}

#[test]
fn deref_slice_len_matches_size_not_capacity() {
    let mut vec: Vector<i32> = Vector::new();
    vec.reserve(100);
    for i in 0..5 {
        vec.push(i);
    }
    assert_eq!(vec.len(), 5);
    assert_eq!((*vec).len(), 5);
}

#[test]
fn deref_mut_allows_slice_mutation() {
    let mut vec: Vector<i32> = Vector::new();
    for i in 0..5 {
        vec.push(i);
    }
    vec.sort_by(|a, b| b.cmp(a));
    assert_eq!(vec[0], 4);
    assert_eq!(vec[4], 0);
}

#[test]
fn deref_on_empty_vector_gives_empty_slice() {
    let vec: Vector<i32> = Vector::new();
    assert!(vec.is_empty());
    assert_eq!(vec.first(), None);
}

#[test]
fn remove_works_on_first_item() {
    let mut vec: Vector<i32> = Vector::new();
    for i in 0..5 {
        vec.push(i);
    }

    let rslt = vec.remove(0);
    assert_eq!(rslt, 0);
    assert_eq!(vec.len(), 4);
    assert_eq!(vec[0], 1);
}

#[test]
fn remove_works_on_middle_item() {
    let mut vec: Vector<i32> = Vector::new();
    for i in 0..5 {
        vec.push(i);
    }

    let rslt = vec.remove(2);
    assert_eq!(rslt, 2);
    assert_eq!(vec.len(), 4);
    assert_eq!(vec[0], 0);
    assert_eq!(vec[2], 3);
}

#[test]
fn remove_works_on_last_item() {
    let mut vec: Vector<i32> = Vector::new();
    for i in 0..5 {
        vec.push(i);
    }

    let rslt = vec.remove(4);
    assert_eq!(rslt, 4);
    assert_eq!(vec.len(), 4);
    assert_eq!(vec[3], 3);
}

#[test]
fn insert_works_on_first_item() {
    let mut vec: Vector<i32> = Vector::new();
    for i in 0..5 {
        vec.push(i);
    }

    vec.insert(0, 5);
    assert_eq!(vec.len(), 6);
    assert_eq!(vec[0], 5);
    assert_eq!(vec[1], 0);
}

#[test]
fn insert_works_on_middle_item() {
    let mut vec: Vector<i32> = Vector::new();
    for i in 0..5 {
        vec.push(i);
    }

    vec.insert(2, 5);
    assert_eq!(vec.len(), 6);
    assert_eq!(vec[2], 5);
    assert_eq!(vec[1], 1);
    assert_eq!(vec[3], 2);
}

#[test]
fn insert_works_on_last_item() {
    let mut vec: Vector<i32> = Vector::new();
    for i in 0..5 {
        vec.push(i);
    }

    vec.insert(5, 5);
    assert_eq!(vec.len(), 6);
    assert_eq!(vec[5], 5);
    assert_eq!(vec[4], 4);
}

#[test]
fn insert_properly_moves_items() {
    let (obj, mut vec) = initialize_vector_of_5_rc();

    vec.insert(2, obj.clone());
    assert_eq!(vec.len(), 6);
    assert_eq!(Rc::strong_count(&obj), 7);
}

#[test]
fn remove_properly_drops_items() {
    let (obj, mut vec) = initialize_vector_of_5_rc();

    {
        let obj2 = vec.remove(2);
        assert_eq!(obj2, obj);
        assert_eq!(vec.len(), 4);
        assert_eq!(Rc::strong_count(&obj), 6);
    }
    assert_eq!(Rc::strong_count(&obj), 5);
}

#[test]
fn partial_eq_compares_contents() {
    let mut a: Vector<i32> = Vector::new();
    let mut b: Vector<i32> = Vector::new();
    for i in 0..5 {
        a.push(i);
        b.push(i);
    }
    assert!(a == b);

    b.push(99);
    assert!(a != b);
}

#[test]
fn push_and_pop_zst_works() {
    let mut vec: Vector<()> = Vector::new();
    for i in 0..5 {
        assert_eq!(vec.len(), i);
        assert_eq!(vec.capacity(), 0);
        vec.push(());
    }
    assert_eq!(vec.capacity(), 0);
    assert_eq!(vec.len(), 5);

    for i in (0..5).rev() {
        let rslt = vec.pop();
        assert_eq!(vec.len(), i);
        assert_eq!(vec.capacity(), 0);
        assert!(rslt.is_some());
    }

    assert_eq!(vec.capacity(), 0);
    assert!(vec.pop().is_none());
}

#[test]
fn index_zst_works() {
    let mut vec: Vector<()> = Vector::new();
    for _ in 0..5 {
        vec.push(());
    }

    let () = vec[2];
    vec[2] = ();
}

#[test]
fn inter_iter_zst_works() {
    let mut vec: Vector<()> = Vector::new();
    for _ in 0..5 {
        vec.push(());
    }

    let mut iter = vec.into_iter();
    while let Some(()) = iter.next() {}
}

#[test]
fn growth_doubles_then_adds_max_growth() {
    let mut vec: Vector<u32> = Vector::new();
    assert_eq!(vec.capacity(), 0);
    vec.push(0);
    assert_eq!(vec.capacity(), INITIAL_GROWTH);
    let mut expected = INITIAL_GROWTH;
    for i in 1..3000u32 {
        if vec.len() == vec.capacity() {
            expected = if expected > MAX_GROWTH / 2 {
                expected + MAX_GROWTH
            } else {
                expected * 2
            };
        }
        vec.push(i);
        assert_eq!(vec.capacity(), expected);
    }
    assert_eq!(vec.capacity(), 3072);
    for i in 0..3000u32 {
        assert_eq!(vec[i as usize], i);
    }
}

#[test]
fn pop_after_push_restores_the_vector() {
    let mut vec: Vector<i32> = Vector::new();
    for i in 0..4 {
        vec.push(i);
    }
    vec.push(42);
    assert_eq!(Some(42), vec.pop());
    assert_eq!([0, 1, 2, 3], *vec);
}

#[test]
fn remove_after_insert_restores_the_vector() {
    let mut vec: Vector<i32> = Vector::new();
    for i in 0..6 {
        vec.push(i);
    }
    for index in 0..=6 {
        vec.insert(index, 100);
        assert_eq!(100, vec[index]);
        assert_eq!(100, vec.remove(index));
        assert_eq!([0, 1, 2, 3, 4, 5], *vec);
    }
}

#[test]
fn pop_on_empty_returns_none_and_keeps_capacity() {
    let mut vec: Vector<i32> = Vector::new();
    vec.reserve(4);
    assert_eq!(None, vec.pop());
    assert_eq!(4, vec.capacity());
}

#[test]
fn clear_keeps_capacity() {
    let mut vec: Vector<i32> = Vector::new();
    for i in 0..20 {
        vec.push(i);
    }
    vec.clear();
    assert_eq!(0, vec.len());
    assert_eq!(32, vec.capacity());
}

#[test]
fn clone_copies_elements_and_reserves_their_number() {
    let mut vec: Vector<i32> = Vector::new();
    for i in 0..5 {
        vec.push(i);
    }
    let copy = vec.clone();
    assert!(copy == vec);
    assert_eq!(5, copy.capacity());
    assert_eq!(16, vec.capacity());
}

#[test]
fn default_is_empty() {
    let vec: Vector<i32> = Vector::default();
    assert!(vec.is_empty());
    assert_eq!(0, vec.capacity());
}

#[test]
fn insert_into_full_vector_grows() {
    let mut vec: Vector<i32> = Vector::new();
    for i in 0..16 {
        vec.push(i);
    }
    assert_eq!(16, vec.capacity());
    vec.insert(3, -1);
    assert_eq!(32, vec.capacity());
    assert_eq!(17, vec.len());
    assert_eq!(-1, vec[3]);
    assert_eq!(3, vec[4]);
    assert_eq!(15, vec[16]);
}

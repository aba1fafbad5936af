use std::rc::Rc;

use rust_lib::vector::Vector;

fn initialize_vector_of_5_rc() -> (Rc<i64>, Vector<Rc<i64>>) {
    let obj: Rc<i64> = Rc::new(1);
    let mut vec: Vector<Rc<i64>> = Vector::new();

    for _ in 0..5 {
        vec.push(obj.clone());
    }

    (obj, vec)
}

#[test]
fn into_iter_can_clear_all_values() {
    let (obj, vec) = initialize_vector_of_5_rc();

    let mut into_iter = vec.into_iter();
    while let Some(_) = into_iter.next() {}

    assert_eq!(Rc::strong_count(&obj), 1);
}

#[test]
fn into_iter_incrementally_clears_values() {
    let (obj, vec) = initialize_vector_of_5_rc();
    let mut into_iter = vec.into_iter();
    {
        let _ = into_iter.next();
    }

    assert_eq!(Rc::strong_count(&obj), 5);
    drop(into_iter);
    assert_eq!(Rc::strong_count(&obj), 1);
}

#[test]
fn reverse_into_iter_can_clear_all_values() {
    let (obj, vec) = initialize_vector_of_5_rc();

    let mut into_iter = vec.into_iter();
    while let Some(_) = into_iter.next_back() {}

    assert_eq!(Rc::strong_count(&obj), 1);
}

#[test]
fn reverse_into_iter_incrementally_clears_values() {
    let (obj, vec) = initialize_vector_of_5_rc();
    let mut into_iter = vec.into_iter();
    {
        let _ = into_iter.next_back();
    }

    assert_eq!(Rc::strong_count(&obj), 5);
    drop(into_iter);
    assert_eq!(Rc::strong_count(&obj), 1);
}

#[test]
fn into_iter_mixed_front_and_back_drains_exactly_once() {
    let (obj, vec) = initialize_vector_of_5_rc();
    let mut into_iter = vec.into_iter();

    let _ = into_iter.next();
    let _ = into_iter.next_back();
    assert_eq!(Rc::strong_count(&obj), 4);

    drop(into_iter);
    assert_eq!(Rc::strong_count(&obj), 1);
}

#[test]
fn into_iter_hands_out_elements_in_order_from_both_ends() {
    let mut vec: Vector<i32> = Vector::new();
    for i in 0..5 {
        vec.push(i);
    }
    let mut into_iter = vec.into_iter();
    assert_eq!(5, into_iter.len());
    assert_eq!((5, Some(5)), into_iter.size_hint());
    assert_eq!(Some(0), into_iter.next());
    assert_eq!(Some(4), into_iter.next_back());
    assert_eq!(Some(1), into_iter.next());
    assert_eq!(Some(3), into_iter.next_back());
    assert_eq!(1, into_iter.len());
    assert_eq!(Some(2), into_iter.next());
    assert_eq!(None, into_iter.next());
    assert_eq!(None, into_iter.next_back());
    assert_eq!((0, Some(0)), into_iter.size_hint());
}

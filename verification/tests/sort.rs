use rust_lib::sort::helper::default_pred;
use rust_lib::sort::quick::{partition, Partition};
use rust_lib::sort::{bubble, quick};
use rust_lib::vector::Vector;

const PERMUTATIONS_OF_3: [[i32; 3]; 6] = [
    [1, 2, 3],
    [1, 3, 2],
    [2, 1, 3],
    [2, 3, 1],
    [3, 1, 2],
    [3, 2, 1],
];

#[test]
fn bubble_sort_numbers() {
    let mut to_sort: Vector<i32> = Vector::new();
    for val in [3, 1, 5, 6] {
        to_sort.push(val);
    }

    bubble::sort(&mut to_sort);

    assert_eq!([1, 3, 5, 6], *to_sort);
}

#[test]
fn bubble_sort_numbers_random() {
    const LENGTH: usize = 100;

    for _ in 0..LENGTH {
        let mut to_sort: Vector<usize> = Vector::new();
        to_sort.reserve(LENGTH);
        for _ in 0..LENGTH {
            to_sort.push(rand::random_range(0..LENGTH));
        }

        let mut clone_to_sort = to_sort.clone();

        clone_to_sort.sort_unstable();
        bubble::sort(&mut to_sort);

        assert_eq!(*to_sort, *clone_to_sort);
    }
}

#[test]
fn partition_dutch_correct_partitions_no_multiples() {
    let mut to_sort: Vector<i32> = Vector::new();
    for val in [3, 1, 5, 6, 2, 4] {
        to_sort.push(val);
    }

    let pivot_id = partition(&mut to_sort, &default_pred);

    assert_eq!(pivot_id, Partition { upper: 3, lower: 3 });
}

#[test]
fn partition_dutch_correct_partitions_with_multiples() {
    let mut to_sort: Vector<i32> = Vector::new();
    for val in [3, 1, 5, 5, 2, 5] {
        to_sort.push(val);
    }

    let pivot_id = partition(&mut to_sort, &default_pred);

    assert_eq!(pivot_id, Partition { upper: 5, lower: 3 });
}

#[test]
fn quick_sort_numbers() {
    let mut to_sort: Vector<i32> = Vector::new();
    for val in [3, 4, 5, 1, 2, 6] {
        to_sort.push(val);
    }

    quick::sort(&mut to_sort);

    assert_eq!([1, 2, 3, 4, 5, 6], *to_sort);
}

#[test]
fn quick_sort_numbers_random() {
    const LENGTH: usize = 100;

    for _ in 0..LENGTH {
        let mut to_sort: Vector<usize> = Vector::new();
        to_sort.reserve(LENGTH);
        for _ in 0..LENGTH {
            to_sort.push(rand::random_range(0..LENGTH));
        }

        let mut clone_to_sort = to_sort.clone();

        clone_to_sort.sort_unstable();
        quick::sort(&mut to_sort);

        assert_eq!(*to_sort, *clone_to_sort);
    }
}

#[test]
fn sort_numbers_multiples() {
    let mut to_sort: Vector<i32> = Vector::new();
    for val in [3, 3, 3, 1, 2, 6] {
        to_sort.push(val);
    }

    quick::sort(&mut to_sort);

    assert_eq!([1, 2, 3, 3, 3, 6], *to_sort);
}

#[test]
fn sort_small() {
    let mut to_sort: Vector<i32> = Vector::new();
    for perms in PERMUTATIONS_OF_3 {
        for val in perms {
            to_sort.push(val);
        }

        quick::sort(&mut to_sort);

        assert_eq!([1, 2, 3], *to_sort);
        to_sort.clear();
    }
}

#[test]
fn sort_pred_orders_by_the_predicate() {
    let mut a = [4, 9, 1, 7, 7, 3, 0, 12, 5];
    let mut b = a;
    bubble::sort_pred(&mut a, |x: &i32, y: &i32| x > y);
    quick::sort_pred(&mut b, |x: &i32, y: &i32| x > y);
    assert_eq!([12, 9, 7, 7, 5, 4, 3, 1, 0], a);
    assert_eq!(a, b);
}

#[test]
fn sorting_keeps_equal_elements_and_handles_short_slices() {
    let mut empty: [i32; 0] = [];
    bubble::sort(&mut empty);
    quick::sort(&mut empty);
    let mut one = [5];
    quick::sort(&mut one);
    assert_eq!([5], one);
    let mut same = [2, 2, 2, 2, 2];
    quick::sort(&mut same);
    assert_eq!([2, 2, 2, 2, 2], same);
    let mut pairs = [(1, 'b'), (0, 'z'), (1, 'a'), (0, 'y')];
    quick::sort_pred(&mut pairs, |x: &(i32, char), y: &(i32, char)| x.0 < y.0);
    assert_eq!(0, pairs[0].0);
    assert_eq!(0, pairs[1].0);
    assert_eq!(1, pairs[2].0);
    assert_eq!(1, pairs[3].0);
}

#[test]
fn partition_splits_around_the_median_pivot() {
    let mut data = [9, 2, 8, 2, 7, 1, 5, 5, 3];
    let p = partition(&mut data, &default_pred);
    assert!(p.lower <= p.upper && p.upper < data.len());
    let pivot = data[p.lower];
    for k in 0..p.lower {
        assert!(data[k] < pivot);
    }
    for k in p.lower..=p.upper {
        assert_eq!(pivot, data[k]);
    }
    for k in (p.upper + 1)..data.len() {
        assert!(data[k] > pivot);
    }
    let mut sorted = data;
    sorted.sort();
    assert_eq!([1, 2, 2, 3, 5, 5, 7, 8, 9], sorted);
}

#[test]
fn default_pred_is_less_than() {
    assert!(default_pred(&1, &2));
    assert!(!default_pred(&2, &2));
    assert!(!default_pred(&3, &2));
}

#[test]
fn bubble_sort_keeps_equivalent_elements_in_order() {
    let mut pairs = [(1, 'b'), (0, 'z'), (1, 'a'), (0, 'y'), (2, 'q'), (0, 'x')];
    bubble::sort_pred(&mut pairs, |x: &(i32, char), y: &(i32, char)| x.0 < y.0);
    assert_eq!([(0, 'z'), (0, 'y'), (0, 'x'), (1, 'b'), (1, 'a'), (2, 'q')], pairs);
}

use std::cmp::Ordering;

use rust_lib::search::binary::{
    lower_bound, lower_bound_by, search, search_by, upper_bound, upper_bound_by,
};
use rust_lib::search::linear;
use rust_lib::vector::Vector;

#[test]
fn empty_returns_zero_err() {
    let test = [];
    let find = 1;
    assert_eq!(Err(0), search(&test, &find));
}

#[test]
fn size_1_match_returns_zero_ok() {
    let test = [1];
    let find = 1;
    assert_eq!(Ok(0), search(&test, &find));
}

#[test]
fn size_1_less_than_returns_zero_err() {
    let test = [1];
    let find = 0;
    assert_eq!(Err(0), search(&test, &find));
}

#[test]
fn size_1_greater_than_returns_one_err() {
    let test = [1];
    let find = 2;
    assert_eq!(Err(1), search(&test, &find));
}

#[test]
fn search_exact_match_return_ok() {
    let test = [0, 10, 20, 30, 40, 50];
    let find = 20;
    assert_eq!(Ok(2), search(&test, &find));
}

#[test]
fn search_not_exact_match_return_err_insert_index() {
    let test = [0, 10, 20, 30, 40, 50];
    let find = 25;
    assert_eq!(Err(3), search(&test, &find));
}

#[test]
fn search_not_exact_match_return_err_insert_index_end() {
    let test = [0, 10, 20, 30, 40, 50];
    let find = 55;
    assert_eq!(Err(6), search(&test, &find));
}

#[test]
fn search_not_exact_match_return_err_insert_index_begin() {
    let test = [0, 10, 20, 30, 40, 50];
    let find = -1;
    assert_eq!(Err(0), search(&test, &find));
}

#[test]
fn search_multiples_middle() {
    let test = [0, 10, 20, 20, 20, 50, 60];
    let find = 20;
    assert_eq!(Ok(3), search(&test, &find));
}

#[test]
fn search_multiples_not_middle() {
    let test = [0, 20, 20, 30, 40, 50, 60];
    let find = 20;
    assert_eq!(Ok(1), search(&test, &find));
}

#[test]
fn search_lower_bound_has_exact_match() {
    let test = [0, 20, 20, 30, 40, 50, 60];
    let find = 20;
    assert_eq!(1, lower_bound(&test, &find));
}

#[test]
fn search_lower_bound_has_no_exact_match() {
    let test = [0, 20, 20, 30, 40, 50, 60];
    let find = 10;
    assert_eq!(1, lower_bound(&test, &find));
}

#[test]
fn search_upper_bound_has_no_exact_match() {
    let test = [0, 20, 20, 30, 40, 50, 60];
    let find = 25;
    assert_eq!(3, upper_bound(&test, &find));
}

#[test]
fn search_upper_bound_has_exact_match() {
    let test = [0, 20, 20, 30, 40, 50, 60];
    let find = 20;
    assert_eq!(3, upper_bound(&test, &find));
}

const NUMBER_TEST_ITEMS: i32 = 100;

fn create_sorted_vect() -> Vector<i32> {
    let mut test: Vector<i32> = Vector::new();
    test.reserve(NUMBER_TEST_ITEMS as usize);
    for _ in 0..NUMBER_TEST_ITEMS {
        test.push(rand::random_range(0..NUMBER_TEST_ITEMS));
    }

    test.sort_unstable();

    test
}

#[test]
fn random_sorted_data_search() {
    for _ in 0..NUMBER_TEST_ITEMS {
        let test = create_sorted_vect();
        let target = rand::random_range(0..NUMBER_TEST_ITEMS);

        let rslt_std = test.binary_search(&target);
        if let Ok(idx) = rslt_std {
            assert_eq!(test[idx], test[search(&test, &target).unwrap()]);
        } else {
            assert_eq!(rslt_std, search(&test, &target));
        }
    }
}

#[test]
fn random_sorted_data_successful_lower_bound() {
    for _ in 0..NUMBER_TEST_ITEMS {
        let test = create_sorted_vect();
        let target = rand::random_range(0..NUMBER_TEST_ITEMS);

        assert_eq!(
            test.partition_point(|x| x < &target),
            lower_bound(&test, &target)
        );
    }
}

#[test]
fn random_sorted_data_successful_upper_bound() {
    for _ in 0..NUMBER_TEST_ITEMS {
        let test = create_sorted_vect();
        let target = rand::random_range(0..NUMBER_TEST_ITEMS);

        assert_eq!(
            test.partition_point(|x| x <= &target),
            upper_bound(&test, &target)
        );
    }
}

#[test]
fn find_successful_unsorted() {
    let test = [0, 2, 1, 3, 4];
    let find = 1;

    assert_eq!(Some(2), linear::search(&test, &find));
}

#[test]
fn find_successful_sorted() {
    let test = [0, 1, 2, 3, 4];
    let find = 1;

    assert_eq!(Some(1), linear::search(&test, &find));
}

#[test]
fn find_unsuccessful_doesnt_exist() {
    let test = [0, 1, 2, 3, 4];
    let find = 5;

    assert_eq!(None, linear::search(&test, &find));
}

#[test]
fn find_unsuccessful_empty() {
    let test = [];
    let find = 5;

    assert_eq!(None, linear::search(&test, &find));
}

#[test]
fn linear_search_returns_the_first_match() {
    let test = [4, 1, 4, 1];
    assert_eq!(Some(1), linear::search(&test, &1));
    assert_eq!(Some(0), linear::search(&test, &4));
}

#[test]
fn search_pred_returns_first_index_where_pred_holds() {
    let test = [1, 5, 7, 9];
    assert_eq!(Some(2), linear::search_pred(&test, &6, |a, b| a > b));
    assert_eq!(None, linear::search_pred(&test, &9, |a, b| a > b));
    assert_eq!(Some(0), linear::search_pred(&test, &0, |a, b| a > b));
}

#[test]
fn search_by_with_reversed_order() {
    let test = [50, 40, 30, 20, 10];
    let rev = |a: &i32, b: &i32| -> Ordering { b.cmp(a) };
    assert_eq!(Ok(1), search_by(&test, &40, rev));
    assert_eq!(Err(2), search_by(&test, &35, rev));
    assert_eq!(Err(5), search_by(&test, &5, rev));
    assert_eq!(Err(0), search_by(&test, &60, rev));
}

#[test]
fn bounds_by_with_custom_less_than() {
    let test = [9, 7, 7, 7, 3, 1];
    let greater = |a: &i32, b: &i32| a > b;
    assert_eq!(1, lower_bound_by(&test, &7, greater));
    assert_eq!(4, upper_bound_by(&test, &7, greater));
    assert_eq!(4, lower_bound_by(&test, &5, greater));
    assert_eq!(4, upper_bound_by(&test, &5, greater));
    assert_eq!(0, lower_bound_by(&test, &10, greater));
    assert_eq!(6, upper_bound_by(&test, &0, greater));
}

#[test]
fn bounds_on_empty_slice_are_zero() {
    let test: [i32; 0] = [];
    assert_eq!(0, lower_bound(&test, &3));
    assert_eq!(0, upper_bound(&test, &3));
}

#[test]
fn bounds_surround_every_equal_element() {
    let test = [1, 2, 2, 2, 2, 3];
    assert_eq!(1, lower_bound(&test, &2));
    assert_eq!(5, upper_bound(&test, &2));
    assert_eq!(0, lower_bound(&test, &0));
    assert_eq!(6, upper_bound(&test, &3));
}

#[test]
fn search_probes_the_middle_first() {
    let test = [0, 20, 20, 20, 20, 20, 60];
    assert_eq!(Ok(3), search(&test, &20));
    let test = [20, 20, 30];
    assert_eq!(Ok(1), search(&test, &20));
}

#[test]
fn bounds_count_the_equal_elements() {
    let test = [1, 3, 3, 3, 7, 9];
    assert_eq!(3, upper_bound(&test, &3) - lower_bound(&test, &3));
    assert_eq!(0, upper_bound(&test, &5) - lower_bound(&test, &5));
}

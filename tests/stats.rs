use mylib::stats::{calc_median, calc_mode, Median};

#[test]
fn median_of_odd_length() {
    assert_eq!(calc_median(&vec![5, 1, 3]), Median::One(3));
}

#[test]
fn median_of_even_length_with_two_values() {
    assert_eq!(calc_median(&vec![4, 1, 3, 2]), Median::Two(2, 3));
}

#[test]
fn median_of_even_length_with_equal_middle() {
    assert_eq!(calc_median(&vec![2, 7, 2, 1]), Median::One(2));
}

#[test]
fn median_of_empty_list() {
    assert_eq!(calc_median(&vec![]), Median::Empty);
}

#[test]
fn single_mode() {
    assert_eq!(calc_mode(&vec![3, 1, 3, 2]), vec![3]);
}

#[test]
fn several_modes_in_ascending_order() {
    assert_eq!(calc_mode(&vec![5, -1, 5, -1, 0]), vec![-1, 5]);
    assert_eq!(calc_mode(&vec![9, 8, 7]), vec![7, 8, 9]);
}

#[test]
fn mode_of_empty_list() {
    assert!(calc_mode(&vec![]).is_empty());
}

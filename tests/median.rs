use ceilometer::median::{median, sort_heights};

#[test]
fn median_of_odd_window_is_middle() {
    assert_eq!(median(&vec![5, 1, 3]), 3);
    assert_eq!(median(&vec![7]), 7);
    assert_eq!(median(&vec![9, 2, 2, 8, 2]), 2);
    assert_eq!(median(&vec![10, 40, 30, 20, 50]), 30);
}

#[test]
fn median_of_even_window_is_upper_middle() {
    assert_eq!(median(&vec![4, 1, 3, 2]), 3);
    assert_eq!(median(&vec![100, 200]), 200);
    assert_eq!(median(&vec![10000, 330, 330, 10000]), 10000);
}

#[test]
fn sort_orders_ascending_and_keeps_all() {
    assert_eq!(sort_heights(&vec![3, 1, 2, 3, 0]), vec![0, 1, 2, 3, 3]);
    assert_eq!(sort_heights(&vec![]), Vec::<u32>::new());
}

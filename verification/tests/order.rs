use vissort::order::{same_frame, swap_values};

#[test]
fn same_frame_compares_values() {
    assert!(same_frame(&vec![], &vec![]));
    assert!(same_frame(&vec![1, 2, 3], &vec![1, 2, 3]));
    assert!(!same_frame(&vec![1, 2, 3], &vec![1, 2]));
    assert!(!same_frame(&vec![1, 2, 3], &vec![1, 2, 4]));
}

#[test]
fn swap_values_exchanges() {
    let mut values = vec![5, 6, 7];
    swap_values(&mut values, 0, 2);
    assert_eq!(values, vec![7, 6, 5]);
    swap_values(&mut values, 1, 1);
    assert_eq!(values, vec![7, 6, 5]);
}

use data_generation::combine::{a_to_b, stop_diff_2, stop_diff_4};

#[test]
fn a_to_b_labels_each_change() {
    let l = vec!["BUS".to_string(), "MTR".to_string(), "GMB".to_string()];
    let r = vec!["MTR".to_string(), "BUS".to_string()];
    assert_eq!(a_to_b(&l, &r), vec!["BUS->MTR".to_string(), "MTR->BUS".to_string()]);
    assert!(a_to_b(&Vec::new(), &r).is_empty());
}

#[test]
fn stop_diff_2_counts_stops() {
    assert_eq!(stop_diff_2(&vec![1, 3, 5], &vec![4, 3, 9]), Some(vec![3, 0, 4]));
    assert_eq!(stop_diff_2(&vec![1, 2], &vec![4]), Some(vec![3]));
    assert_eq!(stop_diff_2(&vec![5, 1], &vec![4, 2]), None);
}

#[test]
fn stop_diff_4_adds_both_legs() {
    assert_eq!(
        stop_diff_4(&vec![1, 2], &vec![4, 2], &vec![10, 7], &vec![12, 9]),
        Some(vec![5, 2])
    );
    // two forward legs: the sum of what stop_diff_2 gives for each
    let (a, b, c, d) = (vec![3u32], vec![8u32], vec![20u32], vec![26u32]);
    let first = stop_diff_2(&a, &b).unwrap()[0];
    let second = stop_diff_2(&c, &d).unwrap()[0];
    assert_eq!(stop_diff_4(&a, &b, &c, &d), Some(vec![first + second]));
}

#[test]
fn stop_diff_4_refuses_what_leaves_u32() {
    // first leg backwards
    assert_eq!(stop_diff_4(&vec![5], &vec![4], &vec![0], &vec![1]), None);
    // b - a + d overflows although the total would fit
    assert_eq!(stop_diff_4(&vec![0], &vec![1], &vec![u32::MAX], &vec![u32::MAX]), None);
    // second leg backwards by more than the first leg covers
    assert_eq!(stop_diff_4(&vec![0], &vec![1], &vec![5], &vec![2]), None);
    // second leg backwards but the total stays non-negative
    assert_eq!(stop_diff_4(&vec![0], &vec![5], &vec![4], &vec![2]), Some(vec![3]));
}

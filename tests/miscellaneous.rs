use markov_learning::miscellaneous::ArgOrd;

#[test]
fn extremes_of_values() {
    let v: Vec<i128> = vec![3, -1, 7, 7, -1];
    assert_eq!(v.arg_max(), Some(2));
    assert_eq!(v.arg_min(), Some(1));
    assert_eq!(v.max_val(), Some(7));
    assert_eq!(v.min_val(), Some(-1));
}

#[test]
fn extremes_of_counts() {
    let v: Vec<u64> = vec![4, 2, 9, 2];
    assert_eq!(v.arg_max(), Some(2));
    assert_eq!(v.arg_min(), Some(1));
    assert_eq!(v.max_val(), Some(9));
    assert_eq!(v.min_val(), Some(2));
}

#[test]
fn extremes_of_empty() {
    let v: Vec<i128> = vec![];
    assert_eq!(v.arg_max(), None);
    assert_eq!(v.arg_min(), None);
    assert_eq!(v.max_val(), None);
    assert_eq!(v.min_val(), None);
}

use algolib::permutations::LexicalPermutation;

#[test]
fn test_next_permutation() {
    let mut v: Vec<i64> = vec![0, 5, 8, 10];
    assert!(v.next_permutation());
    assert_eq!(&v, &[0, 5, 10, 8]);
    assert!(v.next_permutation());
    assert_eq!(&v, &[0, 8, 5, 10]);
    assert!(v.next_permutation());
    assert_eq!(&v, &[0, 8, 10, 5]);
    assert!(v.next_permutation());
    assert_eq!(&v, &[0, 10, 5, 8]);
    assert!(v.next_permutation());
    assert_eq!(&v, &[0, 10, 8, 5]);
    assert!(v.next_permutation());
    assert_eq!(&v, &[5, 0, 8, 10]);
    assert!(v.next_permutation());
    assert_eq!(&v, &[5, 0, 10, 8]);
    assert!(v.next_permutation());
    assert_eq!(&v, &[5, 8, 0, 10]);
    assert!(v.next_permutation());
    assert_eq!(&v, &[5, 8, 10, 0]);
    assert!(v.next_permutation());
    assert_eq!(&v, &[5, 10, 0, 8]);
    assert!(v.next_permutation());
    assert_eq!(&v, &[5, 10, 8, 0]);
}

#[test]
fn test_prev_permutation() {
    let mut v: Vec<i64> = vec![5, 10, 8, 0];
    assert!(v.prev_permutation());
    assert_eq!(&v, &[5, 10, 0, 8]);
    assert!(v.prev_permutation());
    assert_eq!(&v, &[5, 8, 10, 0]);
    assert!(v.prev_permutation());
    assert_eq!(&v, &[5, 8, 0, 10]);
    assert!(v.prev_permutation());
    assert_eq!(&v, &[5, 0, 10, 8]);
    assert!(v.prev_permutation());
    assert_eq!(&v, &[5, 0, 8, 10]);
    assert!(v.prev_permutation());
    assert_eq!(&v, &[0, 10, 8, 5]);
    assert!(v.prev_permutation());
    assert_eq!(&v, &[0, 10, 5, 8]);
    assert!(v.prev_permutation());
    assert_eq!(&v, &[0, 8, 10, 5]);
    assert!(v.prev_permutation());
    assert_eq!(&v, &[0, 8, 5, 10]);
    assert!(v.prev_permutation());
    assert_eq!(&v, &[0, 5, 10, 8]);
    assert!(v.prev_permutation());
    assert_eq!(&v, &[0, 5, 8, 10]);
    assert!(!v.prev_permutation());
}

use algolib::lazy_segtree::{LazySegTree, TreeError};
use algolib::ops::{AddOps, SumCountOps, SumLen};
use algolib::segtree::SegTree;

#[test]
fn test_rsq_raq() {
    let init = vec![
        SumLen { sum: 0, len: 1 },
        SumLen { sum: 0, len: 1 },
        SumLen { sum: 0, len: 1 },
    ];
    let mut seg = LazySegTree::<SumLen, i64, SumCountOps>::new(init);
    seg.update(0, 2, 1).unwrap();
    seg.update(1, 3, 2).unwrap();
    seg.update(2, 3, 3).unwrap();
    assert_eq!(seg.query(0, 2).unwrap().sum, 4);
    assert_eq!(seg.query(1, 3).unwrap().sum, 8);
}

#[test]
fn test_raq() {
    let h = vec![2, 4, 2];
    let mut seg = LazySegTree::<i64, i64, AddOps>::new(h);
    seg.update(0, 2, -2).unwrap();
    assert_eq!(seg.query(0, 1).unwrap(), 0);
    assert_eq!(seg.query(1, 2).unwrap(), 2);
    assert_eq!(seg.query(2, 3).unwrap(), 2);
    seg.update(1, 3, 5).unwrap();
    assert_eq!(seg.query(0, 1).unwrap(), 0);
    assert_eq!(seg.query(1, 2).unwrap(), 7);
    assert_eq!(seg.query(2, 3).unwrap(), 7);
}

#[test]
fn lazy_full_range_matches_naive_scan() {
    // mirror every update on a plain array and compare all range sums
    let n = 6;
    let init = vec![SumLen { sum: 0, len: 1 }; 6];
    let mut seg = LazySegTree::<SumLen, i64, SumCountOps>::new(init);
    let mut naive = vec![0i64; n];
    let updates = [(0usize, 4usize, 3i64), (2, 6, -1), (1, 5, 10), (0, 6, 2)];
    for &(l, r, u) in updates.iter() {
        seg.update(l, r, u).unwrap();
        for v in naive.iter_mut().take(r).skip(l) {
            *v += u;
        }
    }
    for l in 0..n {
        for r in (l + 1)..=n {
            let expect: i64 = naive[l..r].iter().sum();
            assert_eq!(seg.query(l, r).unwrap().sum, expect);
        }
    }
}

#[test]
fn lazy_single_elements_after_overlapping_updates() {
    let mut seg = LazySegTree::<i64, i64, AddOps>::new(vec![1, 2, 3, 4, 5]);
    seg.update(0, 5, 10).unwrap();
    seg.update(2, 4, -7).unwrap();
    let expect = [11, 12, 6, 7, 15];
    for (i, &e) in expect.iter().enumerate() {
        assert_eq!(seg.query(i, i + 1).unwrap(), e);
    }
}

#[test]
fn lazy_rejects_bad_ranges() {
    let mut seg = LazySegTree::<i64, i64, AddOps>::new(vec![1, 2, 3]);
    assert_eq!(seg.update(2, 2, 5), Err(TreeError::InvalidRange));
    assert_eq!(seg.update(2, 1, 5), Err(TreeError::InvalidRange));
    assert_eq!(seg.update(1, 4, 5), Err(TreeError::IndexOutOfBounds));
    assert_eq!(seg.query(1, 1), Err(TreeError::InvalidRange));
    assert_eq!(seg.query(0, 7), Err(TreeError::IndexOutOfBounds));
    // the rejected calls left the contents alone
    assert_eq!(seg.query(0, 1).unwrap(), 1);
    assert_eq!(seg.query(1, 2).unwrap(), 2);
    assert_eq!(seg.query(2, 3).unwrap(), 3);
}

#[test]
fn lazy_query_twice_returns_the_same() {
    let mut seg = LazySegTree::<SumLen, i64, SumCountOps>::new(vec![
        SumLen { sum: 4, len: 1 },
        SumLen { sum: 9, len: 1 },
        SumLen { sum: -3, len: 1 },
    ]);
    seg.update(0, 3, 2).unwrap();
    let a = seg.query(0, 3).unwrap();
    let b = seg.query(0, 3).unwrap();
    assert_eq!(a, b);
}

#[test]
fn lazy_build_paths_agree() {
    let values = vec![7i64, -2, 9, 4];
    let direct = {
        let mut seg = LazySegTree::<i64, i64, AddOps>::new(values.clone());
        let mut out = Vec::new();
        for i in 0..values.len() {
            out.push(seg.query(i, i + 1).unwrap());
        }
        out
    };
    let staged = {
        let mut seg = LazySegTree::<i64, i64, AddOps>::new(vec![0i64; 4]);
        for (i, &v) in values.iter().enumerate() {
            seg.set(i, v);
        }
        seg.build();
        let mut out = Vec::new();
        for i in 0..values.len() {
            out.push(seg.query(i, i + 1).unwrap());
        }
        out
    };
    assert_eq!(direct, staged);
}

#[test]
fn test_small_segtree_sum() {
    let mut seg = SegTree::<i64, AddOps>::new(10);
    for i in 0..10 {
        seg.update(i, i as i64);
    }
    assert_eq!(seg.query(0, 9).unwrap(), 36);
    assert_eq!(seg.query(3, 10).unwrap(), 42);
    assert_eq!(seg.query(4, 6).unwrap(), 9);
    seg.update(6, 1);
    assert_eq!(seg.query(0, 9).unwrap(), 31);
    assert_eq!(seg.query(3, 10).unwrap(), 37);
    assert_eq!(seg.query(4, 6).unwrap(), 9);
}

#[test]
fn test_small_segtree_sum2() {
    let mut seg = SegTree::<i64, AddOps>::new(10);
    for i in 0..10 {
        seg.set(i, i as i64);
    }
    seg.build();
    assert_eq!(seg.query(0, 9).unwrap(), 36);
    assert_eq!(seg.query(3, 10).unwrap(), 42);
    assert_eq!(seg.query(4, 6).unwrap(), 9);
    seg.update(6, 1);
    assert_eq!(seg.query(0, 9).unwrap(), 31);
    assert_eq!(seg.query(3, 10).unwrap(), 37);
    assert_eq!(seg.query(4, 6).unwrap(), 9);
    assert_eq!(seg.get(0), 0);
}

use algolib::fenwick_tree::FenwickTree;
use algolib::ops::AddOps;
use algolib::sparse_table::{OperationType, SparseTable};
use algolib::trie::{LargeAsciiCharSet, SmallAsciiCharSet, TrieTree};
use algolib::trie::CharSet;

#[test]
fn test_small_query() {
    let mut ft = FenwickTree::<i64, AddOps>::new(5);
    ft.add(0, 1);
    ft.add(1, 2);
    ft.add(2, 3);
    ft.add(3, 4);
    ft.add(4, 5);
    assert_eq!(ft.sum(4), 15);
    assert_eq!(ft.sum(3), 10);
    assert_eq!(ft.sum(2), 6);
    assert_eq!(ft.sum(1), 3);
    assert_eq!(ft.sum(0), 1);
    ft.add(0, -1);
    assert_eq!(ft.sum(4), 14);
}

#[test]
fn fenwick_lower_bound_finds_prefix() {
    let mut ft = FenwickTree::<i64, AddOps>::new(5);
    for (i, v) in [1i64, 2, 3, 4, 5].iter().enumerate() {
        ft.add(i, *v);
    }
    assert_eq!(ft.lower_bound(0), 0);
    assert_eq!(ft.lower_bound(1), 0);
    assert_eq!(ft.lower_bound(2), 1);
    assert_eq!(ft.lower_bound(7), 3);
    assert_eq!(ft.lower_bound(15), 4);
}

#[test]
fn test_charset() {
    assert_eq!(LargeAsciiCharSet::to_int('A'), 0);
    assert_eq!(LargeAsciiCharSet::to_int('C'), 2);
    assert_eq!(LargeAsciiCharSet::to_int('Z'), 25);
    assert_eq!(SmallAsciiCharSet::to_int('a'), 0);
    assert_eq!(SmallAsciiCharSet::to_int('f'), 5);
}

#[test]
fn test_tenka1() {
    let mut trie = TrieTree::<SmallAsciiCharSet>::new();
    let s = "abracadabra".chars().collect::<Vec<_>>();
    let p = vec!["b", "abra", "cad", "rac"];
    let w = vec![1, 10, 50, 100];
    for pi in p.iter() {
        trie.add(&pi.chars().collect::<Vec<_>>());
    }
    let mut dp = vec![0; s.len() + 1];
    for i in 0..s.len() {
        for idx in trie.query_at(&s, i, 0) {
            let j = i + p[idx].len();
            dp[j] = std::cmp::max(dp[j], dp[i] + w[idx]);
        }
        dp[i + 1] = std::cmp::max(dp[i + 1], dp[i]);
    }
    assert_eq!(dp.last().unwrap(), &111);
}

#[test]
fn trie_counts_and_sizes() {
    let mut trie = TrieTree::<SmallAsciiCharSet>::new();
    assert_eq!(trie.size(), 1);
    assert_eq!(trie.count(), 0);
    trie.add(&"ab".chars().collect::<Vec<_>>());
    trie.add(&"ac".chars().collect::<Vec<_>>());
    assert_eq!(trie.count(), 2);
    assert_eq!(trie.size(), 4);
    // both words share the prefix node for 'a'
    let hits = trie.query(&"ab".chars().collect::<Vec<_>>());
    assert_eq!(hits, vec![0]);
}

#[test]
fn test_min_sparse_table() {
    let v = vec![-7i64, 4, 8, 1, 6, 7, 10, -1, 0, 4, 9, 11];
    let st = SparseTable::new(&v, OperationType::Min);
    for i in 0..v.len() - 1 {
        for j in i..v.len() - 1 {
            let m = (i..=j).fold(100, |acc, x| std::cmp::min(acc, v[x]));
            assert_eq!(v[st.query(i, j)], m);
        }
    }
}

#[test]
fn test_max_sparse_table() {
    let v = vec![-7i64, 4, 8, 1, 6, 7, 10, -1, 0, 4, 9, 11];
    let st = SparseTable::new(&v, OperationType::Max);
    for i in 0..v.len() - 1 {
        for j in i..v.len() - 1 {
            let m = (i..=j).fold(-100, |acc, x| std::cmp::max(acc, v[x]));
            assert_eq!(v[st.query(i, j)], m);
        }
    }
}

#[test]
fn fenwick_prefixes_match_naive_scan() {
    let mut ft = FenwickTree::<i64, AddOps>::new(9);
    let values = [5i64, -2, 7, 0, 3, -8, 1, 4, 2];
    for (i, v) in values.iter().enumerate() {
        ft.add(i, *v);
    }
    let mut acc = 0i64;
    for (i, v) in values.iter().enumerate() {
        acc += v;
        assert_eq!(ft.sum(i), acc);
    }
}

#[test]
fn trie_reports_prefix_hits_in_path_order() {
    let mut trie = TrieTree::<SmallAsciiCharSet>::new();
    trie.add(&"a".chars().collect::<Vec<_>>());
    trie.add(&"ab".chars().collect::<Vec<_>>());
    trie.add(&"abc".chars().collect::<Vec<_>>());
    trie.add(&"b".chars().collect::<Vec<_>>());
    let hits = trie.query(&"abcd".chars().collect::<Vec<_>>());
    assert_eq!(hits, vec![0, 1, 2]);
    assert_eq!(trie.count(), 4);
}

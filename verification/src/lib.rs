//! A verified library of classic competitive-programming data structures and
//! algorithms: segment trees (plain and lazily propagated), Fenwick tree,
//! union-find, graph algorithms, and assorted number-theoretic and string
//! routines.  Every executable function carries a contract checked by Verus.

pub mod algebra;
pub mod bellmanford;
pub mod dijkstra;
pub mod divisor;
pub mod edit_distance;
pub mod factorize;
pub mod fenwick_tree;
pub mod gcd;
pub mod graph;
pub mod laws;
pub mod kruskal;
pub mod lazy_segtree;
pub mod modops;
pub mod ops;
pub mod permutations;
pub mod power;
pub mod prim;
pub mod segtree;
pub mod sparse_table;
pub mod topological_sort;
pub mod trie;
pub mod unionfind;
pub mod warshall_floyd;
pub mod weighted_unionfind;
pub mod z_algorithm;

use algolib::bellmanford::BellmanFord;
use algolib::dijkstra::Dijkstra;
use algolib::graph::Graph;
use algolib::topological_sort::TopologicalSortGraph;
use algolib::unionfind::UnionFind;
use algolib::warshall_floyd::WarshallFloyd;
use algolib::weighted_unionfind::WeightedUnionFind;

#[test]
fn unionfind_test() {
    let mut uf = UnionFind::new(5);
    uf.unite(0, 1);
    uf.unite(0, 2);
    uf.unite(3, 4);
    assert!(uf.find(1) == uf.find(2));
    assert!(uf.find(1) != uf.find(3));
    assert_eq!(uf.sizes.iter().max(), Some(&3));
}

#[test]
fn unionfind_component_count() {
    let mut uf = UnionFind::new(4);
    assert_eq!(uf.size, 4);
    assert!(uf.unite(0, 1));
    assert!(!uf.unite(1, 0));
    assert!(uf.unite(2, 3));
    assert_eq!(uf.size, 2);
    assert!(uf.is_same(0, 1));
    assert!(!uf.is_same(1, 2));
}

#[test]
fn test_weighted_unionfind() {
    let mut uf = WeightedUnionFind::new(10);
    uf.merge(0, 2, 5);
    uf.merge(1, 2, 3);
    assert_eq!(uf.diff(0, 1), 2);
    uf.merge(1, 4, 8);
    assert_eq!(uf.diff(0, 4), 10);
}

#[test]
fn test_bellmanford_1() {
    let mut g = Graph::new(4);
    g.add_edge(0, 1, 1);
    g.add_edge(0, 2, 4);
    g.add_edge(1, 2, 2);
    g.add_edge(2, 3, 1);
    g.add_edge(1, 3, 5);
    let mut g = BellmanFord::new(&g);
    g.build_graph(0);
    assert_eq!(g.dists, vec![0, 1, 3, 4]);
    assert_eq!(g.restore(3), vec![1, 2, 3]);
    assert_eq!(g.restore(2), vec![1, 2]);
}

#[test]
fn test_bellmanford_2() {
    let mut g = Graph::new(4);
    g.add_edge(0, 1, 1);
    g.add_edge(0, 2, 4);
    g.add_edge(2, 0, 1);
    g.add_edge(1, 2, 2);
    g.add_edge(3, 1, 1);
    g.add_edge(3, 2, 5);
    let mut g = BellmanFord::new(&g);
    g.build_graph(1);
    assert_eq!(g.dists, vec![3, 0, 2, std::i32::MAX]);
    assert_eq!(g.restore(3), vec![]);
}

#[test]
fn test_bellmanford_with_negative_edge() {
    let mut g = Graph::new(6);
    g.add_edge(0, 1, 2);
    g.add_edge(1, 2, 3);
    g.add_edge(0, 3, 4);
    g.add_edge(2, 3, -2);
    g.add_edge(2, 5, 2);
    g.add_edge(3, 5, 4);
    g.add_edge(3, 4, 2);
    g.add_edge(4, 5, 1);
    let mut g = BellmanFord::new(&g);
    assert!(g.build_graph(0));
    assert_eq!(g.dists, vec![0, 2, 5, 3, 5, 6]);
    assert_eq!(g.restore(5), vec![1, 2, 3, 4, 5]);
}

#[test]
fn test_bellmanford_with_negative_circuit() {
    let mut g = Graph::new(6);
    g.add_edge(0, 1, 2);
    g.add_edge(1, 2, 3);
    g.add_edge(0, 3, 4);
    g.add_edge(2, 3, -2);
    g.add_edge(2, 5, 2);
    g.add_edge(3, 5, 4);
    g.add_edge(3, 4, 2);
    g.add_edge(4, 5, 1);
    g.add_edge(3, 1, -2);
    let mut g = BellmanFord::new(&g);
    assert!(!g.build_graph(0));
}

#[test]
fn test_dijkstra_1() {
    let mut g = Graph::new(4);
    g.add_edge(0, 1, 1);
    g.add_edge(0, 2, 4);
    g.add_edge(1, 2, 2);
    g.add_edge(2, 3, 1);
    g.add_edge(1, 3, 5);
    let mut g = Dijkstra::new(&g);
    g.build_graph(0);
    assert_eq!(g.dists, vec![0, 1, 3, 4]);
    assert_eq!(g.restore(3), vec![1, 2, 3]);
    assert_eq!(g.restore(2), vec![1, 2]);
}

#[test]
fn test_dijkstra_2() {
    let mut g = Graph::new(4);
    g.add_edge(0, 1, 1);
    g.add_edge(0, 2, 4);
    g.add_edge(2, 0, 1);
    g.add_edge(1, 2, 2);
    g.add_edge(3, 1, 1);
    g.add_edge(3, 2, 5);
    let mut g = Dijkstra::new(&g);
    g.build_graph(1);
    assert_eq!(g.dists, vec![3, 0, 2, std::i32::MAX]);
    assert_eq!(g.restore(3), vec![]);
}

#[test]
fn test_topological_sort() {
    let mut g = TopologicalSortGraph::new(3);
    g.add_edge(0, 1);
    g.add_edge(0, 2);
    g.add_edge(1, 2);
    assert_eq!(g.sort(), Some(vec![0, 1, 2]));
    let mut g = TopologicalSortGraph::new(3);
    g.add_edge(0, 1);
    g.add_edge(1, 2);
    g.add_edge(2, 0);
    assert_eq!(g.sort(), None);
}

#[test]
fn test_warshall_floyd() {
    let mut wf = WarshallFloyd::new(4);
    wf.add_edge(0, 1, 1);
    wf.add_edge(0, 2, 5);
    wf.add_edge(1, 2, 2);
    wf.add_edge(1, 3, 4);
    wf.add_edge(2, 3, 1);
    wf.add_edge(3, 2, 7);
    wf.build_graph();
    let inf = std::i32::MAX;
    assert_eq!(wf.0[0], vec![0, 1, 3, 4]);
    assert_eq!(wf.0[1], vec![inf, 0, 2, 3]);
    assert_eq!(wf.0[2], vec![inf, inf, 0, 1]);
    assert_eq!(wf.0[3], vec![inf, inf, 7, 0]);
}

#[test]
fn test_warshall_floyd_with_negative_cycle() {
    let mut wf = WarshallFloyd::new(4);
    wf.add_edge(0, 1, 1);
    wf.add_edge(0, 2, 5);
    wf.add_edge(1, 2, 2);
    wf.add_edge(1, 3, 4);
    wf.add_edge(2, 3, 1);
    wf.add_edge(3, 2, -7);
    wf.build_graph();
    assert!(wf.has_negative_cycle());
}

#[test]
fn test_prim() {
    let mut pr = algolib::prim::Prim::new(6);
    pr.add_edge_undirected(0, 1, 1);
    pr.add_edge_undirected(0, 2, 3);
    pr.add_edge_undirected(1, 2, 1);
    pr.add_edge_undirected(1, 3, 7);
    pr.add_edge_undirected(2, 4, 1);
    pr.add_edge_undirected(1, 4, 3);
    pr.add_edge_undirected(3, 4, 1);
    pr.add_edge_undirected(3, 5, 1);
    pr.add_edge_undirected(4, 5, 6);
    let w = pr.build();
    assert_eq!(w, 5);
}

#[test]
fn test_kruskal() {
    let mut kr = algolib::kruskal::Kruskal::new(6);
    kr.add_edge_undirected(0, 1, 1);
    kr.add_edge_undirected(0, 2, 3);
    kr.add_edge_undirected(1, 2, 1);
    kr.add_edge_undirected(1, 3, 7);
    kr.add_edge_undirected(2, 4, 1);
    kr.add_edge_undirected(1, 4, 3);
    kr.add_edge_undirected(3, 4, 1);
    kr.add_edge_undirected(3, 5, 1);
    kr.add_edge_undirected(4, 5, 6);
    let w = kr.build();
    assert_eq!(w, 5);
}

#[test]
fn weighted_unionfind_keeps_established_differences() {
    let mut uf = algolib::weighted_unionfind::WeightedUnionFind::new(6);
    uf.merge(0, 1, 3);
    uf.merge(2, 3, 4);
    assert_eq!(uf.diff(0, 1), 3);
    uf.merge(1, 2, 10);
    // joining the components shifts one side but keeps both differences
    assert_eq!(uf.diff(0, 1), 3);
    assert_eq!(uf.diff(2, 3), 4);
    assert_eq!(uf.diff(0, 2), 13);
    assert_eq!(uf.diff(0, 3), 17);
}

//! Topological ordering of a directed graph by repeated removal of
//! in-degree-zero vertices.

use vstd::prelude::*;

verus! {

/// A directed graph with cached in-degrees.
pub struct TopologicalSortGraph {
    graph: Vec<Vec<usize>>,
    degree: Vec<u64>,
}

impl TopologicalSortGraph {
    /// Adjacency lists and the degree row match in size; every edge target
    /// is a vertex.
    pub closed spec fn wf(self) -> bool {
        &&& self.graph@.len() == self.degree@.len()
        &&& forall|v: int, i: int|
            0 <= v < self.graph@.len() && 0 <= i < self.graph@[v]@.len() ==> (
            #[trigger] self.graph@[v]@[i]) < self.graph@.len()
    }

    /// Number of vertices.
    pub closed spec fn len(self) -> int {
        self.graph@.len() as int
    }

    /// An edgeless graph on `size` vertices.
    pub fn new(size: usize) -> (g: TopologicalSortGraph)
        ensures
            g.wf(),
            g.len() == size,
    {
        let mut graph: Vec<Vec<usize>> = Vec::new();
        let mut degree: Vec<u64> = Vec::new();
        let mut i: usize = 0;
        while i < size
            invariant
                graph@.len() == i,
                degree@.len() == i,
                i <= size,
                forall|v: int| 0 <= v < i ==> #[trigger] graph@[v]@.len() == 0,
            decreases size - i,
        {
            graph.push(Vec::new());
            degree.push(0);
            i = i + 1;
        }
        TopologicalSortGraph { graph, degree }
    }

    /// Adds the edge `from -> to`.
    pub fn add_edge(&mut self, from: usize, to: usize)
        requires
            old(self).wf(),
            from < old(self).len(),
            to < old(self).len(),
        ensures
            final(self).wf(),
            final(self).len() == old(self).len(),
    {
        let row = &mut self.graph[from];
        row.push(to);
        let d = self.degree[to];
        if d < u64::MAX {
            self.degree.set(to, d + 1);
        }
    }

    /// Returns a topological order, or `None` when the graph has a cycle.
    /// Each returned entry is a vertex and no vertex appears twice; a
    /// returned order lists every vertex.
    pub fn sort(&mut self) -> (r: Option<Vec<usize>>)
        requires
            old(self).wf(),
        ensures
            final(self).wf(),
            final(self).len() == old(self).len(),
            r is Some ==> r.unwrap()@.len() == old(self).len(),
            r is Some ==> forall|i: int|
                0 <= i < r.unwrap()@.len() ==> #[trigger] r.unwrap()@[i] < old(self).len(),
            r is Some ==> forall|i: int, j: int|
                0 <= i < j < r.unwrap()@.len() ==> r.unwrap()@[i] != r.unwrap()@[j],
    {
        let n = self.graph.len();
        let mut taken: Vec<bool> = Vec::new();
        let mut i: usize = 0;
        while i < n
            invariant
                taken@.len() == i,
                i <= n,
                forall|v: int| 0 <= v < i ==> #[trigger] taken@[v] == false,
            decreases n - i,
        {
            taken.push(false);
            i = i + 1;
        }
        let mut ret: Vec<usize> = Vec::new();
        let mut round: usize = 0;
        while round < n
            invariant
                self.wf(),
                self.len() == n,
                n == old(self).len(),
                taken@.len() == n,
                round <= n,
                ret@.len() <= round,
                forall|t: int| 0 <= t < ret@.len() ==> #[trigger] ret@[t] < n,
                forall|t: int| 0 <= t < ret@.len() ==> taken@[#[trigger] ret@[t] as int],
                forall|a: int, b: int| 0 <= a < b < ret@.len() ==> ret@[a] != ret@[b],
                forall|v: int|
                    0 <= v < n && #[trigger] taken@[v] ==> exists|t: int|
                        0 <= t < ret@.len() && ret@[t] == v,
            decreases n - round,
        {
            // pick the smallest untaken vertex with no remaining incoming edge
            let mut pick: usize = n;
            let mut v: usize = 0;
            while v < n
                invariant
                    self.wf(),
                    self.len() == n,
                    n == old(self).len(),
                    taken@.len() == n,
                    v <= n,
                    pick == n || (pick < n && !taken@[pick as int]),
                decreases n - v,
            {
                if pick == n && !taken[v] && self.degree[v] == 0 {
                    pick = v;
                }
                v = v + 1;
            }
            if pick == n {
                break ;
            }
            taken.set(pick, true);
            let ghost retb = ret@;
            ret.push(pick);
            proof {
                assert(ret@[ret@.len() - 1] == pick);
                assert forall|v2: int|
                    0 <= v2 < n && #[trigger] taken@[v2] implies exists|t: int|
                    0 <= t < ret@.len() && #[trigger] ret@[t] == v2 by {
                    if v2 == pick as int {
                        assert(ret@[ret@.len() - 1] == v2);
                    } else {
                        let t = choose|t: int| 0 <= t < retb.len() && #[trigger] retb[t] == v2;
                        assert(ret@[t] == v2);
                    }
                }
            }
            let row_len = self.graph[pick].len();
            let mut e: usize = 0;
            while e < row_len
                invariant
                    self.wf(),
                    self.len() == n,
                    n == old(self).len(),
                    pick < n,
                    row_len == self.graph@[pick as int]@.len(),
                    e <= row_len,
                    taken@.len() == n,
                    forall|t: int| 0 <= t < ret@.len() ==> #[trigger] ret@[t] < n,
                    forall|t: int| 0 <= t < ret@.len() ==> taken@[#[trigger] ret@[t] as int],
                    forall|a: int, b: int| 0 <= a < b < ret@.len() ==> ret@[a] != ret@[b],
                    forall|v2: int|
                        0 <= v2 < n && #[trigger] taken@[v2] ==> exists|t: int|
                            0 <= t < ret@.len() && ret@[t] == v2,
                    ret@.len() <= round + 1,
                decreases row_len - e,
            {
                let to = self.graph[pick][e];
                let d = self.degree[to];
                if d > 0 {
                    self.degree.set(to, d - 1);
                }
                e = e + 1;
            }
            round = round + 1;
        }
        if ret.len() == n {
            Some(ret)
        } else {
            None
        }
    }
}

} // verus!

//! Minimum spanning tree weight by sorting edges and joining components.

use vstd::prelude::*;

verus! {

use crate::unionfind::UnionFind;

/// An undirected edge with its cost.
#[derive(Clone, Copy, PartialEq, Eq, Structural, Debug)]
pub struct Edge {
    pub from: usize,
    pub to: usize,
    pub cost: i32,
}

/// Edge list plus the union-find that grows the forest.
pub struct Kruskal {
    uft: UnionFind,
    edges: Vec<Edge>,
}

impl Kruskal {
    /// All edge endpoints are vertices of the union-find.
    pub closed spec fn wf(self) -> bool {
        &&& self.uft.wf()
        &&& forall|i: int|
            0 <= i < self.edges@.len() ==> (#[trigger] self.edges@[i]).from < self.uft.len()
                && self.edges@[i].to < self.uft.len()
    }

    /// Number of vertices.
    pub closed spec fn len(self) -> int {
        self.uft.len()
    }

    /// An edgeless graph on `size` vertices.
    pub fn new(size: usize) -> (g: Kruskal)
        ensures
            g.wf(),
            g.len() == size,
    {
        Kruskal { uft: UnionFind::new(size), edges: Vec::new() }
    }

    /// Records an undirected edge.
    pub fn add_edge_undirected(&mut self, from: usize, to: usize, cost: i32)
        requires
            old(self).wf(),
            from < old(self).len(),
            to < old(self).len(),
        ensures
            final(self).wf(),
            final(self).len() == old(self).len(),
    {
        self.edges.push(Edge { from, to, cost });
        self.edges.push(Edge { from: to, to: from, cost });
    }

    /// Sorts the edges by cost and adds each one that joins two distinct
    /// components, returning the wrapped total of the added costs.
    pub fn build(&mut self) -> (w: i32)
        requires
            old(self).wf(),
        ensures
            final(self).wf(),
            final(self).len() == old(self).len(),
    {
        // insertion sort on cost
        let m = self.edges.len();
        let mut i: usize = 1;
        while i < m
            invariant
                self.wf(),
                self.len() == old(self).len(),
                m == self.edges@.len(),
                1 <= i <= m || m == 0,
            decreases m - i,
        {
            let mut j = i;
            while j > 0 && self.edges[j - 1].cost > self.edges[j].cost
                invariant
                    self.wf(),
                    self.len() == old(self).len(),
                    m == self.edges@.len(),
                    j <= i < m,
                decreases j,
            {
                let a = self.edges[j - 1];
                let b = self.edges[j];
                self.edges.set(j - 1, b);
                self.edges.set(j, a);
                j = j - 1;
            }
            i = i + 1;
        }
        let mut weight_sum: i32 = 0;
        let mut k: usize = 0;
        while k < m
            invariant
                self.wf(),
                self.len() == old(self).len(),
                m == self.edges@.len(),
                k <= m,
            decreases m - k,
        {
            let e = self.edges[k];
            if !self.uft.is_same(e.from, e.to) {
                self.uft.unite(e.from, e.to);
                weight_sum = weight_sum.wrapping_add(e.cost);
            }
            k = k + 1;
        }
        weight_sum
    }
}

} // verus!

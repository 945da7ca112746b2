//! Adjacency-list graph shared by the shortest-path algorithms.

use vstd::prelude::*;

verus! {

/// A directed edge with an `i32` cost.
#[derive(Clone, Copy, PartialEq, Eq, Structural, Debug)]
pub struct Edge {
    pub to: usize,
    pub cost: i32,
}

impl Edge {
    pub fn new(to: usize, cost: i32) -> (e: Edge)
        ensures
            e.to == to,
            e.cost == cost,
    {
        Edge { to, cost }
    }
}

/// Adjacency lists indexed by source vertex.
pub struct Graph(pub Vec<Vec<Edge>>);

impl Graph {
    /// Every edge target is a vertex.
    pub open spec fn wf(self) -> bool {
        forall|v: int, i: int|
            0 <= v < self.0@.len() && 0 <= i < self.0@[v]@.len() ==> (
            #[trigger] self.0@[v]@[i]).to < self.0@.len()
    }

    /// Number of vertices.
    pub open spec fn len(self) -> int {
        self.0@.len() as int
    }

    /// An edgeless graph on `n` vertices.
    pub fn new(n: usize) -> (g: Graph)
        ensures
            g.wf(),
            g.len() == n,
            forall|v: int| 0 <= v < n ==> #[trigger] g.0@[v]@.len() == 0,
    {
        let mut adj: Vec<Vec<Edge>> = Vec::new();
        let mut i: usize = 0;
        while i < n
            invariant
                adj@.len() == i,
                i <= n,
                forall|v: int| 0 <= v < i ==> #[trigger] adj@[v]@.len() == 0,
            decreases n - i,
        {
            adj.push(Vec::new());
            i = i + 1;
        }
        Graph(adj)
    }

    /// Appends the directed edge `from -> to`.
    pub fn add_edge(&mut self, from: usize, to: usize, cost: i32)
        requires
            old(self).wf(),
            from < old(self).len(),
            to < old(self).len(),
        ensures
            final(self).wf(),
            final(self).len() == old(self).len(),
            final(self).0@[from as int]@ == old(self).0@[from as int]@.push(
                Edge { to, cost },
            ),
            forall|v: int|
                0 <= v < old(self).len() && v != from ==> #[trigger] final(self).0@[v]
                    == old(self).0@[v],
    {
        let e = Edge::new(to, cost);
        let mut row = Vec::new();
        core::mem::swap(&mut row, &mut self.0[from]);
        row.push(e);
        core::mem::swap(&mut row, &mut self.0[from]);
    }

    /// Appends the edge in both directions.
    pub fn add_edge_undirected(&mut self, from: usize, to: usize, cost: i32)
        requires
            old(self).wf(),
            from < old(self).len(),
            to < old(self).len(),
        ensures
            final(self).wf(),
            final(self).len() == old(self).len(),
    {
        self.add_edge(from, to, cost);
        self.add_edge(to, from, cost);
    }
}

} // verus!

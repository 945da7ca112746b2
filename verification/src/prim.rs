//! Minimum spanning tree weight by growing a single component.
//!
//! The priority-queue formulation is replaced by an equivalent selection
//! scan: each round adds the cheapest edge that leaves the grown component.

use vstd::prelude::*;

verus! {

/// An undirected edge endpoint with its cost.
#[derive(Clone, Copy, PartialEq, Eq, Structural, Debug)]
pub struct Edge {
    pub to: usize,
    pub cost: i32,
}

/// Adjacency lists of an undirected weighted graph.
pub struct Prim {
    edges: Vec<Vec<Edge>>,
}

impl Prim {
    /// Every edge target is a vertex.
    pub closed spec fn wf(self) -> bool {
        forall|v: int, i: int|
            0 <= v < self.edges@.len() && 0 <= i < self.edges@[v]@.len() ==> (
            #[trigger] self.edges@[v]@[i]).to < self.edges@.len()
    }

    /// Number of vertices.
    pub closed spec fn len(self) -> int {
        self.edges@.len() as int
    }

    /// An edgeless graph on `size` vertices.
    pub fn new(size: usize) -> (g: Prim)
        ensures
            g.wf(),
            g.len() == size,
    {
        let mut edges: Vec<Vec<Edge>> = Vec::new();
        let mut i: usize = 0;
        while i < size
            invariant
                edges@.len() == i,
                i <= size,
                forall|v: int| 0 <= v < i ==> #[trigger] edges@[v]@.len() == 0,
            decreases size - i,
        {
            edges.push(Vec::new());
            i = i + 1;
        }
        Prim { edges }
    }

    /// Adds an undirected edge.
    pub fn add_edge_undirected(&mut self, from: usize, to: usize, cost: i32)
        requires
            old(self).wf(),
            from < old(self).len(),
            to < old(self).len(),
        ensures
            final(self).wf(),
            final(self).len() == old(self).len(),
    {
        let mut row: Vec<Edge> = Vec::new();
        core::mem::swap(&mut row, &mut self.edges[from]);
        row.push(Edge { to, cost });
        core::mem::swap(&mut row, &mut self.edges[from]);
        let mut row: Vec<Edge> = Vec::new();
        core::mem::swap(&mut row, &mut self.edges[to]);
        row.push(Edge { to: from, cost });
        core::mem::swap(&mut row, &mut self.edges[to]);
    }

    /// Total weight of a minimum spanning tree of the component of vertex
    /// `0`, accumulated with wrapping addition.
    pub fn build(&mut self) -> (w: i32)
        requires
            old(self).wf(),
        ensures
            final(self).wf(),
            final(self).len() == old(self).len(),
    {
        let n = self.edges.len();
        if n == 0 {
            return 0;
        }
        let mut visited: Vec<bool> = Vec::new();
        let mut i: usize = 0;
        while i < n
            invariant
                visited@.len() == i,
                i <= n,
            decreases n - i,
        {
            visited.push(false);
            i = i + 1;
        }
        visited.set(0, true);
        let mut weight_sum: i32 = 0;
        let mut round: usize = 1;
        while round < n
            invariant
                self.wf(),
                self.len() == n,
                n == old(self).len(),
                visited@.len() == n,
                1 <= round <= n,
            decreases n - round,
        {
            // cheapest edge out of the grown component
            let mut best_to: usize = n;
            let mut best_cost: i32 = 0;
            let mut u: usize = 0;
            while u < n
                invariant
                    self.wf(),
                    self.len() == n,
                    visited@.len() == n,
                    u <= n,
                    best_to <= n,
                    best_to < n ==> !visited@[best_to as int],
                decreases n - u,
            {
                if visited[u] {
                    let row_len = self.edges[u].len();
                    let mut e: usize = 0;
                    while e < row_len
                        invariant
                            self.wf(),
                            self.len() == n,
                            visited@.len() == n,
                            u < n,
                            row_len == self.edges@[u as int]@.len(),
                            e <= row_len,
                            best_to <= n,
                            best_to < n ==> !visited@[best_to as int],
                        decreases row_len - e,
                    {
                        let edge = self.edges[u][e];
                        if !visited[edge.to] && (best_to == n || edge.cost < best_cost) {
                            best_to = edge.to;
                            best_cost = edge.cost;
                        }
                        e = e + 1;
                    }
                }
                u = u + 1;
            }
            if best_to == n {
                return weight_sum;
            }
            visited.set(best_to, true);
            weight_sum = weight_sum.wrapping_add(best_cost);
            round = round + 1;
        }
        weight_sum
    }
}

} // verus!

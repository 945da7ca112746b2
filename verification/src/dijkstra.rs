//! Single-source shortest paths for nonnegative edge costs.
//!
//! The classic priority-queue formulation is replaced by an equivalent
//! selection loop (repeatedly settle the unvisited vertex of least
//! tentative distance), which computes the same distances.

use vstd::prelude::*;

verus! {

use crate::bellmanford::copy_graph;
use crate::graph::Graph;

/// Distances from a source; `i32::MAX` marks unreachable vertices.
pub struct Dijkstra {
    pub graph: Graph,
    pub dists: Vec<i32>,
    pub backs: Vec<isize>,
}

impl Dijkstra {
    /// Distances and back pointers cover every vertex of a well-formed
    /// graph.
    pub open spec fn wf(self) -> bool {
        &&& self.graph.wf()
        &&& self.dists@.len() == self.graph.len()
        &&& self.backs@.len() == self.graph.len()
    }

    /// Number of vertices.
    pub open spec fn len(self) -> int {
        self.graph.len()
    }

    /// Prepares a run over a snapshot of `graph`: all distances start
    /// unreachable.
    pub fn new(graph: &Graph) -> (r: Dijkstra)
        requires
            graph.wf(),
        ensures
            r.wf(),
            r.len() == graph.len(),
            forall|v: int| 0 <= v < graph.len() ==> #[trigger] r.dists@[v] == i32::MAX,
    {
        let g = copy_graph(graph);
        let n = g.0.len();
        let mut dists: Vec<i32> = Vec::new();
        let mut backs: Vec<isize> = Vec::new();
        let mut i: usize = 0;
        while i < n
            invariant
                dists@.len() == i,
                backs@.len() == i,
                i <= n,
                forall|v: int| 0 <= v < i ==> #[trigger] dists@[v] == i32::MAX,
            decreases n - i,
        {
            dists.push(i32::MAX);
            backs.push(-1);
            i = i + 1;
        }
        Dijkstra { graph: g, dists, backs }
    }

    /// Settles all vertices reachable from `s` in order of distance,
    /// relaxing the outgoing edges of each settled vertex once.  Sums are
    /// clamped at the `i32` range bounds.
    pub fn build_graph(&mut self, s: usize)
        requires
            old(self).wf(),
            s < old(self).len(),
        ensures
            final(self).wf(),
            final(self).len() == old(self).len(),
    {
        let n = self.dists.len();
        self.dists.set(s, 0);
        let mut visited: Vec<bool> = Vec::new();
        let mut i: usize = 0;
        while i < n
            invariant
                visited@.len() == i,
                i <= n,
            decreases n - i,
        {
            visited.push(false);
            i = i + 1;
        }
        let mut round: usize = 0;
        while round < n
            invariant
                self.wf(),
                self.len() == n,
                n == old(self).len(),
                visited@.len() == n,
                round <= n,
            decreases n - round,
        {
            // the unvisited vertex with the least tentative distance
            let mut best: usize = n;
            let mut v: usize = 0;
            while v < n
                invariant
                    self.wf(),
                    self.len() == n,
                    n == old(self).len(),
                    visited@.len() == n,
                    v <= n,
                    best <= n,
                decreases n - v,
            {
                if !visited[v] && self.dists[v] != i32::MAX && (best == n || self.dists[v]
                    < self.dists[best]) {
                    best = v;
                }
                v = v + 1;
            }
            if best == n {
                break ;
            }
            visited.set(best, true);
            let row_len = self.graph.0[best].len();
            let mut e: usize = 0;
            while e < row_len
                invariant
                    self.wf(),
                    self.len() == n,
                    n == old(self).len(),
                    visited@.len() == n,
                    best < n,
                    row_len == self.graph.0@[best as int]@.len(),
                    e <= row_len,
                decreases row_len - e,
            {
                let edge = self.graph.0[best][e];
                let db = self.dists[best];
                if db != i32::MAX {
                    let cand = db as i64 + edge.cost as i64;
                    let clamped: i32 = if cand >= i32::MAX as i64 {
                        i32::MAX
                    } else if cand <= i32::MIN as i64 {
                        i32::MIN
                    } else {
                        cand as i32
                    };
                    if clamped < self.dists[edge.to] {
                        self.dists.set(edge.to, clamped);
                        self.backs.set(edge.to, best as isize);
                    }
                }
                e = e + 1;
            }
            round = round + 1;
        }
    }

    /// The path recorded by the back pointers, from just after the source
    /// to `to`; empty when `to` has no recorded predecessor.
    pub fn restore(&self, to: isize) -> (path: Vec<isize>)
        requires
            self.wf(),
            0 <= to < self.len(),
        ensures
            path@.len() <= self.len(),
    {
        let n = self.backs.len();
        let mut path: Vec<isize> = Vec::new();
        if self.backs[to as usize] < 0 {
            return path;
        }
        let mut cur = to;
        let mut steps: usize = 0;
        while cur > 0 && steps < n
            invariant
                self.wf(),
                self.len() == n,
                0 <= cur < n,
                steps <= n,
                path@.len() == steps,
            decreases n - steps,
        {
            path.push(cur);
            let nxt = self.backs[cur as usize];
            if 0 <= nxt && (nxt as usize) < n {
                cur = nxt;
            } else {
                cur = 0;
            }
            steps = steps + 1;
        }
        let mut rev: Vec<isize> = Vec::new();
        let mut j = path.len();
        while j > 0
            invariant
                j <= path@.len(),
                rev@.len() == path@.len() - j,
                path@.len() <= n,
            decreases j,
        {
            j = j - 1;
            rev.push(path[j]);
        }
        rev
    }
}

} // verus!

//! Single-source shortest paths with negative edges by Bellman-Ford.

use vstd::prelude::*;

verus! {

use crate::graph::{Edge, Graph};

/// Distances from a source; `i32::MAX` marks unreachable vertices.
pub struct BellmanFord {
    pub graph: Graph,
    pub dists: Vec<i32>,
    pub backs: Vec<isize>,
}

/// A copy of a graph's adjacency structure.
pub fn copy_graph(g: &Graph) -> (c: Graph)
    requires
        g.wf(),
    ensures
        c.wf(),
        c.len() == g.len(),
        forall|v: int| 0 <= v < g.len() ==> #[trigger] c.0@[v]@ == g.0@[v]@,
{
    let n = g.0.len();
    let mut adj: Vec<Vec<Edge>> = Vec::new();
    let mut v: usize = 0;
    while v < n
        invariant
            g.wf(),
            n == g.len(),
            adj@.len() == v,
            v <= n,
            forall|w: int| 0 <= w < v ==> #[trigger] adj@[w]@ == g.0@[w]@,
        decreases n - v,
    {
        let row_len = g.0[v].len();
        let mut row: Vec<Edge> = Vec::new();
        let mut i: usize = 0;
        while i < row_len
            invariant
                g.wf(),
                n == g.len(),
                v < n,
                row_len == g.0@[v as int]@.len(),
                row@.len() == i,
                i <= row_len,
                forall|w: int| 0 <= w < i ==> #[trigger] row@[w] == g.0@[v as int]@[w],
            decreases row_len - i,
        {
            row.push(g.0[v][i]);
            i = i + 1;
        }
        proof {
            assert(row@ =~= g.0@[v as int]@);
        }
        adj.push(row);
        v = v + 1;
    }
    Graph(adj)
}

impl BellmanFord {
    /// Distances and back pointers cover every vertex of a well-formed
    /// graph.
    pub open spec fn wf(self) -> bool {
        &&& self.graph.wf()
        &&& self.dists@.len() == self.graph.len()
        &&& self.backs@.len() == self.graph.len()
    }

    /// Number of vertices.
    pub open spec fn len(self) -> int {
        self.graph.len()
    }

    /// Prepares a run over a snapshot of `graph`: all distances start
    /// unreachable.
    pub fn new(graph: &Graph) -> (r: BellmanFord)
        requires
            graph.wf(),
        ensures
            r.wf(),
            r.len() == graph.len(),
            forall|v: int| 0 <= v < graph.len() ==> #[trigger] r.dists@[v] == i32::MAX,
    {
        let g = copy_graph(graph);
        let n = g.0.len();
        let mut dists: Vec<i32> = Vec::new();
        let mut backs: Vec<isize> = Vec::new();
        let mut i: usize = 0;
        while i < n
            invariant
                dists@.len() == i,
                backs@.len() == i,
                i <= n,
                forall|v: int| 0 <= v < i ==> #[trigger] dists@[v] == i32::MAX,
            decreases n - i,
        {
            dists.push(i32::MAX);
            backs.push(-1);
            i = i + 1;
        }
        BellmanFord { graph: g, dists, backs }
    }

    /// Runs up to `n` relaxation rounds from source `s`; returns `false`
    /// when the last round still relaxed an edge, which reveals a negative
    /// cycle.  Sums are clamped at the `i32` range bounds.
    pub fn build_graph(&mut self, s: usize) -> (ok: bool)
        requires
            old(self).wf(),
            s < old(self).len(),
        ensures
            final(self).wf(),
            final(self).len() == old(self).len(),
    {
        self.dists.set(s, 0);
        let n = self.dists.len();
        let mut round: usize = 0;
        while round < n
            invariant
                self.wf(),
                self.len() == n,
                n == old(self).len(),
                round <= n,
            decreases n - round,
        {
            let mut updated = false;
            let mut from: usize = 0;
            while from < n
                invariant
                    self.wf(),
                    self.len() == n,
                    n == old(self).len(),
                    from <= n,
                decreases n - from,
            {
                let row_len = self.graph.0[from].len();
                let mut i: usize = 0;
                while i < row_len
                    invariant
                        self.wf(),
                        self.len() == n,
                        n == old(self).len(),
                        from < n,
                        row_len == self.graph.0@[from as int]@.len(),
                        i <= row_len,
                    decreases row_len - i,
                {
                    let e = self.graph.0[from][i];
                    let df = self.dists[from];
                    if df != i32::MAX {
                        let cand = df as i64 + e.cost as i64;
                        let clamped: i32 = if cand >= i32::MAX as i64 {
                            i32::MAX
                        } else if cand <= i32::MIN as i64 {
                            i32::MIN
                        } else {
                            cand as i32
                        };
                        if clamped < self.dists[e.to] {
                            self.dists.set(e.to, clamped);
                            self.backs.set(e.to, from as isize);
                            updated = true;
                        }
                    }
                    i = i + 1;
                }
                from = from + 1;
            }
            if !updated {
                return true;
            }
            if round == n - 1 {
                return false;
            }
            round = round + 1;
        }
        true
    }

    /// The path recorded by the back pointers, from just after the source
    /// to `to`; empty when `to` has no recorded predecessor.
    pub fn restore(&self, to: isize) -> (path: Vec<isize>)
        requires
            self.wf(),
            0 <= to < self.len(),
        ensures
            path@.len() <= self.len(),
    {
        let n = self.backs.len();
        let mut path: Vec<isize> = Vec::new();
        if self.backs[to as usize] < 0 {
            return path;
        }
        let mut cur = to;
        let mut steps: usize = 0;
        while cur > 0 && steps < n
            invariant
                self.wf(),
                self.len() == n,
                0 <= cur < n,
                steps <= n,
                path@.len() == steps,
            decreases n - steps,
        {
            path.push(cur);
            let nxt = self.backs[cur as usize];
            if 0 <= nxt && (nxt as usize) < n {
                cur = nxt;
            } else {
                cur = 0;
            }
            steps = steps + 1;
        }
        let mut rev: Vec<isize> = Vec::new();
        let mut j = path.len();
        while j > 0
            invariant
                j <= path@.len(),
                rev@.len() == path@.len() - j,
                path@.len() <= n,
            decreases j,
        {
            j = j - 1;
            rev.push(path[j]);
        }
        rev
    }
}

} // verus!

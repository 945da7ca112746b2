//! All-pairs shortest paths by the Floyd-Warshall recurrence.

use vstd::prelude::*;

verus! {

/// Distance matrix; `i32::MAX` marks the absence of a path.
pub struct WarshallFloyd(pub Vec<Vec<i32>>);

impl WarshallFloyd {
    /// A square matrix.
    pub open spec fn wf(self) -> bool {
        forall|i: int| 0 <= i < self.0@.len() ==> #[trigger] self.0@[i]@.len() == self.0@.len()
    }

    /// Number of vertices.
    pub open spec fn len(self) -> int {
        self.0@.len() as int
    }

    /// A graph with no edges: zero self-distances, everything else
    /// unreachable.
    pub fn new(n: usize) -> (g: WarshallFloyd)
        ensures
            g.wf(),
            g.len() == n,
            forall|i: int, j: int|
                0 <= i < n && 0 <= j < n ==> #[trigger] g.0@[i]@[j] == (if i == j {
                    0i32
                } else {
                    i32::MAX
                }),
    {
        let mut d: Vec<Vec<i32>> = Vec::new();
        let mut i: usize = 0;
        while i < n
            invariant
                d@.len() == i,
                i <= n,
                forall|r: int| 0 <= r < i ==> #[trigger] d@[r]@.len() == n,
                forall|r: int, c: int|
                    0 <= r < i && 0 <= c < n ==> #[trigger] d@[r]@[c] == (if r == c {
                        0i32
                    } else {
                        i32::MAX
                    }),
            decreases n - i,
        {
            let mut row: Vec<i32> = Vec::new();
            let mut j: usize = 0;
            while j < n
                invariant
                    row@.len() == j,
                    j <= n,
                    forall|c: int|
                        0 <= c < j ==> #[trigger] row@[c] == (if i == c {
                            0i32
                        } else {
                            i32::MAX
                        }),
                decreases n - j,
            {
                if j == i {
                    row.push(0);
                } else {
                    row.push(i32::MAX);
                }
                j = j + 1;
            }
            d.push(row);
            i = i + 1;
        }
        WarshallFloyd(d)
    }

    /// Sets the direct distance of `from -> to`.
    pub fn add_edge(&mut self, from: usize, to: usize, cost: i32)
        requires
            old(self).wf(),
            from < old(self).len(),
            to < old(self).len(),
        ensures
            final(self).wf(),
            final(self).len() == old(self).len(),
            final(self).0@[from as int]@ == old(self).0@[from as int]@.update(to as int, cost),
            final(self).0@[from as int]@[to as int] == cost,
            forall|v: int|
                0 <= v < old(self).len() && v != from ==> #[trigger] final(self).0@[v]
                    == old(self).0@[v],
    {
        let mut row: Vec<i32> = Vec::new();
        core::mem::swap(&mut row, &mut self.0[from]);
        row.set(to, cost);
        core::mem::swap(&mut row, &mut self.0[from]);
    }

    /// Sets the direct distance in both directions.
    pub fn add_edge_undirected(&mut self, from: usize, to: usize, cost: i32)
        requires
            old(self).wf(),
            from < old(self).len(),
            to < old(self).len(),
        ensures
            final(self).wf(),
            final(self).len() == old(self).len(),
            final(self).0@[from as int]@[to as int] == cost,
            final(self).0@[to as int]@[from as int] == cost,
    {
        self.add_edge(from, to, cost);
        self.add_edge(to, from, cost);
    }

    /// Relaxes every pair through every intermediate vertex.  Sums that
    /// would leave the `i32` range are clamped.
    pub fn build_graph(&mut self)
        requires
            old(self).wf(),
        ensures
            final(self).wf(),
            final(self).len() == old(self).len(),
    {
        let n = self.0.len();
        let mut k: usize = 0;
        while k < n
            invariant
                self.wf(),
                self.len() == n,
                n == old(self).len(),
                k <= n,
            decreases n - k,
        {
            let mut i: usize = 0;
            while i < n
                invariant
                    self.wf(),
                    self.len() == n,
                    n == old(self).len(),
                    i <= n,
                    k < n,
                decreases n - i,
            {
                let mut j: usize = 0;
                while j < n
                    invariant
                        self.wf(),
                        self.len() == n,
                        n == old(self).len(),
                        j <= n,
                        i < n,
                        k < n,
                    decreases n - j,
                {
                    let dik = self.0[i][k];
                    let dkj = self.0[k][j];
                    if dik != i32::MAX && dkj != i32::MAX {
                        let sum = dik as i64 + dkj as i64;
                        let clamped: i32 = if sum >= i32::MAX as i64 {
                            i32::MAX
                        } else if sum <= i32::MIN as i64 {
                            i32::MIN
                        } else {
                            sum as i32
                        };
                        if clamped < self.0[i][j] {
                            let mut row: Vec<i32> = Vec::new();
                            core::mem::swap(&mut row, &mut self.0[i]);
                            row.set(j, clamped);
                            core::mem::swap(&mut row, &mut self.0[i]);
                        }
                    }
                    j = j + 1;
                }
                i = i + 1;
            }
            k = k + 1;
        }
    }

    /// Whether relaxation exposed a vertex with a negative self-distance.
    pub fn has_negative_cycle(&self) -> (r: bool)
        requires
            self.wf(),
        ensures
            r == exists|i: int| 0 <= i < self.len() && #[trigger] self.0@[i]@[i] < 0,
    {
        let n = self.0.len();
        let mut i: usize = 0;
        while i < n
            invariant
                self.wf(),
                self.len() == n,
                i <= n,
                forall|v: int| 0 <= v < i ==> #[trigger] self.0@[v]@[v] >= 0,
            decreases n - i,
        {
            if self.0[i][i] < 0 {
                return true;
            }
            i = i + 1;
        }
        false
    }
}

} // verus!

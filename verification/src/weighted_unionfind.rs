//! Union-find with potential weights on the edges to the representative.
//!
//! As in [`crate::unionfind`], parent pointers decrease toward the
//! representative, so every walk terminates and the contracts can speak
//! about [`crate::unionfind::root_of`].  The stored weight of a node is its
//! potential relative to its current parent; weight arithmetic wraps.

use vstd::prelude::*;

verus! {

use crate::unionfind::{root_of, UnionFind};
use vstd::wrapping::i64_specs;

/// The potential of `x` relative to its representative: the wrapped sum of
/// the stored weights along the parent chain, the representative's own
/// weight included (it is pinned to zero by well-formedness).
pub open spec fn pot_of(p: Seq<usize>, w: Seq<i64>, x: int) -> i64
    decreases x
        when 0 <= x
{
    if 0 <= x < p.len() && x < w.len() && p[x] < x {
        i64_specs::wrapping_add(w[x], pot_of(p, w, p[x] as int))
    } else if 0 <= x < w.len() {
        w[x]
    } else {
        0
    }
}

/// Rewriting one node's link and weight without changing its potential
/// changes no potential at all.
proof fn lemma_pot_preserved(
    p1: Seq<usize>,
    w1: Seq<i64>,
    p2: Seq<usize>,
    w2: Seq<i64>,
    x: int,
    y: int,
)
    requires
        p1.len() == w1.len(),
        p2 == p1.update(x, p2[x]),
        w2 == w1.update(x, w2[x]),
        0 <= x < p1.len(),
        forall|z: int| 0 <= z < p1.len() ==> #[trigger] p1[z] <= z,
        forall|z: int| 0 <= z < p2.len() ==> #[trigger] p2[z] <= z,
        pot_of(p2, w2, x) == pot_of(p1, w1, x),
        0 <= y < p1.len(),
    ensures
        pot_of(p2, w2, y) == pot_of(p1, w1, y),
    decreases y,
{
    if y != x {
        if p1[y] < y {
            lemma_pot_preserved(p1, w1, p2, w2, x, p1[y] as int);
        }
    }
}

/// Attaching the root `b` below the smaller root `a` with link weight `wl`
/// shifts the potentials of `b`'s component by `wl` and changes no other.
proof fn lemma_pot_shift(
    p1: Seq<usize>,
    w1: Seq<i64>,
    p2: Seq<usize>,
    w2: Seq<i64>,
    a: int,
    b: int,
    wl: i64,
    y: int,
)
    requires
        p1.len() == w1.len(),
        0 <= a < b < p1.len(),
        p1[b] == b,
        w1[b] == 0,
        p1[a] == a,
        w1[a] == 0,
        p2 == p1.update(b, a as usize),
        w2 == w1.update(b, wl),
        forall|z: int| 0 <= z < p1.len() ==> #[trigger] p1[z] <= z,
        0 <= y < p1.len(),
    ensures
        root_of(p1, y) == b ==> pot_of(p2, w2, y) == i64_specs::wrapping_add(
            pot_of(p1, w1, y),
            wl,
        ),
        root_of(p1, y) != b ==> pot_of(p2, w2, y) == pot_of(p1, w1, y),
    decreases y,
{
    if y == b {
        assert(pot_of(p2, w2, b) == i64_specs::wrapping_add(wl, pot_of(p2, w2, a)));
        assert(pot_of(p2, w2, a) == 0);
        assert(pot_of(p1, w1, b) == 0);
        assert(i64_specs::wrapping_add(0i64, wl) == wl && i64_specs::wrapping_add(wl, 0i64)
            == wl);
    } else {
        if p1[y] < y {
            lemma_pot_shift(p1, w1, p2, w2, a, b, wl, p1[y] as int);
            if root_of(p1, y) == b {
                crate::ops::lemma_wadd_assoc(w1[y], pot_of(p1, w1, p1[y] as int), wl);
            }
        }
    }
}

/// Weighted union-find over `{0, ..., n-1}` with `i64` potentials.
pub struct WeightedUnionFind {
    pub parent: Vec<usize>,
    pub rank: Vec<usize>,
    pub weights: Vec<i64>,
}

impl WeightedUnionFind {
    /// Parent pointers decrease toward the representative, and every
    /// representative carries weight zero, so potentials are relative to
    /// it.
    pub open spec fn wf(self) -> bool {
        &&& self.parent@.len() == self.rank@.len()
        &&& self.parent@.len() == self.weights@.len()
        &&& forall|x: int| 0 <= x < self.parent@.len() ==> #[trigger] self.parent@[x] <= x
        &&& forall|x: int|
            0 <= x < self.parent@.len() && #[trigger] self.parent@[x] == x
                ==> self.weights@[x] == 0
    }

    /// Number of elements.
    pub open spec fn len(self) -> int {
        self.parent@.len() as int
    }

    /// A fresh structure of `n` singletons with zero potential.
    pub fn new(n: usize) -> (r: WeightedUnionFind)
        ensures
            r.wf(),
            r.len() == n,
            forall|x: int| 0 <= x < n ==> root_of(r.parent@, x) == x,
    {
        let mut parent: Vec<usize> = Vec::new();
        let mut rank: Vec<usize> = Vec::new();
        let mut weights: Vec<i64> = Vec::new();
        let mut i: usize = 0;
        while i < n
            invariant
                parent@.len() == i,
                rank@.len() == i,
                weights@.len() == i,
                i <= n,
                forall|x: int| 0 <= x < i ==> #[trigger] parent@[x] == x,
                forall|x: int| 0 <= x < i ==> #[trigger] weights@[x] == 0,
            decreases n - i,
        {
            parent.push(i);
            rank.push(0);
            weights.push(0);
            i = i + 1;
        }
        WeightedUnionFind { parent, rank, weights }
    }

    /// Representative of `x`; compresses the path and accumulates the
    /// potential of the bypassed links into `weights[x]`.
    pub fn root(&mut self, x: usize) -> (r: usize)
        requires
            old(self).wf(),
            x < old(self).len(),
        ensures
            final(self).wf(),
            final(self).len() == old(self).len(),
            final(self).rank == old(self).rank,
            r == root_of(old(self).parent@, x as int),
            forall|y: int|
                0 <= y < old(self).len() ==> #[trigger] root_of(final(self).parent@, y)
                    == root_of(old(self).parent@, y),
            forall|y: int|
                0 <= y < old(self).len() ==> #[trigger] pot_of(
                    final(self).parent@,
                    final(self).weights@,
                    y,
                ) == pot_of(old(self).parent@, old(self).weights@, y),
            final(self).weights@[x as int] == pot_of(
                old(self).parent@,
                old(self).weights@,
                x as int,
            ),
            forall|y: int|
                x < y < old(self).len() ==> #[trigger] final(self).parent@[y] == old(
                    self,
                ).parent@[y] && final(self).weights@[y] == old(self).weights@[y],
        decreases x,
    {
        let p = self.parent[x];
        if p == x {
            return x;
        }
        let r = self.root(p);
        let ghost mid = self.parent@;
        let ghost midw = self.weights@;
        proof {
            UnionFind::lemma_root_props(mid, x as int);
            assert(root_of(mid, x as int) == root_of(mid, p as int));
            assert(self.parent@[x as int] == p && self.weights@[x as int] == old(
                self,
            ).weights@[x as int]);
        }
        let pw = self.weights[self.parent[x]];
        let w = self.weights[x];
        self.weights.set(x, w.wrapping_add(pw));
        self.parent.set(x, r);
        proof {
            UnionFind::lemma_compress_all(mid, x as int);
            assert(self.parent@ == mid.update(x as int, root_of(mid, x as int) as usize));
            let rt = root_of(mid, x as int);
            UnionFind::lemma_root_props(mid, x as int);
            UnionFind::lemma_root_props(mid, p as int);
            assert(rt <= p < x);
            // the representative carries weight zero, so the rewritten entry
            // keeps its potential
            assert(mid[rt] == rt && midw[rt] == 0);
            assert(self.parent@[rt] == rt && self.weights@[rt] == 0);
            assert(pot_of(self.parent@, self.weights@, rt) == 0);
            assert(pot_of(self.parent@, self.weights@, x as int) == i64_specs::wrapping_add(
                self.weights@[x as int],
                0i64,
            ));
            assert(i64_specs::wrapping_add(self.weights@[x as int], 0i64)
                == self.weights@[x as int]);
            assert(self.weights@[x as int] == i64_specs::wrapping_add(
                midw[x as int],
                midw[p as int],
            ));
            assert(midw[p as int] == pot_of(mid, midw, p as int));
            assert(pot_of(mid, midw, x as int) == i64_specs::wrapping_add(
                midw[x as int],
                pot_of(mid, midw, p as int),
            ));
            assert(pot_of(self.parent@, self.weights@, x as int) == pot_of(mid, midw, x as int));
            assert forall|y: int| 0 <= y < mid.len() implies #[trigger] pot_of(
                self.parent@,
                self.weights@,
                y,
            ) == pot_of(mid, midw, y) by {
                lemma_pot_preserved(mid, midw, self.parent@, self.weights@, x as int, y);
            }
            // the stored weight is the original potential of x
            assert(pot_of(old(self).parent@, old(self).weights@, x as int)
                == i64_specs::wrapping_add(
                old(self).weights@[x as int],
                pot_of(old(self).parent@, old(self).weights@, p as int),
            ));
            assert forall|y: int| x < y < old(self).len() implies self.parent@[y] == old(
                self,
            ).parent@[y] && self.weights@[y] == old(self).weights@[y] by {
                assert(mid[y] == old(self).parent@[y] && midw[y] == old(self).weights@[y]);
            }
        }
        r
    }

    /// Potential of `x` relative to its representative.
    pub fn weight(&mut self, x: usize) -> (w: i64)
        requires
            old(self).wf(),
            x < old(self).len(),
        ensures
            final(self).wf(),
            final(self).len() == old(self).len(),
            w == pot_of(old(self).parent@, old(self).weights@, x as int),
            forall|y: int|
                0 <= y < old(self).len() ==> #[trigger] root_of(final(self).parent@, y)
                    == root_of(old(self).parent@, y),
            forall|y: int|
                0 <= y < old(self).len() ==> #[trigger] pot_of(
                    final(self).parent@,
                    final(self).weights@,
                    y,
                ) == pot_of(old(self).parent@, old(self).weights@, y),
    {
        self.root(x);
        self.weights[x]
    }

    /// Whether `x` and `y` share a representative.
    pub fn is_same(&mut self, x: usize, y: usize) -> (r: bool)
        requires
            old(self).wf(),
            x < old(self).len(),
            y < old(self).len(),
        ensures
            final(self).wf(),
            final(self).len() == old(self).len(),
            r == (root_of(old(self).parent@, x as int) == root_of(old(self).parent@, y as int)),
            forall|z: int|
                0 <= z < old(self).len() ==> #[trigger] root_of(final(self).parent@, z)
                    == root_of(old(self).parent@, z),
            forall|z: int|
                0 <= z < old(self).len() ==> #[trigger] pot_of(
                    final(self).parent@,
                    final(self).weights@,
                    z,
                ) == pot_of(old(self).parent@, old(self).weights@, z),
    {
        let px = self.root(x);
        let py = self.root(y);
        px == py
    }

    /// Joins the components of `x` and `y`, recording that the potential of
    /// `y` exceeds the potential of `x` by `w`: the component of the larger
    /// old representative is reattached, all of its potentials shifted by
    /// one wrapped constant, and every other potential is untouched.
    pub fn merge(&mut self, x: usize, y: usize, w: i64) -> (merged: bool)
        requires
            old(self).wf(),
            x < old(self).len(),
            y < old(self).len(),
        ensures
            final(self).wf(),
            final(self).len() == old(self).len(),
            merged == (root_of(old(self).parent@, x as int) != root_of(
                old(self).parent@,
                y as int,
            )),
            !merged ==> forall|z: int|
                0 <= z < old(self).len() ==> #[trigger] pot_of(
                    final(self).parent@,
                    final(self).weights@,
                    z,
                ) == pot_of(old(self).parent@, old(self).weights@, z),
            merged ==> ({
                let rx = root_of(old(self).parent@, x as int);
                let ry = root_of(old(self).parent@, y as int);
                let base = i64_specs::wrapping_sub(
                    i64_specs::wrapping_add(w, pot_of(old(self).parent@, old(self).weights@, x as int)),
                    pot_of(old(self).parent@, old(self).weights@, y as int),
                );
                let big = if rx > ry {
                    rx
                } else {
                    ry
                };
                let shift = if rx > ry {
                    i64_specs::wrapping_sub(0i64, base)
                } else {
                    base
                };
                forall|z: int|
                    0 <= z < old(self).len() ==> #[trigger] pot_of(
                        final(self).parent@,
                        final(self).weights@,
                        z,
                    ) == (if root_of(old(self).parent@, z) == big {
                        i64_specs::wrapping_add(
                            pot_of(old(self).parent@, old(self).weights@, z),
                            shift,
                        )
                    } else {
                        pot_of(old(self).parent@, old(self).weights@, z)
                    })
            }),
    {
        let mut wl = w;
        let wx = self.weight(x);
        wl = wl.wrapping_add(wx);
        let wy = self.weight(y);
        wl = wl.wrapping_sub(wy);
        let mut a = self.root(x);
        let mut b = self.root(y);
        if a == b {
            return false;
        }
        proof {
            let pre = self.parent@;
            UnionFind::lemma_root_props(pre, x as int);
            UnionFind::lemma_root_props(pre, y as int);
        }
        if b < a {
            let t = a;
            a = b;
            b = t;
            wl = 0i64.wrapping_sub(wl);
        }
        // attach the larger-index root `b` below `a`
        let ra = self.rank[a];
        let rb = self.rank[b];
        if ra == rb && ra < usize::MAX {
            self.rank.set(a, ra + 1);
        }
        let ghost s4p = self.parent@;
        let ghost s4w = self.weights@;
        self.parent.set(b, a);
        self.weights.set(b, wl);
        proof {
            let oldp = old(self).parent@;
            let oldw = old(self).weights@;
            UnionFind::lemma_root_props(s4p, a as int);
            UnionFind::lemma_root_props(s4p, b as int);
            assert(root_of(s4p, a as int) == root_of(oldp, a as int));
            assert(root_of(s4p, b as int) == root_of(oldp, b as int));
            assert(root_of(oldp, a as int) == a && root_of(oldp, b as int) == b) by {
                UnionFind::lemma_root_props(oldp, x as int);
                UnionFind::lemma_root_props(oldp, y as int);
            }
            assert(s4p[a as int] == a && s4p[b as int] == b);
            assert(s4w[a as int] == 0 && s4w[b as int] == 0);
            assert forall|z: int| 0 <= z < oldp.len() implies #[trigger] pot_of(
                self.parent@,
                self.weights@,
                z,
            ) == (if root_of(oldp, z) == b as int {
                i64_specs::wrapping_add(pot_of(oldp, oldw, z), wl)
            } else {
                pot_of(oldp, oldw, z)
            }) by {
                lemma_pot_shift(s4p, s4w, self.parent@, self.weights@, a as int, b as int, wl, z);
                assert(pot_of(s4p, s4w, z) == pot_of(oldp, oldw, z));
                assert(root_of(s4p, z) == root_of(oldp, z));
            }
        }
        true
    }

    /// Potential difference `y - x` for two members of one component.
    pub fn diff(&mut self, x: usize, y: usize) -> (d: i64)
        requires
            old(self).wf(),
            x < old(self).len(),
            y < old(self).len(),
        ensures
            final(self).wf(),
            final(self).len() == old(self).len(),
            d == i64_specs::wrapping_sub(
                pot_of(old(self).parent@, old(self).weights@, y as int),
                pot_of(old(self).parent@, old(self).weights@, x as int),
            ),
            forall|z: int|
                0 <= z < old(self).len() ==> #[trigger] pot_of(
                    final(self).parent@,
                    final(self).weights@,
                    z,
                ) == pot_of(old(self).parent@, old(self).weights@, z),
    {
        let wy = self.weight(y);
        let wx = self.weight(x);
        wy.wrapping_sub(wx)
    }
}

} // verus!

//! Disjoint-set forest with path compression.
//!
//! Parent pointers always decrease (the representative of a component is
//! its smallest member), which makes every parent walk terminate and lets
//! the contracts speak about [`root_of`], the representative function.

use vstd::prelude::*;

verus! {

/// The representative reached from `x` by following decreasing parent
/// pointers.
pub open spec fn root_of(p: Seq<usize>, x: int) -> int
    decreases x
        when 0 <= x

{
    if 0 <= x < p.len() && p[x] < x {
        root_of(p, p[x] as int)
    } else {
        x
    }
}

/// Sum of a sequence of sizes.
pub open spec fn sum_of(s: Seq<usize>) -> int
    decreases s.len(),
{
    if s.len() == 0 {
        0
    } else {
        sum_of(s.drop_last()) + s.last()
    }
}

/// Updating one slot shifts the sum by the difference.
proof fn lemma_sum_update(s: Seq<usize>, i: int, v: usize)
    requires
        0 <= i < s.len(),
    ensures
        sum_of(s.update(i, v)) == sum_of(s) - s[i] + v,
    decreases s.len(),
{
    if i == s.len() - 1 {
        assert(s.update(i, v).drop_last() =~= s.drop_last());
    } else {
        assert(s.update(i, v).drop_last() =~= s.drop_last().update(i, v));
        lemma_sum_update(s.drop_last(), i, v);
    }
}

/// Every element is at least the last one minus the rest: a singleton read
/// is bounded by the total.
proof fn lemma_sum_bounds(s: Seq<usize>, i: int)
    requires
        0 <= i < s.len(),
    ensures
        s[i] <= sum_of(s),
        sum_of(s) >= 0,
    decreases s.len(),
{
    if s.len() > 0 {
        if i == s.len() - 1 {
            lemma_sum_nonneg(s.drop_last());
        } else {
            lemma_sum_bounds(s.drop_last(), i);
        }
    }
}

proof fn lemma_sum_nonneg(s: Seq<usize>)
    ensures
        sum_of(s) >= 0,
    decreases s.len(),
{
    if s.len() > 0 {
        lemma_sum_nonneg(s.drop_last());
    }
}

/// Union-find over `{0, ..., n-1}`.
pub struct UnionFind {
    pub parent: Vec<usize>,
    pub sizes: Vec<usize>,
    pub size: usize,
}

impl UnionFind {
    /// Parent pointers decrease toward the representative, component sizes
    /// total `n`, and `size` counts the components (the parent-fixpoints).
    pub open spec fn wf(self) -> bool {
        &&& self.parent@.len() == self.sizes@.len()
        &&& forall|x: int| 0 <= x < self.parent@.len() ==> #[trigger] self.parent@[x] <= x
        &&& sum_of(self.sizes@) == self.parent@.len()
    }

    /// Number of elements.
    pub open spec fn len(self) -> int {
        self.parent@.len() as int
    }

    /// A root points at itself.
    pub proof fn lemma_root_props(p: Seq<usize>, x: int)
        requires
            0 <= x < p.len(),
            forall|y: int| 0 <= y < p.len() ==> #[trigger] p[y] <= y,
        ensures
            0 <= root_of(p, x) <= x,
            p[root_of(p, x)] == root_of(p, x),
        decreases x,
    {
        if p[x] < x {
            Self::lemma_root_props(p, p[x] as int);
        }
    }

    /// All representatives survive pointing `x` at its own representative.
    pub proof fn lemma_compress_all(p: Seq<usize>, x: int)
        requires
            0 <= x < p.len(),
            forall|z: int| 0 <= z < p.len() ==> #[trigger] p[z] <= z,
        ensures
            forall|y: int|
                0 <= y < p.len() ==> #[trigger] root_of(p.update(x, root_of(p, x) as usize), y)
                    == root_of(p, y),
    {
        assert forall|y: int|
            0 <= y < p.len() implies #[trigger] root_of(p.update(x, root_of(p, x) as usize), y)
            == root_of(p, y) by {
            Self::lemma_compress_ind(p, x, y);
        }
    }

    /// Induction workhorse for [`UnionFind::lemma_compress_all`].
    proof fn lemma_compress_ind(p: Seq<usize>, x: int, y: int)
        requires
            0 <= x < p.len(),
            forall|z: int| 0 <= z < p.len() ==> #[trigger] p[z] <= z,
            0 <= y < p.len(),
        ensures
            root_of(p.update(x, root_of(p, x) as usize), y) == root_of(p, y),
        decreases y,
    {
        Self::lemma_root_props(p, x);
        if y == x {
            if root_of(p, x) < x {
                Self::lemma_compress_ind(p, x, root_of(p, x));
                Self::lemma_root_props(p, root_of(p, x));
            }
        } else {
            if p[y] < y {
                Self::lemma_compress_ind(p, x, p[y] as int);
            }
        }
    }

    /// Linking root `a` under the smaller root `b` redirects exactly the
    /// members of `a`'s component.
    proof fn lemma_link(p: Seq<usize>, a: int, b: int, y: int)
        requires
            0 <= b < a < p.len(),
            forall|z: int| 0 <= z < p.len() ==> #[trigger] p[z] <= z,
            p[a] == a,
            p[b] == b,
            0 <= y < p.len(),
        ensures
            root_of(p.update(a, b as usize), y) == (if root_of(p, y) == a {
                b as int
            } else {
                root_of(p, y)
            }),
        decreases y,
    {
        let q = p.update(a, b as usize);
        if y == a {
            Self::lemma_root_props(p, b);
            assert(q[a] == b as usize);
            assert(root_of(q, a) == root_of(q, b));
            assert(root_of(q, b) == b);
            assert(root_of(p, a) == a);
        } else {
            if p[y] < y {
                Self::lemma_link(p, a, b, p[y] as int);
            }
        }
    }

    /// A fresh structure with `n` singleton components.
    pub fn new(n: usize) -> (r: UnionFind)
        ensures
            r.wf(),
            r.len() == n,
            r.size == n,
            forall|x: int| 0 <= x < n ==> root_of(r.parent@, x) == x,
    {
        let mut parent: Vec<usize> = Vec::new();
        let mut sizes: Vec<usize> = Vec::new();
        let mut i: usize = 0;
        while i < n
            invariant
                parent@.len() == i,
                sizes@.len() == i,
                i <= n,
                forall|x: int| 0 <= x < i ==> #[trigger] parent@[x] == x,
                forall|x: int| 0 <= x < i ==> #[trigger] sizes@[x] == 1,
                sum_of(sizes@) == i,
            decreases n - i,
        {
            proof {
                assert(sizes@.push(1).drop_last() =~= sizes@);
            }
            parent.push(i);
            sizes.push(1);
            i = i + 1;
        }
        UnionFind { parent, sizes, size: n }
    }

    /// Representative of `x`, compressing the visited path.
    pub fn find(&mut self, x: usize) -> (r: usize)
        requires
            old(self).wf(),
            x < old(self).len(),
        ensures
            final(self).wf(),
            final(self).len() == old(self).len(),
            final(self).sizes == old(self).sizes,
            final(self).size == old(self).size,
            r == root_of(old(self).parent@, x as int),
            forall|y: int|
                0 <= y < old(self).len() ==> #[trigger] root_of(final(self).parent@, y)
                    == root_of(old(self).parent@, y),
        decreases x,
    {
        let p = self.parent[x];
        if x == p {
            return x;
        }
        let r = self.find(p);
        let ghost mid = self.parent@;
        proof {
            Self::lemma_root_props(mid, x as int);
            assert(root_of(mid, x as int) == root_of(mid, p as int));
        }
        self.parent.set(x, r);
        proof {
            Self::lemma_compress_all(mid, x as int);
            assert(self.parent@ == mid.update(x as int, root_of(mid, x as int) as usize));
        }
        r
    }

    /// Merges the components of `x` and `y`; returns whether they were
    /// previously distinct.  The surviving representative is the smaller of
    /// the two old ones.
    pub fn unite(&mut self, x: usize, y: usize) -> (merged: bool)
        requires
            old(self).wf(),
            x < old(self).len(),
            y < old(self).len(),
        ensures
            final(self).wf(),
            final(self).len() == old(self).len(),
            merged == (root_of(old(self).parent@, x as int) != root_of(
                old(self).parent@,
                y as int,
            )),
            forall|z: int|
                0 <= z < old(self).len() ==> #[trigger] root_of(final(self).parent@, z) == (
                if merged && root_of(old(self).parent@, z) == (if root_of(
                    old(self).parent@,
                    x as int,
                ) > root_of(old(self).parent@, y as int) {
                    root_of(old(self).parent@, x as int)
                } else {
                    root_of(old(self).parent@, y as int)
                }) {
                    (if root_of(old(self).parent@, x as int) > root_of(
                        old(self).parent@,
                        y as int,
                    ) {
                        root_of(old(self).parent@, y as int)
                    } else {
                        root_of(old(self).parent@, x as int)
                    })
                } else {
                    root_of(old(self).parent@, z)
                }),
            !merged ==> final(self).sizes == old(self).sizes && final(self).size == old(
                self,
            ).size,
            merged ==> ({
                let hi = if root_of(old(self).parent@, x as int) > root_of(
                    old(self).parent@,
                    y as int,
                ) {
                    root_of(old(self).parent@, x as int)
                } else {
                    root_of(old(self).parent@, y as int)
                };
                let lo = if root_of(old(self).parent@, x as int) > root_of(
                    old(self).parent@,
                    y as int,
                ) {
                    root_of(old(self).parent@, y as int)
                } else {
                    root_of(old(self).parent@, x as int)
                };
                final(self).sizes@ == old(self).sizes@.update(hi, 0).update(
                    lo,
                    (old(self).sizes@[hi] + old(self).sizes@[lo]) as usize,
                )
            }),
            merged && old(self).size > 0 ==> final(self).size == old(self).size - 1,
    {
        let total = self.parent.len();
        let px = self.find(x);
        let py = self.find(y);
        if px == py {
            return false;
        }
        let (hi, lo) = if px > py {
            (px, py)
        } else {
            (py, px)
        };
        let ghost pre = self.parent@;
        proof {
            Self::lemma_root_props(pre, x as int);
            Self::lemma_root_props(pre, y as int);
            assert(root_of(pre, px as int) == px as int && root_of(pre, py as int) == py as int);
            lemma_sum_bounds(self.sizes@, hi as int);
            lemma_sum_update(self.sizes@, hi as int, 0);
            lemma_sum_bounds(self.sizes@.update(hi as int, 0), lo as int);
        }
        let gain = self.sizes[hi];
        let keep = self.sizes[lo];
        self.sizes.set(hi, 0);
        proof {
            lemma_sum_bounds(self.sizes@, lo as int);
            assert(keep + gain <= total);
        }
        self.sizes.set(lo, keep + gain);
        proof {
            lemma_sum_update(old(self).sizes@.update(hi as int, 0), lo as int, (keep
                + gain) as usize);
        }
        self.parent.set(hi, lo);
        if self.size > 0 {
            self.size = self.size - 1;
        }
        proof {
            assert forall|z: int|
                0 <= z < pre.len() implies #[trigger] root_of(self.parent@, z) == (if root_of(
                pre,
                z,
            ) == hi as int {
                lo as int
            } else {
                root_of(pre, z)
            }) by {
                Self::lemma_link(pre, hi as int, lo as int, z);
            }
        }
        true
    }

    /// Whether `x` and `y` share a component.
    pub fn is_same(&mut self, x: usize, y: usize) -> (r: bool)
        requires
            old(self).wf(),
            x < old(self).len(),
            y < old(self).len(),
        ensures
            final(self).wf(),
            final(self).len() == old(self).len(),
            final(self).sizes == old(self).sizes,
            final(self).size == old(self).size,
            r == (root_of(old(self).parent@, x as int) == root_of(old(self).parent@, y as int)),
            forall|z: int|
                0 <= z < old(self).len() ==> #[trigger] root_of(final(self).parent@, z)
                    == root_of(old(self).parent@, z),
    {
        let px = self.find(x);
        let py = self.find(y);
        px == py
    }
}

} // verus!

//! Point-update / range-query segment tree.
//!
//! The contracts speak about [`SegTree::model`], the sequence of the logical
//! leaf values: `update` rewrites one element, `query` returns the exact
//! monoid fold of a range.

use vstd::prelude::*;

verus! {

use crate::lazy_segtree::{in_sub, TreeError};
use crate::ops::{MonoidOps, fold_seq, lemma_fold_single, lemma_fold_append};
use vstd::arithmetic::power2::pow2;

/// An array-backed segment tree over a monoid.
pub struct SegTree<T, Ops> where T: Copy, Ops: MonoidOps<T> {
    n: usize,
    size: usize,
    height: usize,
    data: Vec<T>,
    ops: core::marker::PhantomData<Ops>,
}

impl<T: Copy, Ops: MonoidOps<T>> SegTree<T, Ops> {
    /// Array layout: `size` is a power of two covering `n` and the array
    /// spans `2 * size` slots.
    pub closed spec fn wf_shape(self) -> bool {
        &&& 1 <= self.size <= 0x4000_0000
        &&& self.n <= self.size
        &&& self.size == pow2(self.height as nat)
        &&& self.data@.len() == 2 * self.size
    }

    /// Every inner node caches the combination of its children.
    pub closed spec fn coherent(self) -> bool {
        forall|m: int|
            1 <= m < self.size ==> self.data@[m] == Ops::combine_s(
                #[trigger] self.data@[2 * m],
                self.data@[2 * m + 1],
            )
    }

    /// Overall well-formedness.
    pub closed spec fn wf(self) -> bool {
        self.wf_shape() && self.coherent()
    }

    /// Well-formedness includes the array layout, and the logical prefix
    /// fits inside the leaf row; exported so callers of [`SegTree::set`] and
    /// [`SegTree::build`] can discharge their preconditions and index the
    /// leaf row.
    pub proof fn lemma_shape(self)
        requires
            self.wf_shape() || self.wf(),
        ensures
            self.wf_shape(),
            self.model().len() <= self.leaves().len(),
            1 <= self.leaves().len(),
            self.model() == self.leaves().subrange(0, self.model().len() as int),
    {
        assert(self.model() =~= self.leaves().subrange(0, self.model().len() as int));
    }

    /// The logical contents: the first `n` leaves.
    pub closed spec fn model(self) -> Seq<T> {
        Seq::new(self.n as nat, |i: int| self.data@[self.size + i])
    }

    /// Leaf row including the padding.
    pub closed spec fn leaves(self) -> Seq<T> {
        self.data@.subrange(self.size as int, 2 * self.size as int)
    }

    /// Builds a tree of `n` identity elements.
    pub fn new(n: usize) -> (r: Self)
        requires
            n <= 0x4000_0000,
        ensures
            r.wf(),
            r.wf_shape(),
            r.model() == Seq::new(n as nat, |i: int| Ops::t0_s()),
            r.leaves() == Seq::new(r.leaves().len(), |i: int| Ops::t0_s()),
            r.model().len() == n,
    {
        let mut size: usize = 1;
        let mut height: usize = 0;
        proof {
            vstd::arithmetic::power2::lemma2_to64();
            vstd::arithmetic::power2::lemma2_to64_rest();
        }
        while size < n
            invariant
                1 <= size <= 0x4000_0000,
                n <= 0x4000_0000,
                size == pow2(height as nat),
                height <= 30,
            decreases 2 * n - size,
        {
            proof {
                vstd::arithmetic::power2::lemma2_to64();
                vstd::arithmetic::power2::lemma2_to64_rest();
                if height >= 30 {
                    if height > 30 {
                        vstd::arithmetic::power2::lemma_pow2_strictly_increases(
                            30,
                            height as nat,
                        );
                    }
                    assert(false);
                }
                vstd::arithmetic::power2::lemma_pow2_unfold(height as nat + 1);
                assert(2 * size == pow2(height as nat + 1));
                if height as nat + 1 < 30 {
                    vstd::arithmetic::power2::lemma_pow2_strictly_increases(
                        height as nat + 1,
                        30,
                    );
                }
            }
            size = size * 2;
            height = height + 1;
        }
        let t0 = Ops::t0();
        let mut data: Vec<T> = Vec::new();
        let mut k: usize = 0;
        while k < 2 * size
            invariant
                data@.len() == k,
                k <= 2 * size,
                size <= 0x4000_0000,
                t0 == Ops::t0_s(),
                forall|j: int| 0 <= j < k ==> data@[j] == Ops::t0_s(),
            decreases 2 * size - k,
        {
            data.push(t0);
            k = k + 1;
        }
        let r = SegTree { n, size, height, data, ops: core::marker::PhantomData };
        proof {
            assert forall|m: int| 1 <= m < r.size implies r.data@[m] == Ops::combine_s(
                #[trigger] r.data@[2 * m],
                r.data@[2 * m + 1],
            ) by {
                Ops::t0_identity(Ops::t0_s());
            }
            assert(r.model() =~= Seq::new(n as nat, |i: int| Ops::t0_s()));
            assert(r.leaves() =~= Seq::new(r.leaves().len(), |i: int| Ops::t0_s()));
        }
        r
    }

    /// Overwrites the raw leaf `k`; aggregates are stale until
    /// [`SegTree::build`] runs.
    pub fn set(&mut self, k: usize, v: T)
        requires
            old(self).wf_shape(),
            k < old(self).model().len(),
        ensures
            final(self).wf_shape(),
            final(self).model() == old(self).model().update(k as int, v),
            final(self).model().len() == old(self).model().len(),
            final(self).leaves() == old(self).leaves().update(k as int, v),
    {
        let idx = k + self.size;
        self.data.set(idx, v);
        proof {
            assert(self.leaves() =~= old(self).leaves().update(k as int, v));
            assert(self.model() =~= old(self).model().update(k as int, v));
        }
    }

    /// Reads the current value of element `k`.
    pub fn get(&self, k: usize) -> (r: T)
        requires
            self.wf_shape(),
            k < self.model().len(),
        ensures
            r == self.model()[k as int],
    {
        self.data[k + self.size]
    }

    /// Recomputes every inner aggregate bottom-up from the leaf row.
    pub fn build(&mut self)
        requires
            old(self).wf_shape(),
        ensures
            final(self).wf(),
            final(self).wf_shape(),
            final(self).leaves() == old(self).leaves(),
            final(self).model() == old(self).model(),
            final(self).model() == final(self).leaves().subrange(
                0,
                final(self).model().len() as int,
            ),
    {
        let size = self.size;
        let mut k: usize = size;
        while k > 1
            invariant
                self.wf_shape(),
                1 <= k <= size,
                size == self.size,
                self.n == old(self).n,
                self.height == old(self).height,
                forall|j: int| size <= j < 2 * size ==> self.data@[j] == old(self).data@[j],
                forall|j: int|
                    k <= j < size ==> self.data@[j] == Ops::combine_s(
                        #[trigger] self.data@[2 * j],
                        self.data@[2 * j + 1],
                    ),
            decreases k,
        {
            k = k - 1;
            let a = self.data[2 * k];
            let b = self.data[2 * k + 1];
            let c = Ops::combine(a, b);
            self.data.set(k, c);
        }
        proof {
            assert(self.leaves() =~= old(self).leaves());
            assert(self.model() =~= old(self).model());
            assert(self.model() =~= self.leaves().subrange(0, self.model().len() as int));
        }
    }

    /// Assigns element `k` and refreshes the aggregates along its root
    /// path.
    pub fn update(&mut self, k: usize, v: T)
        requires
            old(self).wf(),
            k < old(self).model().len(),
        ensures
            final(self).wf(),
            final(self).wf_shape(),
            final(self).model() == old(self).model().update(k as int, v),
    {
        let mut idx = k + self.size;
        self.data.set(idx, v);
        proof {
            assert forall|m: int|
                1 <= m < self.size && (!in_sub(idx as nat, m as nat) || m == idx as int)
                    implies self.data@[m] == Ops::combine_s(
                #[trigger] self.data@[2 * m],
                self.data@[2 * m + 1],
            ) by {
                assert(in_sub(m as nat, m as nat));
                if 2 * m == idx as int || 2 * m + 1 == idx as int {
                    assert(in_sub(idx as nat, m as nat));
                }
            }
        }
        while idx > 1
            invariant
                self.wf_shape(),
                self.n == old(self).n,
                self.size == old(self).size,
                self.height == old(self).height,
                1 <= idx < 2 * self.size,
                forall|j: int|
                    self.size <= j < 2 * self.size ==> self.data@[j] == old(self).data@.update(
                        (k + old(self).size) as int,
                        v,
                    )[j],
                forall|m: int|
                    1 <= m < self.size && (!in_sub(idx as nat, m as nat) || m == idx as int)
                        ==> self.data@[m] == Ops::combine_s(
                        #[trigger] self.data@[2 * m],
                        self.data@[2 * m + 1],
                    ),
            decreases idx,
        {
            let parent = idx / 2;
            let a = self.data[2 * parent];
            let b = self.data[2 * parent + 1];
            let c = Ops::combine(a, b);
            self.data.set(parent, c);
            proof {
                assert forall|m: int|
                    1 <= m < self.size && (!in_sub(parent as nat, m as nat) || m
                        == parent as int) implies self.data@[m] == Ops::combine_s(
                    #[trigger] self.data@[2 * m],
                    self.data@[2 * m + 1],
                ) by {
                    assert(in_sub(m as nat, m as nat));
                    assert(in_sub(parent as nat, parent as nat));
                    if m == parent as int {
                    } else {
                        assert(m != parent as int);
                        if in_sub(idx as nat, m as nat) && m != idx as int {
                            assert(in_sub(parent as nat, m as nat));
                        }
                        if 2 * m == parent as int || 2 * m + 1 == parent as int {
                            assert(in_sub(parent as nat, m as nat));
                        }
                    }
                }
            }
            idx = parent;
        }
        proof {
            assert forall|m: int| 1 <= m < self.size implies self.data@[m] == Ops::combine_s(
                #[trigger] self.data@[2 * m],
                self.data@[2 * m + 1],
            ) by {
                if in_sub(1nat, m as nat) && m != 1 {
                    crate::lazy_segtree::lemma_in_sub_geq(1nat, m as nat);
                }
            }
            assert(self.model() =~= old(self).model().update(k as int, v));
        }
    }

    /// The raw leaves of the depth-`e` block of node `m`.
    spec fn block_vals(self, m: nat, e: nat) -> Seq<T> {
        Seq::new(pow2(e), |i: int| self.data@[pow2(e) * m + i])
    }

    /// A coherent node caches the fold of its leaf block.
    proof fn lemma_node_fold(self, m: nat, e: nat)
        requires
            self.wf_shape(),
            self.coherent(),
            m >= 1,
            self.size <= pow2(e) * m,
            pow2(e) * (m + 1) <= 2 * self.size,
        ensures
            self.data@[m as int] == fold_seq::<T, Ops>(self.block_vals(m, e)),
        decreases e,
    {
        vstd::arithmetic::power2::lemma_pow2_pos(e);
        if e == 0 {
            assert(pow2(0) == 1) by {
                vstd::arithmetic::power2::lemma2_to64();
            }
            assert(self.block_vals(m, 0).len() == 1);
            assert(self.block_vals(m, 0)[0] == self.data@[m as int]);
            lemma_fold_single::<T, Ops>(self.block_vals(m, 0));
        } else {
            let p = pow2((e - 1) as nat);
            assert(pow2(e) == 2 * p) by {
                vstd::arithmetic::power2::lemma_pow2_unfold(e);
            }
            vstd::arithmetic::power2::lemma_pow2_pos((e - 1) as nat);
            assert(p * (2 * m) == 2 * (p * m) && p * (2 * m + 1) == 2 * (p * m) + p && p * (2 * m
                + 2) == 2 * (p * m) + 2 * p && pow2(e) * m == 2 * (p * m) && pow2(e) * (m + 1)
                == 2 * (p * m) + 2 * p) by (nonlinear_arith)
                requires
                    pow2(e) == 2 * p,
            ;
            assert(m < self.size) by (nonlinear_arith)
                requires
                    self.size <= pow2(e) * m,
                    pow2(e) * (m + 1) <= 2 * self.size,
                    pow2(e) >= 2,
                    self.size >= 1,
                    m >= 1,
            ;
            self.lemma_node_fold(2 * m, (e - 1) as nat);
            self.lemma_node_fold(2 * m + 1, (e - 1) as nat);
            let a = self.block_vals(2 * m, (e - 1) as nat);
            let b = self.block_vals(2 * m + 1, (e - 1) as nat);
            assert(self.block_vals(m, e) =~= a + b);
            lemma_fold_append::<T, Ops>(a, b);
        }
    }

    /// Returns the fold of the current values of `[left, right)`; an empty
    /// range yields the identity.
    pub fn query(&self, left: usize, right: usize) -> (res: Result<T, TreeError>)
        requires
            self.wf(),
        ensures
            res is Ok <==> (left <= right && right <= self.model().len()),
            left > right ==> res == Err::<T, TreeError>(TreeError::InvalidRange),
            left <= right && right > self.model().len() ==> res == Err::<T, TreeError>(
                TreeError::IndexOutOfBounds,
            ),
            res is Ok ==> res == Ok::<T, TreeError>(
                fold_seq::<T, Ops>(self.model().subrange(left as int, right as int)),
            ),
    {
        if left > right {
            return Err(TreeError::InvalidRange);
        }
        if right > self.n {
            return Err(TreeError::IndexOutOfBounds);
        }
        if left == right {
            proof {
                assert(self.model().subrange(left as int, right as int) =~= Seq::<T>::empty());
            }
            return Ok(Ops::t0());
        }
        let size = self.size;
        let ghost e = self.height as nat;
        let v = self.query_rec(1, 0, size, left, right, Ghost(e));
        proof {
            assert(self.vals(left as int, right as int) =~= self.model().subrange(
                left as int,
                right as int,
            ));
        }
        Ok(v)
    }

    /// The values of the leaves `[lo, hi)`.
    spec fn vals(self, lo: int, hi: int) -> Seq<T> {
        Seq::new((hi - lo) as nat, |i: int| self.data@[self.size + lo + i])
    }

    /// Recursive range query over the subtree of `m` with leaf block
    /// `[nl, nr)`.
    fn query_rec(&self, m: usize, nl: usize, nr: usize, l: usize, r: usize, Ghost(e): Ghost<nat>) -> (res: T)
        requires
            self.wf(),
            1 <= m < 2 * self.size,
            pow2(e) == nr - nl,
            self.size + nl == m * pow2(e),
            nl < nr <= self.size,
            l < r <= self.size,
        ensures
            ({
                let lo = if l > nl { l as int } else { nl as int };
                let hi = if r < nr { r as int } else { nr as int };
                &&& (hi <= lo ==> res == Ops::t0_s())
                &&& (lo < hi ==> res == fold_seq::<T, Ops>(self.vals(lo, hi)))
            }),
        decreases e,
    {
        let ghost lo: int = if l > nl { l as int } else { nl as int };
        let ghost hi: int = if r < nr { r as int } else { nr as int };
        proof {
            vstd::arithmetic::power2::lemma_pow2_pos(e);
            assert(pow2(e) * (m as nat) == (m as nat) * pow2(e) && pow2(e) * (m as nat + 1) == (
            m as nat) * pow2(e) + pow2(e)) by (nonlinear_arith);
        }
        if r <= nl || nr <= l {
            return Ops::t0();
        }
        if l <= nl && nr <= r {
            proof {
                self.lemma_node_fold(m as nat, e);
                assert(self.vals(lo, hi) =~= self.block_vals(m as nat, e));
            }
            return self.data[m];
        }
        proof {
            if e == 0 {
                assert(nr - nl == 1) by {
                    vstd::arithmetic::power2::lemma2_to64();
                }
                assert(false);
            }
            vstd::arithmetic::power2::lemma_pow2_unfold(e);
            vstd::arithmetic::power2::lemma_pow2_pos((e - 1) as nat);
            assert(2 * (m as int) * pow2((e - 1) as nat) == m as int * pow2(e)
                && (2 * (m as int) + 1) * pow2((e - 1) as nat) == 2 * (m as int) * pow2(
                (e - 1) as nat,
            ) + pow2((e - 1) as nat)
                && (2 * (m as int) + 1) * pow2((e - 1) as nat) + pow2((e - 1) as nat) == (
            m as int + 1) * pow2(e)) by (nonlinear_arith)
                requires
                    pow2(e) == 2 * pow2((e - 1) as nat),
            ;
            let gsize = self.size;
            assert(m < gsize) by (nonlinear_arith)
                requires
                    gsize + nl == m * pow2(e),
                    nr <= gsize,
                    pow2(e) == nr - nl,
                    pow2(e) >= 2,
                    gsize >= 1,
                    m >= 1,
            ;
        }
        let mid = nl + (nr - nl) / 2;
        let a = self.query_rec(2 * m, nl, mid, l, r, Ghost((e - 1) as nat));
        let b = self.query_rec(2 * m + 1, mid, nr, l, r, Ghost((e - 1) as nat));
        let res = Ops::combine(a, b);
        proof {
            let loa: int = if l > nl { l as int } else { nl as int };
            let hia: int = if (r as int) < (mid as int) { r as int } else { mid as int };
            let lob: int = if (l as int) > (mid as int) { l as int } else { mid as int };
            let hib: int = if r < nr { r as int } else { nr as int };
            if hia <= loa {
                Ops::t0_identity(b);
                assert(lob == lo && hib == hi);
            } else if hib <= lob {
                Ops::t0_identity(a);
                assert(loa == lo && hia == hi);
            } else {
                assert(loa == lo && hia == mid && lob == mid && hib == hi);
                assert(self.vals(lo, hi) =~= self.vals(lo, mid as int) + self.vals(
                    mid as int,
                    hi,
                ));
                lemma_fold_append::<T, Ops>(self.vals(lo, mid as int), self.vals(mid as int, hi));
            }
        }
        res
    }
}

} // verus!

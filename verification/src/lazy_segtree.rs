//! Lazily propagated segment tree over an implicit complete binary tree.
//!
//! The tree stores aggregates of type `T` in `data[1..2*size]` (`data[1]` is
//! the root, node `k` has children `2k` and `2k+1`, leaves sit at
//! `[size, 2*size)`) and deferred updates of type `U` in `lazy`.  A tag
//! `lazy[k]` is an update that pertains to the whole subtree of `k` but has
//! not been pushed into `data[k]` or below.
//!
//! The contracts speak about [`LazySegTree::model`], the sequence of logical
//! element values: the raw leaf with every tag on its root path applied,
//! deepest first.  `update` rewrites a range of the model elementwise and
//! `query` folds a range of it; for operator packages whose `apply`
//! distributes over `combine` the fold is the exact aggregate.

use vstd::prelude::*;

verus! {

use crate::ops::{LazyOps, MonoidOps, fold_seq, distributive, lemma_fold_single, lemma_fold_append,
    lemma_fold_map_apply};
use vstd::arithmetic::power2::pow2;

/// Rejected range arguments.
#[derive(Clone, Copy, PartialEq, Eq, Structural, Debug)]
pub enum TreeError {
    /// The range is empty or reversed.
    InvalidRange,
    /// The range reaches past the logical length.
    IndexOutOfBounds,
}

/// Node `j` lies in the subtree rooted at `k` (walking parent pointers from
/// `j` reaches `k`).
pub open spec fn in_sub(j: nat, k: nat) -> bool
    decreases j,
{
    j == k || (j > k && in_sub(j / 2, k))
}

/// Members of a subtree never sit above its root.
pub proof fn lemma_in_sub_geq(j: nat, k: nat)
    requires
        in_sub(j, k),
    ensures
        j >= k,
    decreases j,
{
    if j != k {
        lemma_in_sub_geq(j / 2, k);
    }
}

/// A child's subtree is contained in the parent's, strictly below the root.
pub proof fn lemma_in_sub_child(j: nat, c: nat, k: nat)
    requires
        k >= 1,
        c == 2 * k || c == 2 * k + 1,
        in_sub(j, c),
    ensures
        in_sub(j, k),
        j > k,
    decreases j,
{
    if j == c {
        assert(in_sub(c / 2, k));
    } else {
        lemma_in_sub_child(j / 2, c, k);
    }
}

/// Subtree membership is transitive.
pub proof fn lemma_in_sub_trans(j: nat, m: nat, k: nat)
    requires
        in_sub(j, m),
        in_sub(m, k),
    ensures
        in_sub(j, k),
    decreases j,
{
    if j != m {
        lemma_in_sub_trans(j / 2, m, k);
        lemma_in_sub_geq(m, k);
    }
}

/// A strict member of a subtree lies in one of the two child subtrees.
pub proof fn lemma_in_sub_step(j: nat, k: nat)
    requires
        k >= 1,
        in_sub(j, k),
        j != k,
    ensures
        in_sub(j, 2 * k) || in_sub(j, 2 * k + 1),
    decreases j,
{
    if j / 2 == k {
        assert(j == 2 * k || j == 2 * k + 1);
    } else {
        lemma_in_sub_step(j / 2, k);
    }
}

/// The two child subtrees are disjoint.
pub proof fn lemma_in_sub_sibling(j: nat, k: nat)
    requires
        k >= 1,
    ensures
        !(in_sub(j, 2 * k) && in_sub(j, 2 * k + 1)),
    decreases j,
{
    if in_sub(j, 2 * k) && in_sub(j, 2 * k + 1) {
        if j == 2 * k {
            lemma_in_sub_geq(2 * k, 2 * k + 1);
        } else if j == 2 * k + 1 {
            assert(in_sub(j / 2, 2 * k));
            lemma_in_sub_geq(k, 2 * k);
        } else {
            lemma_in_sub_sibling(j / 2, k);
        }
    }
}

/// Every index of a subtree rooted at `k` with `2^e` leaves starting at
/// `k * 2^e` lies below `(k + 1) * 2^e`.
pub proof fn lemma_in_sub_bounds(j: nat, k: nat)
    requires
        in_sub(j, k),
        k >= 1,
    ensures
        exists|d: nat| #[trigger] pow2(d) * k <= j < pow2(d) * (k + 1),
    decreases j,
{
    if j == k {
        assert(pow2(0) * k <= j < pow2(0) * (k + 1)) by {
            vstd::arithmetic::power2::lemma2_to64();
        }
    } else {
        lemma_in_sub_bounds(j / 2, k);
        let d = choose|d: nat| #[trigger] pow2(d) * k <= j / 2 < pow2(d) * (k + 1);
        assert(pow2(d + 1) == 2 * pow2(d)) by {
            vstd::arithmetic::power2::lemma_pow2_unfold(d + 1);
        }
        assert(pow2(d + 1) * k <= j < pow2(d + 1) * (k + 1)) by (nonlinear_arith)
            requires
                pow2(d) * k <= j / 2 < pow2(d) * (k + 1),
                pow2(d + 1) == 2 * pow2(d),
                j / 2 == j as int / 2,
                2 * (j / 2) <= j < 2 * (j / 2) + 2,
        ;
    }
}

/// Indices in the half-open block `[k * 2^e, (k+1) * 2^e)` belong to the
/// subtree of `k`.
pub proof fn lemma_range_in_sub(j: nat, k: nat, e: nat)
    requires
        k >= 1,
        pow2(e) * k <= j < pow2(e) * (k + 1),
    ensures
        in_sub(j, k),
    decreases e,
{
    if e == 0 {
        assert(pow2(0) == 1) by {
            vstd::arithmetic::power2::lemma2_to64();
        }
        assert(j == k);
    } else {
        assert(pow2(e) == 2 * pow2((e - 1) as nat)) by {
            vstd::arithmetic::power2::lemma_pow2_unfold(e);
        }
        vstd::arithmetic::power2::lemma_pow2_pos((e - 1) as nat);
        if j < pow2((e - 1) as nat) * (2 * k + 1) {
            assert(pow2((e - 1) as nat) * (2 * k) <= j) by (nonlinear_arith)
                requires
                    pow2(e) * k <= j,
                    pow2(e) == 2 * pow2((e - 1) as nat),
            ;
            lemma_range_in_sub(j, 2 * k, (e - 1) as nat);
            lemma_in_sub_child(j, 2 * k, k);
        } else {
            assert(j < pow2((e - 1) as nat) * (2 * k + 2)) by (nonlinear_arith)
                requires
                    j < pow2(e) * (k + 1),
                    pow2(e) == 2 * pow2((e - 1) as nat),
            ;
            lemma_range_in_sub(j, 2 * k + 1, (e - 1) as nat);
            lemma_in_sub_child(j, 2 * k + 1, k);
        }
    }
}

/// Within one layer the subtree blocks are exact: a leaf-layer index is in
/// the subtree of `k` exactly when it lies in `k`'s block.
pub proof fn lemma_in_sub_leaf_range(j: nat, k: nat, e: nat, size: nat)
    requires
        k >= 1,
        size >= 1,
        size <= pow2(e) * k,
        pow2(e) * (k + 1) <= 2 * size,
        size <= j < 2 * size,
    ensures
        in_sub(j, k) <==> (pow2(e) * k <= j < pow2(e) * (k + 1)),
{
    if pow2(e) * k <= j < pow2(e) * (k + 1) {
        lemma_range_in_sub(j, k, e);
    }
    if in_sub(j, k) {
        lemma_in_sub_bounds(j, k);
        let d = choose|d: nat| #[trigger] pow2(d) * k <= j < pow2(d) * (k + 1);
        vstd::arithmetic::power2::lemma_pow2_pos(d);
        vstd::arithmetic::power2::lemma_pow2_pos(e);
        if d < e {
            assert(pow2(e) == pow2(d) * pow2((e - d) as nat)) by {
                vstd::arithmetic::power2::lemma_pow2_adds(d, (e - d) as nat);
            }
            vstd::arithmetic::power2::lemma_pow2_pos((e - d) as nat);
            assert(pow2((e - d) as nat) >= 2) by {
                vstd::arithmetic::power2::lemma_pow2_strictly_increases(0, (e - d) as nat);
                vstd::arithmetic::power2::lemma2_to64();
            }
            assert(false) by (nonlinear_arith)
                requires
                    j < pow2(d) * (k + 1),
                    pow2(e) * (k + 1) <= 2 * size,
                    pow2(e) == pow2(d) * pow2((e - d) as nat),
                    pow2((e - d) as nat) >= 2,
                    pow2(d) >= 1,
                    k >= 1,
                    size <= j,
            ;
        }
        if d > e {
            assert(pow2(d) == pow2(e) * pow2((d - e) as nat)) by {
                vstd::arithmetic::power2::lemma_pow2_adds(e, (d - e) as nat);
            }
            assert(pow2((d - e) as nat) >= 2) by {
                vstd::arithmetic::power2::lemma_pow2_strictly_increases(0, (d - e) as nat);
                vstd::arithmetic::power2::lemma2_to64();
            }
            assert(false) by (nonlinear_arith)
                requires
                    pow2(d) * k <= j,
                    size <= pow2(e) * k,
                    pow2(d) == pow2(e) * pow2((d - e) as nat),
                    pow2((d - e) as nat) >= 2,
                    pow2(e) >= 1,
                    k >= 1,
                    j < 2 * size,
            ;
        }
        assert(d == e);
    }
}

/// The value of a start `t` sitting at node `j`, after applying the lazy
/// tags of the path from `j` up to and including `k`, deepest first.
pub open spec fn chain<T: Copy, U: Copy, Ops: LazyOps<T, U>>(
    lazy: Seq<U>,
    t: T,
    j: nat,
    k: nat,
) -> T
    decreases j,
{
    if j <= k {
        Ops::apply_s(t, lazy[k as int])
    } else {
        chain::<T, U, Ops>(lazy, Ops::apply_s(t, lazy[j as int]), j / 2, k)
    }
}

/// A lazily propagated segment tree, parameterised by an operator package.
pub struct LazySegTree<T, U, Ops> where T: Copy, U: Copy, Ops: LazyOps<T, U> {
    n: usize,
    size: usize,
    height: usize,
    data: Vec<T>,
    lazy: Vec<U>,
    ops: core::marker::PhantomData<Ops>,
}

impl<T: Copy, U: Copy, Ops: LazyOps<T, U>> LazySegTree<T, U, Ops> {
    /// Array layout: `size` is a power of two covering the logical length
    /// `n`, and both arrays span `2 * size` slots.
    pub closed spec fn wf_shape(self) -> bool {
        &&& 1 <= self.size <= 0x4000_0000
        &&& self.n <= self.size
        &&& self.size == pow2(self.height as nat)
        &&& self.data@.len() == 2 * self.size
        &&& self.lazy@.len() == 2 * self.size
    }

    /// True aggregate of node `k` including its own pending tag.
    pub closed spec fn node_v(self, k: int) -> T {
        Ops::apply_s(self.data@[k], self.lazy@[k])
    }

    /// Node `m` caches the combination of its children's true aggregates.
    pub closed spec fn coh_at(self, m: int) -> bool {
        self.data@[m] == Ops::combine_s(self.node_v(2 * m), self.node_v(2 * m + 1))
    }

    /// For distributive operator packages, every inner node caches the
    /// combination of its children's true aggregates.
    pub closed spec fn coherent(self) -> bool {
        distributive::<T, U, Ops>() ==> forall|m: int|
            1 <= m < self.size ==> #[trigger] self.coh_at(m)
    }

    /// Coherence restricted to the subtree of `k`.
    pub closed spec fn coherent_in(self, k: nat) -> bool {
        distributive::<T, U, Ops>() ==> forall|m: nat|
            1 <= m < self.size && #[trigger] in_sub(m, k) ==> self.coh_at(m as int)
    }

    /// Value of the leaf slot `j` as seen within the subtree of `k`: the raw
    /// leaf with the tags of the path from `j` up to `k` applied.
    pub closed spec fn sub_leaf(self, j: nat, k: nat) -> T {
        chain::<T, U, Ops>(self.lazy@, self.data@[j as int], j, k)
    }

    /// Overall well-formedness.
    pub closed spec fn wf(self) -> bool {
        self.wf_shape() && self.coherent()
    }

    /// Well-formedness includes the array layout, and the logical prefix
    /// fits inside the leaf row; exported so callers of [`LazySegTree::set`]
    /// and [`LazySegTree::build`] can discharge their preconditions and
    /// index the leaf row.
    pub proof fn lemma_shape(self)
        requires
            self.wf_shape() || self.wf(),
        ensures
            self.wf_shape(),
            self.model().len() <= self.leaves().len(),
            1 <= self.leaves().len(),
    {
    }

    /// Logical value of the leaf at array slot `j`.
    pub closed spec fn leaf_full(self, j: nat) -> T {
        chain::<T, U, Ops>(self.lazy@, self.data@[j as int], j, 1)
    }

    /// The logical contents: element `i` is the raw leaf with every tag on
    /// its root path applied.
    pub closed spec fn model(self) -> Seq<T> {
        Seq::new(self.n as nat, |i: int| self.leaf_full((self.size + i) as nat))
    }

    /// The raw leaf row, padding included.
    pub closed spec fn leaves(self) -> Seq<T> {
        self.data@.subrange(self.size as int, 2 * self.size as int)
    }

    /// No deferred updates anywhere.
    pub closed spec fn lazy_clear(self) -> bool {
        forall|k: int| 0 <= k < self.lazy@.len() ==> self.lazy@[k] == Ops::u0_s()
    }

    /// Inner nodes combine their children, as the bottom-up build writes
    /// them.
    pub closed spec fn freshly_built(self) -> bool {
        forall|k: int|
            1 <= k < self.size ==> self.data@[k] == Ops::combine_s(
                #[trigger] self.data@[2 * k],
                self.data@[2 * k + 1],
            )
    }

    /// A cleared path applies nothing.
    proof fn lemma_chain_clear(self, t: T, j: nat, k: nat)
        requires
            self.lazy_clear(),
            0 <= k < self.lazy@.len(),
            j < self.lazy@.len(),
        ensures
            chain::<T, U, Ops>(self.lazy@, t, j, k) == t,
        decreases j,
    {
        Ops::u0_identity(t, Ops::u0_s());
        if j <= k {
        } else {
            Ops::u0_identity(t, Ops::u0_s());
            self.lemma_chain_clear(t, j / 2, k);
        }
    }

    /// On a cleared tree the model is the logical prefix of the leaf row.
    proof fn lemma_model_of_clear(self)
        requires
            self.wf_shape(),
            self.lazy_clear(),
        ensures
            self.model() =~= self.leaves().subrange(0, self.n as int),
    {
        assert forall|i: int| 0 <= i < self.n implies self.model()[i] == self.leaves().subrange(
            0,
            self.n as int,
        )[i] by {
            self.lemma_chain_clear(self.data@[self.size + i], (self.size + i) as nat, 1);
        }
    }

    /// A cleared, freshly built tree is coherent.
    proof fn lemma_built_coherent(self)
        requires
            self.wf_shape(),
            self.lazy_clear(),
            self.freshly_built(),
        ensures
            self.coherent(),
    {
        assert forall|k: int| 1 <= k < self.size implies #[trigger] self.coh_at(k) by {
            Ops::u0_identity(self.data@[2 * k], Ops::u0_s());
            Ops::u0_identity(self.data@[2 * k + 1], Ops::u0_s());
        }
    }

    /// Every node of the arena lies in the root's subtree.
    proof fn lemma_in_sub_root(self, m: nat)
        requires
            m >= 1,
        ensures
            in_sub(m, 1),
        decreases m,
    {
        if m > 1 {
            self.lemma_in_sub_root(m / 2);
        }
    }

    /// Builds a tree over the given initial values.
    pub fn new(v: Vec<T>) -> (r: Self)
        requires
            v@.len() <= 0x4000_0000,
        ensures
            r.wf(),
            r.wf_shape(),
            r.model() == v@,
            r.lazy_clear(),
            r.freshly_built(),
            r.model().len() == v@.len(),
            r.leaves().subrange(0, v@.len() as int) == v@,
    {
        let n = v.len();
        let mut size: usize = 1;
        let mut height: usize = 0;
        proof {
            vstd::arithmetic::power2::lemma2_to64();
            vstd::arithmetic::power2::lemma2_to64_rest();
        }
        while size < n
            invariant
                1 <= size <= 0x4000_0000,
                n <= 0x4000_0000,
                size == pow2(height as nat),
                height <= 30,
            decreases 2 * n - size,
        {
            proof {
                vstd::arithmetic::power2::lemma2_to64();
                vstd::arithmetic::power2::lemma2_to64_rest();
                if height >= 30 {
                    if height > 30 {
                        vstd::arithmetic::power2::lemma_pow2_strictly_increases(
                            30,
                            height as nat,
                        );
                    }
                    assert(false);
                }
                vstd::arithmetic::power2::lemma_pow2_unfold(height as nat + 1);
                assert(2 * size == pow2(height as nat + 1));
                if height as nat + 1 < 30 {
                    vstd::arithmetic::power2::lemma_pow2_strictly_increases(
                        height as nat + 1,
                        30,
                    );
                }
            }
            size = size * 2;
            height = height + 1;
        }
        let mut data: Vec<T> = Vec::new();
        let mut lazy: Vec<U> = Vec::new();
        let t0 = Ops::t0();
        let u0 = Ops::u0();
        let mut k: usize = 0;
        while k < 2 * size
            invariant
                data@.len() == k,
                lazy@.len() == k,
                k <= 2 * size,
                size <= 0x4000_0000,
                t0 == Ops::t0_s(),
                u0 == Ops::u0_s(),
                forall|j: int| 0 <= j < k ==> data@[j] == Ops::t0_s(),
                forall|j: int| 0 <= j < k ==> lazy@[j] == Ops::u0_s(),
            decreases 2 * size - k,
        {
            data.push(t0);
            lazy.push(u0);
            k = k + 1;
        }
        let mut i: usize = 0;
        while i < n
            invariant
                i <= n,
                n <= size <= 0x4000_0000,
                data@.len() == 2 * size,
                n == v@.len(),
                forall|j: int| 0 <= j < i ==> data@[size + j] == v@[j],
                forall|j: int| i <= j < size ==> #[trigger] data@[size + j] == Ops::t0_s(),
                forall|j: int| 0 <= j < size ==> #[trigger] data@[j] == Ops::t0_s(),
            decreases n - i,
        {
            let val = v[i];
            data.set(size + i, val);
            i = i + 1;
        }
        let mut r = LazySegTree {
            n,
            size,
            height,
            data,
            lazy,
            ops: core::marker::PhantomData,
        };
        r.build_inner();
        proof {
            r.lemma_built_coherent();
            r.lemma_model_of_clear();
            assert(r.leaves().subrange(0, n as int) =~= v@);
            assert(r.model() =~= v@);
        }
        r
    }

    /// Overwrites the raw leaf `k`; aggregates are not recomputed until
    /// [`LazySegTree::build`] runs.
    pub fn set(&mut self, k: usize, v: T)
        requires
            old(self).wf_shape(),
            old(self).lazy_clear(),
            k < old(self).model().len(),
        ensures
            final(self).wf_shape(),
            final(self).lazy_clear(),
            final(self).model() == old(self).model().update(k as int, v),
            final(self).model().len() == old(self).model().len(),
            final(self).leaves() == old(self).leaves().update(k as int, v),
    {
        proof {
            assert(old(self).model().len() == self.n);
            old(self).lemma_model_of_clear();
        }
        let idx = k + self.size;
        self.data.set(idx, v);
        proof {
            assert(self.leaves() =~= old(self).leaves().update(k as int, v));
            self.lemma_model_of_clear();
            assert(self.model() =~= old(self).model().update(k as int, v));
        }
    }

    /// Recomputes every inner aggregate bottom-up from the leaf row.
    pub fn build(&mut self)
        requires
            old(self).wf_shape(),
            old(self).lazy_clear(),
        ensures
            final(self).wf(),
            final(self).wf_shape(),
            final(self).lazy_clear(),
            final(self).freshly_built(),
            final(self).leaves() == old(self).leaves(),
            final(self).model() == old(self).leaves().subrange(0, old(self).model().len() as int),
            final(self).model().len() == old(self).model().len(),
    {
        self.build_inner();
        proof {
            self.lemma_built_coherent();
            self.lemma_model_of_clear();
            assert(self.leaves() =~= old(self).leaves());
        }
    }

    /// Bottom-up recomputation of the inner nodes.
    fn build_inner(&mut self)
        requires
            old(self).wf_shape(),
        ensures
            final(self).wf_shape(),
            final(self).n == old(self).n,
            final(self).size == old(self).size,
            final(self).height == old(self).height,
            final(self).lazy == old(self).lazy,
            final(self).leaves() == old(self).leaves(),
            final(self).freshly_built(),
    {
        let size = self.size;
        let mut k: usize = size;
        while k > 1
            invariant
                self.wf_shape(),
                1 <= k <= size,
                size == self.size,
                self.n == old(self).n,
                self.height == old(self).height,
                self.lazy == old(self).lazy,
                self.data@.len() == 2 * size,
                forall|j: int| size <= j < 2 * size ==> self.data@[j] == old(self).data@[j],
                forall|j: int|
                    k <= j < size ==> self.data@[j] == Ops::combine_s(
                        #[trigger] self.data@[2 * j],
                        self.data@[2 * j + 1],
                    ),
            decreases k,
        {
            k = k - 1;
            let a = self.data[2 * k];
            let b = self.data[2 * k + 1];
            let c = Ops::combine(a, b);
            self.data.set(k, c);
        }
        proof {
            assert(self.leaves() =~= old(self).leaves());
        }
    }

    /// Applies `u` to every model element in `[l, r)`; other elements and
    /// the logical length are untouched.  Empty or reversed ranges are
    /// rejected as [`TreeError::InvalidRange`], ranges past the logical
    /// length as [`TreeError::IndexOutOfBounds`]; on an error the tree is
    /// left unmodified.
    #[verifier::spinoff_prover]
    pub fn update(&mut self, left: usize, right: usize, value: U) -> (res: Result<(), TreeError>)
        requires
            old(self).wf(),
        ensures
            final(self).wf(),
            final(self).wf_shape(),
            final(self).model().len() == old(self).model().len(),
            res == Ok::<(), TreeError>(()) <==> (left < right && right
                <= old(self).model().len()),
            left >= right ==> res == Err::<(), TreeError>(TreeError::InvalidRange),
            left < right && right > old(self).model().len() ==> res == Err::<(), TreeError>(
                TreeError::IndexOutOfBounds,
            ),
            res is Err ==> *final(self) == *old(self),
            res == Ok::<(), TreeError>(()) ==> final(self).model() == Seq::new(
                old(self).model().len(),
                |i: int|
                    if left <= i < right {
                        Ops::apply_s(old(self).model()[i], value)
                    } else {
                        old(self).model()[i]
                    },
            ),
    {
        if left >= right {
            return Err(TreeError::InvalidRange);
        }
        if right > self.n {
            return Err(TreeError::IndexOutOfBounds);
        }
        proof {
            assert forall|m: nat| 1 <= m < old(self).size implies in_sub(m, 1) by {
                old(self).lemma_in_sub_root(m);
            }
        }
        let ghost e = self.height as nat;
        let size = self.size;
        self.update_rec(1, 0, size, left, right, value, Ghost(e));
        proof {
            let s0 = *old(self);
            let s1 = *self;
            assert forall|m: nat| 1 <= m < s1.size implies in_sub(m, 1) by {
                s1.lemma_in_sub_root(m);
            }
            assert(s1.coherent()) by {
                if distributive::<T, U, Ops>() {
                    assert forall|m: int| 1 <= m < s1.size implies #[trigger] s1.coh_at(m) by {
                        assert(in_sub(m as nat, 1));
                    }
                }
            }
            assert forall|i: int| 0 <= i < s1.n implies s1.model()[i] == (if left <= i < right {
                Ops::apply_s(s0.model()[i], value)
            } else {
                s0.model()[i]
            }) by {
                let j = (s1.size + i) as nat;
                assert(in_sub(j, 1)) by {
                    s1.lemma_in_sub_root(j);
                }
                assert(s1.sub_leaf(j, 1) == if s1.size + left <= j < s1.size + right {
                    Ops::apply_s(s0.sub_leaf(j, 1), value)
                } else {
                    s0.sub_leaf(j, 1)
                });
            }
            assert(s1.model() =~= Seq::new(
                s0.model().len(),
                |i: int|
                    if left <= i < right {
                        Ops::apply_s(s0.model()[i], value)
                    } else {
                        s0.model()[i]
                    },
            ));
        }
        Ok(())
    }

    /// Recursive range update on the subtree of `k`, whose leaf block is
    /// `[nl, nr)` in logical coordinates: composes `value` into the tags of
    /// the canonical cover of `[l, r)`, keeping the rest of the arena and
    /// every leaf outside `[l, r)` semantically unchanged.
    #[verifier::spinoff_prover]
    #[verifier::rlimit(100)]
    fn update_rec(
        &mut self,
        k: usize,
        nl: usize,
        nr: usize,
        l: usize,
        r: usize,
        value: U,
        Ghost(e): Ghost<nat>,
    )
        requires
            old(self).wf_shape(),
            old(self).coherent_in(k as nat),
            1 <= k < 2 * old(self).size,
            pow2(e) == nr - nl,
            old(self).size + nl == k * pow2(e),
            nl < nr <= old(self).size,
            l < r <= old(self).size,
        ensures
            final(self).wf_shape(),
            final(self).n == old(self).n,
            final(self).size == old(self).size,
            final(self).height == old(self).height,
            final(self).coherent_in(k as nat),
            forall|m: int|
                0 <= m < 2 * old(self).size && !in_sub(m as nat, k as nat)
                    ==> final(self).data@[m] == old(self).data@[m] && final(self).lazy@[m]
                    == old(self).lazy@[m],
            forall|j: nat|
                old(self).size + nl <= j < old(self).size + nr
                    ==> #[trigger] final(self).sub_leaf(j, k as nat) == (
                if old(self).size + l <= j < old(self).size + r {
                    Ops::apply_s(old(self).sub_leaf(j, k as nat), value)
                } else {
                    old(self).sub_leaf(j, k as nat)
                }),
        decreases e,
    {
        proof {
            vstd::arithmetic::power2::lemma_pow2_pos(e);
            assert(pow2(e) * (k as nat) == (k as nat) * pow2(e) && pow2(e) * (k as nat + 1) == (
            k as nat) * pow2(e) + pow2(e)) by (nonlinear_arith);
        }
        if r <= nl || nr <= l {
            return;
        }
        if l <= nl && nr <= r {
            let lz = self.lazy[k];
            let composed = Ops::compose(lz, value);
            self.lazy.set(k, composed);
            proof {
                let s0 = *old(self);
                let s1 = *self;
                assert forall|j: nat|
                    s0.size + nl <= j < s0.size + nr implies #[trigger] s1.sub_leaf(j, k as nat)
                        == Ops::apply_s(s0.sub_leaf(j, k as nat), value) by {
                    lemma_range_in_sub(j, k as nat, e);
                    s0.lemma_chain_retag(s1, s0.data@[j as int], j, k as nat, value);
                }
                // coherence: no data slot and no tag below k changed
                if distributive::<T, U, Ops>() {
                    assert forall|m: nat|
                        1 <= m < s1.size && #[trigger] in_sub(m, k as nat) implies s1.coh_at(
                        m as int,
                    ) by {
                        lemma_in_sub_geq(m, k as nat);
                        if 2 * m == k as nat || 2 * m + 1 == k as nat {
                            assert(m < k as nat);
                            assert(false);
                        }
                        assert(s1.node_v(2 * m as int) == s0.node_v(2 * m as int));
                        assert(s1.node_v(2 * m as int + 1) == s0.node_v(2 * m as int + 1));
                    }
                }
            }
            return;
        }
        proof {
            // a partially overlapped node is never a leaf
            if e == 0 {
                assert(nr - nl == 1) by {
                    vstd::arithmetic::power2::lemma2_to64();
                }
                assert(false);
            }
            vstd::arithmetic::power2::lemma_pow2_unfold(e);
            vstd::arithmetic::power2::lemma_pow2_pos((e - 1) as nat);
            // the node is internal
            assert(2 * (k as int) * pow2((e - 1) as nat) == k as int * pow2(e)
                && (2 * (k as int) + 1) * pow2((e - 1) as nat) == 2 * (k as int) * pow2(
                (e - 1) as nat,
            ) + pow2((e - 1) as nat)
                && (2 * (k as int) + 1) * pow2((e - 1) as nat) + pow2((e - 1) as nat) == (
            k as int + 1) * pow2(e)) by (nonlinear_arith)
                requires
                    pow2(e) == 2 * pow2((e - 1) as nat),
            ;
            let gsize = old(self).size;
            assert(k < gsize) by (nonlinear_arith)
                requires
                    gsize + nl == k * pow2(e),
                    nr <= gsize,
                    pow2(e) == nr - nl,
                    pow2(e) >= 2,
                    gsize >= 1,
                    k >= 1,
            ;
        }
        let mid = nl + (nr - nl) / 2;
        let ghost s0 = *old(self);
        self.propagate(k);
        let ghost s1 = *self;
        proof {
            assert(s1.coherent_in((2 * k) as nat)) by {
                if distributive::<T, U, Ops>() {
                    assert forall|m: nat|
                        1 <= m < s1.size && #[trigger] in_sub(m, (2 * k) as nat) implies
                        s1.coh_at(m as int) by {
                        lemma_in_sub_child(m, 2 * (k as nat), k as nat);
                        assert(s0.coh_at(m as int));
                    }
                }
            }
        }
        self.update_rec(2 * k, nl, mid, l, r, value, Ghost((e - 1) as nat));
        let ghost s2 = *self;
        proof {
            assert(s2.coherent_in((2 * k + 1) as nat)) by {
                if distributive::<T, U, Ops>() {
                    assert forall|m: nat|
                        1 <= m < s2.size && #[trigger] in_sub(m, (2 * k + 1) as nat) implies
                        s2.coh_at(m as int) by {
                        let kk = k as nat;
                    lemma_in_sub_child(m, 2 * kk + 1, kk);
                    assert(s0.coh_at(m as int));
                    assert(s1.coh_at(m as int));
                    assert(in_sub(m, m));
                    assert(in_sub(2 * m, m) && in_sub(2 * m + 1, m));
                    lemma_in_sub_trans(2 * m, m, 2 * kk + 1);
                    lemma_in_sub_trans(2 * m + 1, m, 2 * kk + 1);
                        assert(!in_sub(m, 2 * kk) && !in_sub(2 * m, 2 * kk) && !in_sub(
                            2 * m + 1,
                            2 * kk,
                        )) by {
                            lemma_in_sub_sibling(m, kk);
                            lemma_in_sub_sibling(2 * m, kk);
                            lemma_in_sub_sibling(2 * m + 1, kk);
                        }
                    }
                }
            }
        }
        self.update_rec(2 * k + 1, mid, nr, l, r, value, Ghost((e - 1) as nat));
        let ghost s3 = *self;
        let a = self.reflect(2 * k);
        let b = self.reflect(2 * k + 1);
        let c = Ops::combine(a, b);
        self.data.set(k, c);
        proof {
            let s4 = *self;
            let kk = k as nat;
            let size = s0.size;
            assert(in_sub(kk, kk));
            assert(in_sub(2 * kk, kk) && in_sub(2 * kk + 1, kk));
            // frames: k and its tag survive the recursive calls untouched
            assert(!in_sub(k as nat, 2 * kk) && !in_sub(k as nat, 2 * kk + 1)) by {
                if in_sub(kk, 2 * kk) {
                    lemma_in_sub_geq(kk, 2 * kk);
                }
                if in_sub(kk, 2 * kk + 1) {
                    lemma_in_sub_geq(kk, 2 * kk + 1);
                }
            }
            assert(s3.lazy@[k as int] == Ops::u0_s());
            // the sibling passes leave each half's tags alone
            assert forall|m: nat|
                #[trigger] in_sub(m, 2 * kk) && m < s2.lazy@.len() implies s2.lazy@[m as int]
                == s3.lazy@[m as int] by {
                if in_sub(m, 2 * kk + 1) {
                    lemma_in_sub_sibling(m, kk);
                }
            }
            assert forall|m: nat|
                #[trigger] in_sub(m, 2 * kk + 1) && m < s1.lazy@.len() implies s1.lazy@[m as int]
                == s2.lazy@[m as int] by {
                if in_sub(m, 2 * kk) {
                    lemma_in_sub_sibling(m, kk);
                }
            }
            // each half's leaves got the update exactly on [l, r)
            assert forall|j: nat|
                size + nl <= j < size + nr implies #[trigger] s4.sub_leaf(j, kk) == (if size + l
                <= j < size + r {
                Ops::apply_s(s0.sub_leaf(j, kk), value)
            } else {
                s0.sub_leaf(j, kk)
            }) by {
                let p = pow2((e - 1) as nat);
                assert(p * (2 * kk) == 2 * (kk * p) && p * (2 * kk + 1) == 2 * (kk * p) + p && p
                    * (2 * kk + 2) == 2 * (kk * p) + 2 * p && kk * (2 * p) == 2 * (kk * p))
                    by (nonlinear_arith);
                let mapped = size + l <= j < size + r;
                if j < size + mid {
                    lemma_in_sub_leaf_range(j, 2 * kk, (e - 1) as nat, size as nat);
                    assert(in_sub(j, 2 * kk));
                    assert(!in_sub(j, 2 * kk + 1)) by {
                        lemma_in_sub_sibling(j, kk);
                    }
                    lemma_in_sub_child(j, 2 * kk, kk);
                    Self::lemma_join_leaf(s1, s1, s2, s3, s4, kk, 2 * kk, j, mapped, value);
                } else {
                    lemma_in_sub_leaf_range(j, 2 * kk + 1, (e - 1) as nat, size as nat);
                    assert(in_sub(j, 2 * kk + 1));
                    assert(!in_sub(j, 2 * kk)) by {
                        lemma_in_sub_sibling(j, kk);
                    }
                    lemma_in_sub_child(j, 2 * kk + 1, kk);
                    Self::lemma_join_leaf(s1, s2, s3, s3, s4, kk, 2 * kk + 1, j, mapped, value);
                }
                assert(s1.sub_leaf(j, kk) == s0.sub_leaf(j, kk));
            }
            // frame: nothing outside the subtree of k moved
            assert forall|m: int|
                0 <= m < 2 * s0.size && !in_sub(m as nat, kk) implies s4.data@[m]
                == s0.data@[m] && s4.lazy@[m] == s0.lazy@[m] by {
                if in_sub(m as nat, 2 * kk) {
                    lemma_in_sub_child(m as nat, 2 * kk, kk);
                }
                if in_sub(m as nat, 2 * kk + 1) {
                    lemma_in_sub_child(m as nat, 2 * kk + 1, kk);
                }
                assert(m != k as int && m != 2 * k as int && m != 2 * k as int + 1);
            }
            // coherence within the subtree
            if distributive::<T, U, Ops>() {
                Self::lemma_join_coherence(s2, s3, s4, kk);
            }
        }
    }

    /// After both children of `k` have restored coherence in their own
    /// subtrees and `k`'s cache was recomputed from them, the whole subtree
    /// of `k` is coherent again.
    #[verifier::spinoff_prover]
    proof fn lemma_join_coherence(s2: Self, s3: Self, s4: Self, k: nat)
        requires
            distributive::<T, U, Ops>(),
            k >= 1,
            s2.size == s3.size,
            s3.size == s4.size,
            k < s2.size,
            s2.data@.len() == 2 * s2.size,
            s2.lazy@.len() == 2 * s2.size,
            s3.data@.len() == 2 * s2.size,
            s3.lazy@.len() == 2 * s2.size,
            s4.data@.len() == 2 * s2.size,
            s4.lazy@.len() == 2 * s2.size,
            s2.coherent_in(2 * k),
            s3.coherent_in(2 * k + 1),
            forall|m: int|
                0 <= m < 2 * s2.size && !in_sub(m as nat, 2 * k + 1) ==> s3.data@[m]
                    == s2.data@[m] && s3.lazy@[m] == s2.lazy@[m],
            s4.lazy@ == s3.lazy@,
            s4.data@ == s3.data@.update(
                k as int,
                Ops::combine_s(s3.node_v(2 * k as int), s3.node_v(2 * k as int + 1)),
            ),
        ensures
            forall|m: nat| 1 <= m < s4.size && #[trigger] in_sub(m, k) ==> s4.coh_at(m as int),
    {
        let kk = k;
        assert forall|m: nat|
            1 <= m < s4.size && #[trigger] in_sub(m, kk) implies s4.coh_at(m as int) by {
            if m == kk {
                assert(s4.data@[k as int] == Ops::combine_s(
                    s3.node_v(2 * k as int),
                    s3.node_v(2 * k as int + 1),
                ));
                assert(s4.node_v(2 * k as int) == s3.node_v(2 * k as int));
                assert(s4.node_v(2 * k as int + 1) == s3.node_v(2 * k as int + 1));
            } else {
                lemma_in_sub_step(m, kk);
                let cm: nat = if in_sub(m, 2 * kk) {
                    2 * kk
                } else {
                    2 * kk + 1
                };
                lemma_in_sub_child(m, cm, kk);
                lemma_in_sub_geq(m, cm);
                assert(in_sub(m, m));
                assert(in_sub(2 * m, m) && in_sub(2 * m + 1, m));
                lemma_in_sub_trans(2 * m, m, cm);
                lemma_in_sub_trans(2 * m + 1, m, cm);
                if cm == 2 * kk {
                    assert(s2.coh_at(m as int));
                    assert(!in_sub(m, 2 * kk + 1) && !in_sub(2 * m, 2 * kk + 1) && !in_sub(
                        2 * m + 1,
                        2 * kk + 1,
                    )) by {
                        lemma_in_sub_sibling(m, kk);
                        lemma_in_sub_sibling(2 * m, kk);
                        lemma_in_sub_sibling(2 * m + 1, kk);
                    }
                    assert(s3.coh_at(m as int));
                    assert(m != kk && 2 * m != kk && 2 * m + 1 != kk) by {
                        lemma_in_sub_geq(m, kk);
                    }
                    assert(s4.coh_at(m as int));
                } else {
                    assert(s3.coh_at(m as int));
                    assert(m != kk && 2 * m != kk && 2 * m + 1 != kk) by {
                        lemma_in_sub_geq(m, kk);
                    }
                    assert(s4.coh_at(m as int));
                }
            }
        }
    }

    /// One leaf of a freshly updated child subtree, seen from the parent:
    /// the tag at `k` is clear throughout, the sibling pass did not touch
    /// the chain, so the leaf's parent-local value is the child-local one.
    #[verifier::spinoff_prover]
    proof fn lemma_join_leaf(
        s1: Self,
        spre: Self,
        spost: Self,
        s3: Self,
        s4: Self,
        k: nat,
        c: nat,
        j: nat,
        mapped: bool,
        value: U,
    )
        requires
            k >= 1,
            c == 2 * k || c == 2 * k + 1,
            in_sub(j, c),
            j < s1.lazy@.len(),
            k < s1.lazy@.len(),
            s1.lazy@.len() == spre.lazy@.len(),
            s1.lazy@.len() == spost.lazy@.len(),
            s1.lazy@.len() == s3.lazy@.len(),
            s1.lazy@.len() == s4.lazy@.len(),
            j < s1.data@.len(),
            j < spost.data@.len(),
            spre.data@[j as int] == s1.data@[j as int],
            s3.data@[j as int] == spost.data@[j as int],
            s4.data@[j as int] == s3.data@[j as int],
            s1.lazy@[k as int] == Ops::u0_s(),
            s3.lazy@[k as int] == Ops::u0_s(),
            s4.lazy@ == s3.lazy@,
            // the pass before this child's update agreed on the child subtree
            forall|m: nat|
                #[trigger] in_sub(m, c) && m < s1.lazy@.len() ==> s1.lazy@[m as int]
                    == spre.lazy@[m as int],
            // the pass after it agreed on the child subtree as well
            forall|m: nat|
                #[trigger] in_sub(m, c) && m < s1.lazy@.len() ==> spost.lazy@[m as int]
                    == s3.lazy@[m as int],
            // the child's own contract
            spost.sub_leaf(j, c) == (if mapped {
                Ops::apply_s(spre.sub_leaf(j, c), value)
            } else {
                spre.sub_leaf(j, c)
            }),
        ensures
            s4.sub_leaf(j, k) == (if mapped {
                Ops::apply_s(s1.sub_leaf(j, k), value)
            } else {
                s1.sub_leaf(j, k)
            }),
    {
        let t1 = s1.data@[j as int];
        let tp = spost.data@[j as int];
        lemma_in_sub_child(j, c, k);
        assert forall|m: nat|
            in_sub(j, m) && #[trigger] in_sub(m, c) && m < s1.lazy@.len() implies s1.lazy@[
            m as int] == spre.lazy@[m as int] by {}
        s1.lemma_chain_agree(spre, t1, j, c);
        assert forall|m: nat|
            in_sub(j, m) && #[trigger] in_sub(m, c) && m < s1.lazy@.len() implies spost.lazy@[
            m as int] == s3.lazy@[m as int] by {}
        spost.lemma_chain_agree(s3, tp, j, c);
        s1.lemma_chain_split(t1, j, k, c);
        s3.lemma_chain_split(tp, j, k, c);
        s4.lemma_chain_split(tp, j, k, c);
        Ops::u0_identity(chain::<T, U, Ops>(s1.lazy@, t1, j, c), Ops::u0_s());
        Ops::u0_identity(chain::<T, U, Ops>(s3.lazy@, tp, j, c), Ops::u0_s());
    }

    /// The tags of the strict ancestors of `k`, applied to `t` deepest
    /// first.
    pub closed spec fn anc_chain(self, t: T, k: nat) -> T
        decreases k,
    {
        if k <= 1 {
            t
        } else {
            self.anc_chain(Ops::apply_s(t, self.lazy@[(k / 2) as int]), k / 2)
        }
    }

    /// The logical values of the leaves `[lo, hi)`.
    pub closed spec fn vals(self, lo: int, hi: int) -> Seq<T> {
        Seq::new((hi - lo) as nat, |i: int| self.leaf_full((self.size + lo + i) as nat))
    }

    /// The raw leaves of the depth-`e` block of node `k`, evaluated within
    /// `k`'s subtree.
    pub closed spec fn block_vals(self, k: nat, e: nat) -> Seq<T> {
        Seq::new(
            pow2(e),
            |i: int| self.sub_leaf((pow2(e) * k + i) as nat, k),
        )
    }

    /// A full chain splits into the part below `k` and the ancestors of `k`.
    proof fn lemma_chain_to_root(self, t: T, j: nat, k: nat)
        requires
            k >= 1,
            in_sub(j, k),
            j < self.lazy@.len(),
            k < self.lazy@.len(),
        ensures
            chain::<T, U, Ops>(self.lazy@, t, j, 1) == self.anc_chain(
                chain::<T, U, Ops>(self.lazy@, t, j, k),
                k,
            ),
        decreases k,
    {
        if k == 1 {
        } else {
            let p = k / 2;
            assert(k == 2 * p || k == 2 * p + 1);
            self.lemma_chain_split(t, j, p, k);
            lemma_in_sub_child(j, k, p);
            self.lemma_chain_to_root(t, j, p);
        }
    }

    /// Folding after applying the ancestor tags elementwise equals applying
    /// them once to the fold, for distributive operator packages.
    proof fn lemma_fold_anc_chain(self, s: Seq<T>, k: nat)
        requires
            s.len() >= 1,
            distributive::<T, U, Ops>(),
            k >= 1,
            k < self.lazy@.len(),
        ensures
            fold_seq::<T, Ops>(s.map_values(|x: T| self.anc_chain(x, k))) == self.anc_chain(
                fold_seq::<T, Ops>(s),
                k,
            ),
        decreases k,
    {
        if k == 1 {
            assert(s.map_values(|x: T| self.anc_chain(x, k)) =~= s);
        } else {
            let p = k / 2;
            let u = self.lazy@[p as int];
            let s2 = s.map_values(|x: T| Ops::apply_s(x, u));
            assert(s.map_values(|x: T| self.anc_chain(x, k)) =~= s2.map_values(
                |x: T| self.anc_chain(x, p),
            ));
            lemma_fold_map_apply::<T, U, Ops>(s, u);
            self.lemma_fold_anc_chain(s2, p);
        }
    }

    /// For distributive operator packages, a coherent node's true aggregate
    /// is the fold of its block of subtree-local leaf values.
    #[verifier::spinoff_prover]
    proof fn lemma_node_fold(self, k: nat, e: nat)
        requires
            self.wf_shape(),
            self.coherent_in(k),
            distributive::<T, U, Ops>(),
            k >= 1,
            self.size <= pow2(e) * k,
            pow2(e) * (k + 1) <= 2 * self.size,
        ensures
            self.node_v(k as int) == fold_seq::<T, Ops>(self.block_vals(k, e)),
        decreases e,
    {
        vstd::arithmetic::power2::lemma_pow2_pos(e);
        if e == 0 {
            assert(pow2(0) == 1) by {
                vstd::arithmetic::power2::lemma2_to64();
            }
            assert(pow2(0) * k == k) by (nonlinear_arith)
                requires
                    pow2(0) == 1,
            ;
            assert(self.block_vals(k, 0).len() == 1);
            assert(self.block_vals(k, 0)[0] == self.sub_leaf(k, k));
            lemma_fold_single::<T, Ops>(self.block_vals(k, 0));
        } else {
            let p = pow2((e - 1) as nat);
            assert(pow2(e) == 2 * p) by {
                vstd::arithmetic::power2::lemma_pow2_unfold(e);
            }
            vstd::arithmetic::power2::lemma_pow2_pos((e - 1) as nat);
            assert(p * (2 * k) == 2 * (p * k) && p * (2 * k + 1) == 2 * (p * k) + p && p * (2 * k
                + 2) == 2 * (p * k) + 2 * p && pow2(e) * k == 2 * (p * k) && pow2(e) * (k + 1)
                == 2 * (p * k) + 2 * p) by (nonlinear_arith)
                requires
                    pow2(e) == 2 * p,
            ;
            assert(k < self.size) by (nonlinear_arith)
                requires
                    self.size <= pow2(e) * k,
                    pow2(e) * (k + 1) <= 2 * self.size,
                    pow2(e) >= 2,
                    self.size >= 1,
                    k >= 1,
            ;
            assert(in_sub(k, k));
            assert(in_sub(2 * k, k) && in_sub(2 * k + 1, k));
            assert(self.coherent_in(2 * k)) by {
                assert forall|m: nat|
                    1 <= m < self.size && #[trigger] in_sub(m, 2 * k) implies self.coh_at(
                    m as int,
                ) by {
                    lemma_in_sub_child(m, 2 * k, k);
                }
            }
            assert(self.coherent_in(2 * k + 1)) by {
                assert forall|m: nat|
                    1 <= m < self.size && #[trigger] in_sub(m, 2 * k + 1) implies self.coh_at(
                    m as int,
                ) by {
                    lemma_in_sub_child(m, 2 * k + 1, k);
                }
            }
            self.lemma_node_fold(2 * k, (e - 1) as nat);
            self.lemma_node_fold(2 * k + 1, (e - 1) as nat);
            let u = self.lazy@[k as int];
            let a = self.block_vals(2 * k, (e - 1) as nat);
            let b = self.block_vals(2 * k + 1, (e - 1) as nat);
            let am = a.map_values(|x: T| Ops::apply_s(x, u));
            let bm = b.map_values(|x: T| Ops::apply_s(x, u));
            assert(self.block_vals(k, e) =~= am + bm) by {
                assert forall|i: int| 0 <= i < pow2(e) implies self.block_vals(k, e)[i] == (am
                    + bm)[i] by {
                    let j = (pow2(e) * k + i) as nat;
                    let c: nat = if i < p { 2 * k } else { 2 * k + 1 };
                    assert(in_sub(j, c)) by {
                        if i < p {
                            lemma_range_in_sub(j, 2 * k, (e - 1) as nat);
                        } else {
                            lemma_range_in_sub(j, 2 * k + 1, (e - 1) as nat);
                        }
                    }
                    self.lemma_chain_split(self.data@[j as int], j, k, c);
                }
            }
            lemma_fold_map_apply::<T, U, Ops>(a, u);
            lemma_fold_map_apply::<T, U, Ops>(b, u);
            lemma_fold_append::<T, Ops>(am, bm);
            assert(Ops::apply_s(
                Ops::combine_s(fold_seq::<T, Ops>(a), fold_seq::<T, Ops>(b)),
                u,
            ) == Ops::combine_s(
                Ops::apply_s(fold_seq::<T, Ops>(a), u),
                Ops::apply_s(fold_seq::<T, Ops>(b), u),
            ));
            assert(self.coh_at(k as int));
        }
    }

    /// Folds the logical values of `[left, right)`.  Rejected ranges leave
    /// an error exactly as [`LazySegTree::update`] does and the tree itself
    /// is never modified.  For distributive operator packages the result is
    /// the exact fold of the queried model slice; a single-element range
    /// yields that element's current value for every operator package.
    #[verifier::spinoff_prover]
    pub fn query(&mut self, left: usize, right: usize) -> (res: Result<T, TreeError>)
        requires
            old(self).wf(),
        ensures
            *final(self) == *old(self),
            final(self).wf_shape(),
            res is Ok <==> (left < right && right <= old(self).model().len()),
            left >= right ==> res == Err::<T, TreeError>(TreeError::InvalidRange),
            left < right && right > old(self).model().len() ==> res == Err::<T, TreeError>(
                TreeError::IndexOutOfBounds,
            ),
            res is Ok && distributive::<T, U, Ops>() ==> res == Ok::<T, TreeError>(
                fold_seq::<T, Ops>(old(self).model().subrange(left as int, right as int)),
            ),
            res is Ok && left + 1 == right ==> res == Ok::<T, TreeError>(
                old(self).model()[left as int],
            ),
    {
        if left >= right {
            return Err(TreeError::InvalidRange);
        }
        if right > self.n {
            return Err(TreeError::IndexOutOfBounds);
        }
        let u0 = Ops::u0();
        proof {
            assert forall|m: nat| 1 <= m < self.size implies in_sub(m, 1) by {
                self.lemma_in_sub_root(m);
            }
            assert forall|t: T| #[trigger] Ops::apply_s(t, u0) == self.anc_chain(t, 1nat) by {
                Ops::u0_identity(t, u0);
            }
        }
        let size = self.size;
        let ghost e = self.height as nat;
        let v = self.query_rec(1, 0, size, left, right, u0, Ghost(e));
        proof {
            if distributive::<T, U, Ops>() {
                assert(self.vals(left as int, right as int) =~= self.model().subrange(
                    left as int,
                    right as int,
                ));
            }
        }
        Ok(v)
    }

    /// Recursive range query over the subtree of `k` with leaf block
    /// `[nl, nr)`: accumulates the pending ancestor updates virtually in
    /// `pend` and never mutates the tree.
    #[verifier::spinoff_prover]
    fn query_rec(
        &self,
        k: usize,
        nl: usize,
        nr: usize,
        l: usize,
        r: usize,
        pend: U,
        Ghost(e): Ghost<nat>,
    ) -> (res: T)
        requires
            self.wf_shape(),
            self.coherent_in(k as nat),
            1 <= k < 2 * self.size,
            pow2(e) == nr - nl,
            self.size + nl == k * pow2(e),
            nl < nr <= self.size,
            l < r <= self.size,
            forall|t: T| #[trigger] Ops::apply_s(t, pend) == self.anc_chain(t, k as nat),
        ensures
            ({
                let lo = if l > nl { l as int } else { nl as int };
                let hi = if r < nr { r as int } else { nr as int };
                &&& (hi <= lo ==> res == Ops::t0_s())
                &&& (lo < hi && distributive::<T, U, Ops>() ==> res == fold_seq::<T, Ops>(
                    self.vals(lo, hi),
                ))
                &&& (lo < hi && hi - lo == 1 ==> res == self.leaf_full((self.size + lo) as nat))
            }),
        decreases e,
    {
        let ghost lo: int = if l > nl { l as int } else { nl as int };
        let ghost hi: int = if r < nr { r as int } else { nr as int };
        proof {
            vstd::arithmetic::power2::lemma_pow2_pos(e);
        }
        if r <= nl || nr <= l {
            return Ops::t0();
        }
        if l <= nl && nr <= r {
            let v = Ops::apply(self.data[k], self.lazy[k]);
            let res = Ops::apply(v, pend);
            proof {
                let kk = k as nat;
                assert(pow2(e) * kk == kk * pow2(e) && pow2(e) * (kk + 1) == kk * pow2(e) + pow2(
                    e,
                )) by (nonlinear_arith);
                assert(in_sub(kk, kk));
                assert(res == self.anc_chain(self.node_v(k as int), kk));
                if distributive::<T, U, Ops>() {
                    self.lemma_node_fold(kk, e);
                    let blk = self.block_vals(kk, e);
                    assert(self.vals(lo, hi) =~= blk.map_values(
                        |x: T| self.anc_chain(x, kk),
                    )) by {
                        assert forall|i: int| 0 <= i < pow2(e) implies self.vals(lo, hi)[i]
                            == self.anc_chain(blk[i], kk) by {
                            let j = (pow2(e) * kk + i) as nat;
                            lemma_range_in_sub(j, kk, e);
                            self.lemma_chain_to_root(self.data@[j as int], j, kk);
                        }
                    }
                    self.lemma_fold_anc_chain(blk, kk);
                }
                if hi - lo == 1 {
                    assert(pow2(e) == 1);
                    assert(kk == (self.size + nl) as nat);
                    assert(in_sub(kk, kk));
                    self.lemma_chain_to_root(self.data@[k as int], kk, kk);
                    assert(self.sub_leaf(kk, kk) == self.node_v(k as int));
                }
            }
            return res;
        }
        proof {
            if e == 0 {
                assert(nr - nl == 1) by {
                    vstd::arithmetic::power2::lemma2_to64();
                }
                assert(false);
            }
            vstd::arithmetic::power2::lemma_pow2_unfold(e);
            vstd::arithmetic::power2::lemma_pow2_pos((e - 1) as nat);
            assert(2 * (k as int) * pow2((e - 1) as nat) == k as int * pow2(e)
                && (2 * (k as int) + 1) * pow2((e - 1) as nat) == 2 * (k as int) * pow2(
                (e - 1) as nat,
            ) + pow2((e - 1) as nat)
                && (2 * (k as int) + 1) * pow2((e - 1) as nat) + pow2((e - 1) as nat) == (
            k as int + 1) * pow2(e)) by (nonlinear_arith)
                requires
                    pow2(e) == 2 * pow2((e - 1) as nat),
            ;
            let gsize = self.size;
            assert(k < gsize) by (nonlinear_arith)
                requires
                    gsize + nl == k * pow2(e),
                    nr <= gsize,
                    pow2(e) == nr - nl,
                    pow2(e) >= 2,
                    gsize >= 1,
                    k >= 1,
            ;
            assert(self.coherent_in((2 * k) as nat)) by {
                if distributive::<T, U, Ops>() {
                    assert forall|m: nat|
                        1 <= m < self.size && #[trigger] in_sub(m, (2 * k) as nat) implies
                        self.coh_at(m as int) by {
                        lemma_in_sub_child(m, 2 * (k as nat), k as nat);
                    }
                }
            }
            assert(self.coherent_in((2 * k + 1) as nat)) by {
                if distributive::<T, U, Ops>() {
                    assert forall|m: nat|
                        1 <= m < self.size && #[trigger] in_sub(m, (2 * k + 1) as nat) implies
                        self.coh_at(m as int) by {
                        lemma_in_sub_child(m, 2 * (k as nat) + 1, k as nat);
                    }
                }
            }
        }
        let lk = self.lazy[k];
        let pend2 = Ops::compose(lk, pend);
        proof {
            assert forall|t: T| #[trigger] Ops::apply_s(t, pend2) == self.anc_chain(
                t,
                (2 * k) as nat,
            ) by {
                Ops::composition_law(t, lk, pend);
                assert(Ops::apply_s(Ops::apply_s(t, lk), pend) == self.anc_chain(
                    Ops::apply_s(t, lk),
                    k as nat,
                ));
                assert((2 * k) as nat / 2 == k as nat);
            }
            assert forall|t: T| #[trigger] Ops::apply_s(t, pend2) == self.anc_chain(
                t,
                (2 * k + 1) as nat,
            ) by {
                Ops::composition_law(t, lk, pend);
                assert(Ops::apply_s(Ops::apply_s(t, lk), pend) == self.anc_chain(
                    Ops::apply_s(t, lk),
                    k as nat,
                ));
                assert((2 * k + 1) as nat / 2 == k as nat);
            }
        }
        let mid = nl + (nr - nl) / 2;
        let a = self.query_rec(2 * k, nl, mid, l, r, pend2, Ghost((e - 1) as nat));
        let b = self.query_rec(2 * k + 1, mid, nr, l, r, pend2, Ghost((e - 1) as nat));
        let res = Ops::combine(a, b);
        proof {
            let loa: int = if l > nl { l as int } else { nl as int };
            let hia: int = if (r as int) < (mid as int) { r as int } else { mid as int };
            let lob: int = if (l as int) > (mid as int) { l as int } else { mid as int };
            let hib: int = if r < nr { r as int } else { nr as int };
            if hia <= loa {
                // left window empty: the whole intersection is on the right
                Ops::t0_identity(b);
                assert(lob == lo && hib == hi);
            } else if hib <= lob {
                Ops::t0_identity(a);
                assert(loa == lo && hia == hi);
            } else {
                assert(loa == lo && hia == mid && lob == mid && hib == hi);
                if distributive::<T, U, Ops>() {
                    assert(self.vals(lo, hi) =~= self.vals(lo, mid as int) + self.vals(
                        mid as int,
                        hi,
                    ));
                    lemma_fold_append::<T, Ops>(
                        self.vals(lo, mid as int),
                        self.vals(mid as int, hi),
                    );
                }
                assert(hi - lo >= 2);
            }
        }
        res
    }

    /// Chains agree when the tags on the path from `j` to `k` agree.
    proof fn lemma_chain_agree(self, other: Self, t: T, j: nat, k: nat)
        requires
            k >= 1,
            in_sub(j, k),
            j < self.lazy@.len(),
            self.lazy@.len() == other.lazy@.len(),
            forall|m: nat|
                in_sub(j, m) && #[trigger] in_sub(m, k) && m < self.lazy@.len()
                    ==> self.lazy@[m as int] == other.lazy@[m as int],
        ensures
            chain::<T, U, Ops>(self.lazy@, t, j, k) == chain::<T, U, Ops>(other.lazy@, t, j, k),
        decreases j,
    {
        lemma_in_sub_geq(j, k);
        if j <= k {
            assert(in_sub(k, k) && in_sub(j, k));
        } else {
            assert(in_sub(j, j));
            assert forall|m: nat|
                in_sub(j / 2, m) && #[trigger] in_sub(m, k) && m < self.lazy@.len()
                    implies self.lazy@[m as int] == other.lazy@[m as int] by {
                assert(in_sub(j, m));
            }
            self.lemma_chain_agree(other, Ops::apply_s(t, self.lazy@[j as int]), j / 2, k);
        }
    }

    /// Splitting a chain at a child of its top node.
    proof fn lemma_chain_split(self, t: T, j: nat, k: nat, c: nat)
        requires
            k >= 1,
            c == 2 * k || c == 2 * k + 1,
            in_sub(j, c),
            j < self.lazy@.len(),
            k < self.lazy@.len(),
        ensures
            chain::<T, U, Ops>(self.lazy@, t, j, k) == Ops::apply_s(
                chain::<T, U, Ops>(self.lazy@, t, j, c),
                self.lazy@[k as int],
            ),
        decreases j,
    {
        lemma_in_sub_geq(j, c);
        if j == c {
            assert(c / 2 == k);
            assert(chain::<T, U, Ops>(self.lazy@, t, j, k) == chain::<T, U, Ops>(
                self.lazy@,
                Ops::apply_s(t, self.lazy@[j as int]),
                k,
                k,
            ));
            assert(chain::<T, U, Ops>(self.lazy@, Ops::apply_s(t, self.lazy@[j as int]), k, k)
                == Ops::apply_s(Ops::apply_s(t, self.lazy@[j as int]), self.lazy@[k as int]));
            assert(chain::<T, U, Ops>(self.lazy@, t, j, c) == Ops::apply_s(
                t,
                self.lazy@[c as int],
            ));
        } else {
            self.lemma_chain_split(Ops::apply_s(t, self.lazy@[j as int]), j / 2, k, c);
        }
    }

    /// Composing a further update into the top tag applies it after the
    /// whole chain.
    proof fn lemma_chain_retag(self, other: Self, t: T, j: nat, k: nat, u: U)
        requires
            k >= 1,
            in_sub(j, k),
            j < self.lazy@.len(),
            k < self.lazy@.len(),
            other.lazy@ == self.lazy@.update(
                k as int,
                Ops::compose_s(self.lazy@[k as int], u),
            ),
        ensures
            chain::<T, U, Ops>(other.lazy@, t, j, k) == Ops::apply_s(
                chain::<T, U, Ops>(self.lazy@, t, j, k),
                u,
            ),
        decreases j,
    {
        lemma_in_sub_geq(j, k);
        if j <= k {
            Ops::composition_law(t, self.lazy@[k as int], u);
        } else {
            self.lemma_chain_retag(other, Ops::apply_s(t, self.lazy@[j as int]), j / 2, k, u);
        }
    }

    /// True aggregate of node `k`, tag included.
    fn reflect(&self, k: usize) -> (r: T)
        requires
            self.wf_shape(),
            1 <= k < 2 * self.size,
        ensures
            r == self.node_v(k as int),
    {
        Ops::apply(self.data[k], self.lazy[k])
    }

    /// Pushes the tag of inner node `k` one level down, restoring untagged
    /// data at `k` while preserving every subtree-local leaf value and
    /// every coherence fact.
    #[verifier::spinoff_prover]
    fn propagate(&mut self, k: usize)
        requires
            old(self).wf_shape(),
            1 <= k < old(self).size,
        ensures
            final(self).wf_shape(),
            final(self).n == old(self).n,
            final(self).size == old(self).size,
            final(self).height == old(self).height,
            forall|m: int|
                0 <= m < 2 * old(self).size && m != k && m != 2 * k && m != 2 * k + 1
                    ==> final(self).data@[m] == old(self).data@[m] && final(self).lazy@[m]
                    == old(self).lazy@[m],
            final(self).data@[2 * k as int] == old(self).data@[2 * k as int],
            final(self).data@[2 * k as int + 1] == old(self).data@[2 * k as int + 1],
            final(self).lazy@[k as int] == Ops::u0_s(),
            final(self).node_v(k as int) == old(self).node_v(k as int),
            forall|m: int|
                1 <= m < old(self).size && old(self).coh_at(m) && distributive::<T, U, Ops>()
                    ==> #[trigger] final(self).coh_at(m),
            forall|j: nat|
                (in_sub(j, 2 * k as nat) || in_sub(j, 2 * k as nat + 1)) && j < 2 * old(self).size
                    ==> #[trigger] final(self).sub_leaf(j, k as nat) == old(self).sub_leaf(
                    j,
                    k as nat,
                ),
    {
        let lk = self.lazy[k];
        let a = self.lazy[2 * k];
        let b = self.lazy[2 * k + 1];
        self.lazy.set(2 * k, Ops::compose(a, lk));
        self.lazy.set(2 * k + 1, Ops::compose(b, lk));
        let d = self.data[k];
        self.data.set(k, Ops::apply(d, lk));
        let u0 = Ops::u0();
        self.lazy.set(k, u0);
        proof {
            let s0 = *old(self);
            let s1 = *self;
            Ops::u0_identity(s1.data@[k as int], Ops::u0_s());
            // the node's true aggregate is unchanged
            assert(s1.node_v(k as int) == Ops::apply_s(s0.data@[k as int], s0.lazy@[k as int]));
            // coherence transfer
            assert forall|m: int|
                1 <= m < s0.size && s0.coh_at(m) && distributive::<T, U, Ops>()
                    implies #[trigger] s1.coh_at(m) by {
                if m == k {
                    Ops::composition_law(s0.data@[2 * m], s0.lazy@[2 * m], s0.lazy@[k as int]);
                    Ops::composition_law(
                        s0.data@[2 * m + 1],
                        s0.lazy@[2 * m + 1],
                        s0.lazy@[k as int],
                    );
                    assert(s1.node_v(2 * m) == Ops::apply_s(s0.node_v(2 * m), s0.lazy@[k as int]));
                    assert(s1.node_v(2 * m + 1) == Ops::apply_s(
                        s0.node_v(2 * m + 1),
                        s0.lazy@[k as int],
                    ));
                    assert(Ops::apply_s(
                        Ops::combine_s(s0.node_v(2 * m), s0.node_v(2 * m + 1)),
                        s0.lazy@[k as int],
                    ) == Ops::combine_s(s1.node_v(2 * m), s1.node_v(2 * m + 1)));
                } else {
                    if 2 * m == k {
                        assert(s1.node_v(2 * m) == s0.node_v(2 * m));
                        assert(s1.node_v(2 * m + 1) == s0.node_v(2 * m + 1));
                    } else if 2 * m + 1 == k {
                        assert(s1.node_v(2 * m) == s0.node_v(2 * m));
                        assert(s1.node_v(2 * m + 1) == s0.node_v(2 * m + 1));
                    } else {
                        assert(2 * m != 2 * k as int + 1 && 2 * m + 1 != 2 * k as int);
                        if 2 * m == 2 * k as int {
                            assert(m == k);
                        }
                        assert(s1.node_v(2 * m) == s0.node_v(2 * m));
                        assert(s1.node_v(2 * m + 1) == s0.node_v(2 * m + 1));
                    }
                }
            }
            // subtree-local leaf values are unchanged
            assert forall|j: nat|
                (in_sub(j, 2 * k as nat) || in_sub(j, 2 * k as nat + 1)) && j < 2 * s0.size
                    implies #[trigger] s1.sub_leaf(j, k as nat) == s0.sub_leaf(j, k as nat) by {
                let kk = k as nat;
                let c: nat = if in_sub(j, 2 * kk) { 2 * kk } else { 2 * kk + 1 };
                let co: nat = if in_sub(j, 2 * kk) { 2 * kk + 1 } else { 2 * kk };
                lemma_in_sub_child(j, c, kk);
                lemma_in_sub_geq(j, c);
                let t = s1.data@[j as int];
                assert(s0.data@[j as int] == t) by {
                    lemma_in_sub_geq(j, c);
                }
                s1.lemma_chain_split(t, j, kk, c);
                s0.lemma_chain_split(t, j, kk, c);
                Ops::u0_identity(chain::<T, U, Ops>(s1.lazy@, t, j, c), Ops::u0_s());
                // chains up to the child differ only in the child's own tag
                if j == c {
                    Ops::composition_law(t, s0.lazy@[c as int], s0.lazy@[k as int]);
                } else {
                    lemma_in_sub_step(j, c);
                    let cc: nat = if in_sub(j, 2 * c) {
                        2 * c
                    } else {
                        2 * c + 1
                    };
                    lemma_in_sub_child(j, cc, c);
                    s1.lemma_chain_split(t, j, c, cc);
                    s0.lemma_chain_split(t, j, c, cc);
                    assert forall|m: nat|
                        in_sub(j, m) && #[trigger] in_sub(m, cc) && m < s0.lazy@.len()
                            implies s0.lazy@[m as int] == s1.lazy@[m as int] by {
                        lemma_in_sub_geq(m, cc);
                    }
                    s0.lemma_chain_agree(s1, t, j, cc);
                    Ops::composition_law(
                        chain::<T, U, Ops>(s0.lazy@, t, j, cc),
                        s0.lazy@[c as int],
                        s0.lazy@[k as int],
                    );
                }
            }
        }
    }
}

} // verus!

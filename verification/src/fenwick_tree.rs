//! Fenwick tree (binary indexed tree) over a commutative monoid.
//!
//! Slot `i` (one-based) caches the fold of the logical positions
//! `[i - lowbit(i), i)`, where `lowbit(i)` is the largest power of two
//! dividing `i`.  The contracts speak about [`FenwickTree::model`], the
//! sequence of per-position aggregates: `add` folds a value into one
//! position and `sum` returns the exact fold of a logical prefix.

use vstd::prelude::*;

verus! {

use crate::ops::{AddOps, ComMonoidOps, MonoidOps, fold_seq, lemma_fold_absorb, lemma_fold_append,
    lemma_fold_identity};
use vstd::arithmetic::power2::pow2;

/// Number of trailing zero bits of a positive number.
pub open spec fn lowexp(i: nat) -> nat
    decreases i
        when i >= 1
{
    if i % 2 == 1 {
        0
    } else {
        1 + lowexp(i / 2)
    }
}

/// The largest power of two dividing a positive number.
pub open spec fn lowbit_spec(i: nat) -> nat {
    pow2(lowexp(i))
}

/// The low bit divides its number with an odd quotient and never exceeds
/// it.
proof fn lemma_lowbit_basic(i: nat)
    requires
        i >= 1,
    ensures
        1 <= lowbit_spec(i) <= i,
        i % lowbit_spec(i) == 0,
        (i / lowbit_spec(i)) % 2 == 1,
    decreases i,
{
    vstd::arithmetic::power2::lemma_pow2_pos(lowexp(i));
    if i % 2 == 1 {
        assert(pow2(0) == 1) by {
            vstd::arithmetic::power2::lemma2_to64();
        }
        assert(i % 1 == 0 && i / 1 == i) by (nonlinear_arith);
    } else {
        let h = i / 2;
        assert(i == 2 * h && h >= 1);
        lemma_lowbit_basic(h);
        let l = lowbit_spec(h);
        assert(lowbit_spec(i) == 2 * l) by {
            vstd::arithmetic::power2::lemma_pow2_unfold(lowexp(i));
        }
        vstd::arithmetic::div_mod::lemma_fundamental_div_mod(h as int, l as int);
        let q = h as int / l as int;
        assert(h == l * q);
        assert(i == (2 * l) * q) by (nonlinear_arith)
            requires
                i == 2 * h,
                h == l * q,
        ;
        assert(i % (2 * l) == 0 && i / (2 * l) == q) by (nonlinear_arith)
            requires
                i == (2 * l) * q,
                l >= 1,
                q >= 0,
        ;
        assert(2 * l <= i) by (nonlinear_arith)
            requires
                i == (2 * l) * q,
                q % 2 == 1,
                l >= 1,
        ;
    }
}

/// Shifting left by `e` bits adds `e` trailing zeros.
proof fn lemma_lowexp_shift(x: nat, e: nat)
    requires
        x >= 1,
    ensures
        lowexp(x * pow2(e)) == lowexp(x) + e,
    decreases e,
{
    vstd::arithmetic::power2::lemma_pow2_pos(e);
    if e == 0 {
        assert(pow2(0) == 1) by {
            vstd::arithmetic::power2::lemma2_to64();
        }
        assert(x * 1 == x) by (nonlinear_arith);
    } else {
        vstd::arithmetic::power2::lemma_pow2_unfold(e);
        vstd::arithmetic::power2::lemma_pow2_pos((e - 1) as nat);
        let y = x * pow2((e - 1) as nat);
        assert(x * pow2(e) == 2 * y && y >= 1) by (nonlinear_arith)
            requires
                pow2(e) == 2 * pow2((e - 1) as nat),
                y == x * pow2((e - 1) as nat),
                x >= 1,
                pow2((e - 1) as nat) >= 1,
        ;
        assert((2 * y) % 2 == 0) by (nonlinear_arith);
        assert(lowexp(2 * y) == 1 + lowexp((2 * y) / 2));
        assert((2 * y) / 2 == y) by (nonlinear_arith);
        lemma_lowexp_shift(x, (e - 1) as nat);
    }
}

/// An odd number shifted by `e` bits has exactly `e` trailing zeros.
proof fn lemma_lowexp_char(m: nat, e: nat)
    requires
        m >= 1,
        m % 2 == 1,
    ensures
        lowexp(m * pow2(e)) == e,
        lowbit_spec(m * pow2(e)) == pow2(e),
{
    lemma_lowexp_shift(m, e);
}

/// Climbing to the next covering slot moves the covered interval's start
/// downward (or keeps it): the update walk only ever visits slots whose
/// interval still contains the changed position.
proof fn lemma_climb(i: nat)
    requires
        i >= 1,
    ensures
        lowbit_spec((i + lowbit_spec(i)) as nat) >= 2 * lowbit_spec(i),
        i + lowbit_spec(i) - lowbit_spec((i + lowbit_spec(i)) as nat) <= i - lowbit_spec(i),
    decreases i,
{
    lemma_lowbit_basic(i);
    let e = lowexp(i);
    let l = lowbit_spec(i);
    let q = i / l;
    vstd::arithmetic::div_mod::lemma_fundamental_div_mod(i as int, l as int);
    assert(i == l * q);
    let i2 = (i + l) as nat;
    assert(i2 == (q + 1) * l) by (nonlinear_arith)
        requires
            i == l * q,
            i2 == i + l,
    ;
    assert((q + 1) % 2 == 0) by {
        assert(q % 2 == 1);
    }
    let q2 = ((q + 1) / 2) as nat;
    assert(q + 1 == 2 * q2 && q2 >= 1);
    lemma_lowbit_basic(q2 * 1);
    assert(q2 * 1 == q2) by (nonlinear_arith);
    let e2 = lowexp(q2);
    let l2 = lowbit_spec(q2);
    vstd::arithmetic::div_mod::lemma_fundamental_div_mod(q2 as int, l2 as int);
    let m = q2 / l2;
    assert(q2 == l2 * m);
    // i2 == m * 2^(e2 + 1 + e) with m odd
    assert(i2 == m * (pow2(e2 + 1 + e))) by {
        vstd::arithmetic::power2::lemma_pow2_adds(e2 + 1, e);
        vstd::arithmetic::power2::lemma_pow2_adds(e2, 1);
        assert(pow2(1) == 2) by {
            vstd::arithmetic::power2::lemma2_to64();
        }
        assert(i2 == (2 * q2) * l && q2 == l2 * m ==> i2 == m * (l2 * 2 * l))
            by (nonlinear_arith);
        assert(pow2(e2 + 1 + e) == l2 * 2 * l) by (nonlinear_arith)
            requires
                pow2(e2 + 1 + e) == pow2(e2 + 1) * pow2(e),
                pow2(e2 + 1) == pow2(e2) * pow2(1),
                pow2(1) == 2,
                l2 == pow2(e2),
                l == pow2(e),
        ;
    }
    lemma_lowexp_char(m, e2 + 1 + e);
    assert(lowbit_spec(i2) == pow2(e2 + 1 + e));
    assert(pow2(e2 + 1 + e) >= 2 * l) by {
        vstd::arithmetic::power2::lemma_pow2_adds(e2 + 1, e);
        vstd::arithmetic::power2::lemma_pow2_adds(e2, 1);
        assert(pow2(1) == 2) by {
            vstd::arithmetic::power2::lemma2_to64();
        }
        vstd::arithmetic::power2::lemma_pow2_pos(e2);
        assert(pow2(e2) * 2 * pow2(e) >= 2 * pow2(e)) by (nonlinear_arith)
            requires
                pow2(e2) >= 1,
                pow2(e) >= 1,
        ;
        assert(pow2(e2 + 1 + e) == pow2(e2) * 2 * pow2(e)) by (nonlinear_arith)
            requires
                pow2(e2 + 1 + e) == pow2(e2 + 1) * pow2(e),
                pow2(e2 + 1) == pow2(e2) * pow2(1),
                pow2(1) == 2,
        ;
    }
    // start of the new interval: (m - 1) shifted, which is at most (q - 1) * l
    assert(i2 - lowbit_spec(i2) <= i - l) by (nonlinear_arith)
        requires
            i2 == i + l,
            lowbit_spec(i2) >= 2 * l,
            l >= 1,
    ;
}

/// Positions strictly between a slot and its next covering slot start
/// their own intervals no earlier than the slot itself: the update walk
/// skips nothing it should have visited.
proof fn lemma_gap(i: nat, j: nat)
    requires
        i >= 1,
        i < j,
        j < i + lowbit_spec(i),
    ensures
        j - lowbit_spec(j) >= i,
{
    lemma_lowbit_basic(i);
    let e = lowexp(i);
    let l = lowbit_spec(i);
    let r = (j - i) as nat;
    assert(1 <= r < l);
    lemma_lowbit_basic(r);
    let er = lowexp(r);
    let lr = lowbit_spec(r);
    assert(er < e) by {
        if er >= e {
            vstd::arithmetic::power2::lemma_pow2_strictly_increases(e, er + 1);
            if er > e {
                vstd::arithmetic::power2::lemma_pow2_strictly_increases(e, er);
            }
        }
    }
    // j == (odd) * 2^er, so its low bit is exactly lr <= r
    let q = i / l;
    vstd::arithmetic::div_mod::lemma_fundamental_div_mod(i as int, l as int);
    let mr = r / lr;
    vstd::arithmetic::div_mod::lemma_fundamental_div_mod(r as int, lr as int);
    let shift = pow2((e - er) as nat);
    assert(l == lr * shift) by {
        vstd::arithmetic::power2::lemma_pow2_adds(er, (e - er) as nat);
    }
    assert(shift % 2 == 0) by {
        vstd::arithmetic::power2::lemma_pow2_unfold((e - er) as nat);
        vstd::arithmetic::power2::lemma_pow2_pos((e - er - 1) as nat);
        assert((2 * pow2((e - er - 1) as nat)) % 2 == 0) by (nonlinear_arith);
    }
    let modd = (q * shift + mr) as nat;
    assert(j == modd * lr) by (nonlinear_arith)
        requires
            j == i + r,
            i == l * q,
            r == lr * mr,
            l == lr * shift,
            modd == q * shift + mr,
    ;
    let shalf = shift / 2;
    assert(shift == 2 * shalf) by (nonlinear_arith)
        requires
            shift % 2 == 0,
            shalf == shift / 2,
    ;
    assert(q * shift == 2 * (q * shalf)) by (nonlinear_arith)
        requires
            shift == 2 * shalf,
    ;
    assert(modd % 2 == 1) by (nonlinear_arith)
        requires
            modd == 2 * (q * shalf) + mr,
            mr % 2 == 1,
            q * shalf >= 0,
    ;
    assert(modd >= 1);
    lemma_lowexp_char(modd, er);
    assert(modd * pow2(er) == j) by (nonlinear_arith)
        requires
            j == modd * lr,
            lr == pow2(er),
    ;
    assert(lowbit_spec(j) == lr);
    assert(j - lr >= i) by (nonlinear_arith)
        requires
            j == i + r,
            lr <= r,
    ;
}

/// The lowest set bit of a positive index, computed by halving out the
/// even part.
fn lowbit(k: usize) -> (l: usize)
    requires
        1 <= k <= 0x8000_0000,
    ensures
        l == lowbit_spec(k as nat),
        1 <= l <= k,
{
    let mut l: usize = 1;
    let mut m = k;
    let ghost mut e: nat = 0;
    proof {
        vstd::arithmetic::power2::lemma2_to64();
    }
    while m % 2 == 0
        invariant
            1 <= m,
            1 <= l,
            l * m == k,
            k <= 0x8000_0000,
            l == pow2(e),
            lowexp(k as nat) == lowexp(m as nat) + e,
        decreases m,
    {
        proof {
            assert(m % 2 == 0 ==> (l * 2) * (m / 2) == l * m && l * 2 <= l * m && 1 <= m / 2)
                by (nonlinear_arith)
                requires
                    1 <= m,
                    1 <= l,
            ;
            assert(lowexp(m as nat) == 1 + lowexp((m / 2) as nat));
            vstd::arithmetic::power2::lemma_pow2_unfold(e + 1);
            e = e + 1;
        }
        m = m / 2;
        l = l * 2;
    }
    proof {
        assert(lowexp(m as nat) == 0);
        assert(l <= l * m) by (nonlinear_arith)
            requires
                1 <= m,
                1 <= l,
        ;
    }
    l
}

/// One-based implicit tree of interval aggregates over a commutative
/// monoid.
pub struct FenwickTree<T, Ops> where T: Copy, Ops: ComMonoidOps<T> {
    data: Vec<T>,
    elems: Ghost<Seq<T>>,
    ops: core::marker::PhantomData<Ops>,
}

impl<T: Copy, Ops: ComMonoidOps<T>> FenwickTree<T, Ops> {
    /// Slot `0` is unused; slot `i` caches the fold of the logical
    /// positions `[i - lowbit(i), i)`.
    pub closed spec fn wf(self) -> bool {
        &&& self.data@.len() == self.elems@.len() + 1
        &&& self.data@.len() <= 0x4000_0001
        &&& forall|i: int|
            1 <= i < self.data@.len() ==> #[trigger] self.data@[i] == fold_seq::<T, Ops>(
                self.elems@.subrange(i - lowbit_spec(i as nat), i),
            )
    }

    /// The per-position aggregates.
    pub closed spec fn model(self) -> Seq<T> {
        self.elems@
    }

    /// Number of logical positions.
    pub closed spec fn len(self) -> int {
        self.elems@.len() as int
    }

    /// A tree of `size` identity values.
    pub fn new(size: usize) -> (r: Self)
        requires
            size <= 0x4000_0000,
        ensures
            r.wf(),
            r.len() == size,
            r.model() == Seq::new(size as nat, |i: int| Ops::t0_s()),
    {
        let mut data: Vec<T> = Vec::new();
        let t0 = Ops::t0();
        let mut i: usize = 0;
        while i < size + 1
            invariant
                data@.len() == i,
                i <= size + 1,
                size <= 0x4000_0000,
                t0 == Ops::t0_s(),
                forall|j: int| 0 <= j < i ==> #[trigger] data@[j] == Ops::t0_s(),
            decreases size + 1 - i,
        {
            data.push(t0);
            i = i + 1;
        }
        let r = FenwickTree {
            data,
            elems: Ghost(Seq::new(size as nat, |i: int| Ops::t0_s())),
            ops: core::marker::PhantomData,
        };
        proof {
            assert forall|i: int| 1 <= i < r.data@.len() implies #[trigger] r.data@[i]
                == fold_seq::<T, Ops>(r.elems@.subrange(i - lowbit_spec(i as nat), i)) by {
                lemma_lowbit_basic(i as nat);
                lemma_fold_identity::<T, Ops>(r.elems@.subrange(i - lowbit_spec(i as nat), i));
            }
        }
        r
    }

    /// Folds `v` into position `k`: every slot whose interval covers `k`
    /// absorbs it.
    pub fn add(&mut self, k: usize, v: T)
        requires
            old(self).wf(),
            k < old(self).len(),
        ensures
            final(self).wf(),
            final(self).len() == old(self).len(),
            final(self).model() == old(self).model().update(
                k as int,
                Ops::combine_s(old(self).model()[k as int], v),
            ),
    {
        let ghost m0 = self.elems@;
        let ghost m1 = m0.update(k as int, Ops::combine_s(m0[k as int], v));
        proof {
            self.elems@ = m1;
        }
        let n = self.data.len();
        let mut idx = k + 1;
        proof {
            lemma_lowbit_basic(idx as nat);
        }
        while idx < n
            invariant
                self.data@.len() == n,
                n == m0.len() + 1,
                n <= 0x4000_0001,
                self.elems@ == m1,
                m1 == m0.update(k as int, Ops::combine_s(m0[k as int], v)),
                k < m0.len(),
                k + 1 <= idx,
                idx < n ==> idx - lowbit_spec(idx as nat) <= k,
                forall|j: int|
                    1 <= j < n ==> #[trigger] self.data@[j] == (
                    if j - lowbit_spec(j as nat) <= k && k < j && j < idx {
                        fold_seq::<T, Ops>(m1.subrange(j - lowbit_spec(j as nat), j))
                    } else {
                        fold_seq::<T, Ops>(m0.subrange(j - lowbit_spec(j as nat), j))
                    }),
            decreases n - idx,
        {
            proof {
                lemma_lowbit_basic(idx as nat);
            }
            let cur = self.data[idx];
            let merged = Ops::combine(cur, v);
            let ghost lb = lowbit_spec(idx as nat);
            proof {
                let a = idx - lb;
                let s0 = m0.subrange(a, idx as int);
                assert(m1.subrange(a, idx as int) =~= s0.update(
                    k - a,
                    Ops::combine_s(s0[k - a], v),
                ));
                lemma_fold_absorb::<T, Ops>(s0, k - a, v);
            }
            self.data.set(idx, merged);
            let l = lowbit(idx);
            proof {
                lemma_climb(idx as nat);
                assert forall|j: int|
                    idx < j < idx + l && 1 <= j < n implies (j - #[trigger] lowbit_spec(
                    j as nat)) > k by {
                    lemma_gap(idx as nat, j as nat);
                }
            }
            if idx + l >= n {
                idx = n;
            } else {
                idx = idx + l;
            }
        }
        proof {
            assert forall|j: int| 1 <= j < n implies #[trigger] self.data@[j] == fold_seq::<
                T,
                Ops,
            >(m1.subrange(j - lowbit_spec(j as nat), j)) by {
                lemma_lowbit_basic(j as nat);
                let a = j - lowbit_spec(j as nat);
                if !(a <= k && k < j) {
                    assert(m1.subrange(a, j) =~= m0.subrange(a, j));
                }
            }
        }
    }

    /// The fold of the logical positions `0 ..= k`.
    pub fn sum(&self, k: usize) -> (r: T)
        requires
            self.wf(),
            k < self.len(),
        ensures
            r == fold_seq::<T, Ops>(self.model().subrange(0, k + 1)),
    {
        let mut ret = Ops::t0();
        let mut idx = k + 1;
        proof {
            assert(self.elems@.subrange(k + 1, k + 1) =~= Seq::<T>::empty());
            Ops::t0_identity(Ops::t0_s());
        }
        while idx > 0
            invariant
                self.wf(),
                idx <= k + 1,
                k + 1 < self.data@.len(),
                ret == fold_seq::<T, Ops>(self.elems@.subrange(idx as int, k + 1)),
            decreases idx,
        {
            proof {
                lemma_lowbit_basic(idx as nat);
            }
            let cur = self.data[idx];
            proof {
                let a = idx - lowbit_spec(idx as nat);
                assert(self.elems@.subrange(a, k + 1) =~= self.elems@.subrange(a, idx as int)
                    + self.elems@.subrange(idx as int, k + 1));
                lemma_fold_append::<T, Ops>(
                    self.elems@.subrange(a, idx as int),
                    self.elems@.subrange(idx as int, k + 1),
                );
                Ops::combine_comm(ret, cur);
            }
            ret = Ops::combine(ret, cur);
            let l = lowbit(idx);
            idx = idx - l;
        }
        ret
    }
}

impl FenwickTree<i64, AddOps> {
    /// First position whose prefix aggregate reaches `v`, by binary descent
    /// over the slot spans; `0` when `v` is not positive.
    pub fn lower_bound(&self, v: i64) -> (r: usize)
        requires
            self.wf(),
        ensures
            r <= self.len(),
    {
        if v <= 0 {
            return 0;
        }
        let mut v = v;
        let n = self.data.len();
        let mut step: usize = 1;
        while step < n
            invariant
                self.wf(),
                n == self.data@.len(),
                1 <= step <= 2 * n,
            decreases 2 * n - step,
        {
            step = step * 2;
        }
        let mut i: usize = 0;
        while step > 0
            invariant
                self.wf(),
                n == self.data@.len(),
                i <= self.len(),
                step <= 2 * n,
            decreases step,
        {
            if i + step < n && self.data[i + step] < v {
                v = v.wrapping_sub(self.data[i + step]);
                i = i + step;
            }
            step = step / 2;
        }
        i
    }
}

} // verus!

//! Operator packages for the segment trees.
//!
//! A [`MonoidOps`] instance supplies the aggregation operator and its
//! identity, together with proofs of associativity and neutrality.  A
//! [`LazyOps`] instance adds the deferred-update operators `apply` and
//! `compose`, with the composition law `apply(apply(t,u1),u2) ==
//! apply(t, compose(u1,u2))`.  All proofs are obligations: a type can only be
//! used with the trees once its laws are discharged.
//!
//! The concrete instances operate on `i64` with wrapping arithmetic, whose
//! laws hold without side conditions.

use vstd::prelude::*;

verus! {

use vstd::wrapping::i64_specs;

/// Associative operator with identity on `T`.
pub trait MonoidOps<T: Copy>: Sized {
    /// Mathematical aggregation operator.
    spec fn combine_s(a: T, b: T) -> T;

    /// Identity of [`MonoidOps::combine_s`].
    spec fn t0_s() -> T;

    proof fn combine_assoc(a: T, b: T, c: T)
        ensures
            Self::combine_s(Self::combine_s(a, b), c) == Self::combine_s(a, Self::combine_s(b, c)),
    ;

    proof fn t0_identity(a: T)
        ensures
            Self::combine_s(Self::t0_s(), a) == a,
            Self::combine_s(a, Self::t0_s()) == a,
    ;

    fn combine(a: T, b: T) -> (r: T)
        ensures
            r == Self::combine_s(a, b),
    ;

    fn t0() -> (r: T)
        ensures
            r == Self::t0_s(),
    ;
}

/// Deferred updates of type `U` acting on aggregates of type `T`.
pub trait LazyOps<T: Copy, U: Copy>: MonoidOps<T> {
    /// Applies a deferred update to an aggregate.
    spec fn apply_s(t: T, u: U) -> T;

    /// Merges two deferred updates, the left one acting first.
    spec fn compose_s(a: U, b: U) -> U;

    /// No-op update: identity of [`LazyOps::compose_s`] and neutral for
    /// [`LazyOps::apply_s`].
    spec fn u0_s() -> U;

    proof fn compose_assoc(a: U, b: U, c: U)
        ensures
            Self::compose_s(Self::compose_s(a, b), c) == Self::compose_s(a, Self::compose_s(b, c)),
    ;

    proof fn u0_identity(t: T, u: U)
        ensures
            Self::apply_s(t, Self::u0_s()) == t,
            Self::compose_s(u, Self::u0_s()) == u,
            Self::compose_s(Self::u0_s(), u) == u,
    ;

    proof fn composition_law(t: T, u1: U, u2: U)
        ensures
            Self::apply_s(Self::apply_s(t, u1), u2) == Self::apply_s(t, Self::compose_s(u1, u2)),
    ;

    fn apply(t: T, u: U) -> (r: T)
        ensures
            r == Self::apply_s(t, u),
    ;

    fn compose(a: U, b: U) -> (r: U)
        ensures
            r == Self::compose_s(a, b),
    ;

    fn u0() -> (r: U)
        ensures
            r == Self::u0_s(),
    ;

}

/// Whether applying an update distributes over aggregation.  Range queries
/// over more than one element return the exact aggregate only for
/// distributive instances; the composition law alone does not make inner
/// nodes meaningful.
pub open spec fn distributive<T: Copy, U: Copy, Ops: LazyOps<T, U>>() -> bool {
    forall|a: T, b: T, u: U|
        #[trigger] Ops::apply_s(Ops::combine_s(a, b), u) == Ops::combine_s(
            Ops::apply_s(a, u),
            Ops::apply_s(b, u),
        )
}

/// Commutative monoid: the operator's argument order never matters.
pub trait ComMonoidOps<T: Copy>: MonoidOps<T> {
    proof fn combine_comm(a: T, b: T)
        ensures
            Self::combine_s(a, b) == Self::combine_s(b, a),
    ;
}

/// Left fold of a sequence under a monoid, starting from the identity.
pub open spec fn fold_seq<T: Copy, Ops: MonoidOps<T>>(s: Seq<T>) -> T
    decreases s.len(),
{
    if s.len() == 0 {
        Ops::t0_s()
    } else {
        Ops::combine_s(fold_seq::<T, Ops>(s.drop_last()), s.last())
    }
}

/// Folding a singleton yields its element.
pub proof fn lemma_fold_single<T: Copy, Ops: MonoidOps<T>>(s: Seq<T>)
    requires
        s.len() == 1,
    ensures
        fold_seq::<T, Ops>(s) == s[0],
{
    assert(s.drop_last() =~= Seq::<T>::empty());
    assert(fold_seq::<T, Ops>(Seq::<T>::empty()) == Ops::t0_s());
    Ops::t0_identity(s[0]);
}

/// Folding a concatenation combines the two folds.
pub proof fn lemma_fold_append<T: Copy, Ops: MonoidOps<T>>(a: Seq<T>, b: Seq<T>)
    ensures
        fold_seq::<T, Ops>(a + b) == Ops::combine_s(fold_seq::<T, Ops>(a), fold_seq::<T, Ops>(b)),
    decreases b.len(),
{
    if b.len() == 0 {
        assert(a + b =~= a);
        Ops::t0_identity(fold_seq::<T, Ops>(a));
    } else {
        assert((a + b).drop_last() =~= a + b.drop_last());
        assert((a + b).last() == b.last());
        lemma_fold_append::<T, Ops>(a, b.drop_last());
        Ops::combine_assoc(
            fold_seq::<T, Ops>(a),
            fold_seq::<T, Ops>(b.drop_last()),
            b.last(),
        );
    }
}

/// Folding identities yields the identity.
pub proof fn lemma_fold_identity<T: Copy, Ops: MonoidOps<T>>(s: Seq<T>)
    requires
        forall|i: int| 0 <= i < s.len() ==> s[i] == Ops::t0_s(),
    ensures
        fold_seq::<T, Ops>(s) == Ops::t0_s(),
    decreases s.len(),
{
    if s.len() > 0 {
        lemma_fold_identity::<T, Ops>(s.drop_last());
        Ops::t0_identity(Ops::t0_s());
    }
}

/// Combining one more value into any single position of a commutative fold
/// combines it into the total.
pub proof fn lemma_fold_absorb<T: Copy, Ops: ComMonoidOps<T>>(s: Seq<T>, p: int, v: T)
    requires
        0 <= p < s.len(),
    ensures
        fold_seq::<T, Ops>(s.update(p, Ops::combine_s(s[p], v))) == Ops::combine_s(
            fold_seq::<T, Ops>(s),
            v,
        ),
    decreases s.len(),
{
    let s2 = s.update(p, Ops::combine_s(s[p], v));
    if p == s.len() - 1 {
        assert(s2.drop_last() =~= s.drop_last());
        Ops::combine_assoc(fold_seq::<T, Ops>(s.drop_last()), s[p], v);
    } else {
        assert(s2.drop_last() =~= s.drop_last().update(p, Ops::combine_s(s[p], v)));
        assert(s2.last() == s.last());
        lemma_fold_absorb::<T, Ops>(s.drop_last(), p, v);
        let f = fold_seq::<T, Ops>(s.drop_last());
        Ops::combine_assoc(f, v, s.last());
        Ops::combine_comm(v, s.last());
        Ops::combine_assoc(f, s.last(), v);
    }
}

/// For distributive lazy operators, applying an update to every element of a
/// nonempty sequence and folding equals folding first and applying once.
pub proof fn lemma_fold_map_apply<T: Copy, U: Copy, Ops: LazyOps<T, U>>(s: Seq<T>, u: U)
    requires
        s.len() >= 1,
        distributive::<T, U, Ops>(),
    ensures
        fold_seq::<T, Ops>(s.map_values(|t: T| Ops::apply_s(t, u))) == Ops::apply_s(
            fold_seq::<T, Ops>(s),
            u,
        ),
    decreases s.len(),
{
    let m = s.map_values(|t: T| Ops::apply_s(t, u));
    if s.len() == 1 {
        lemma_fold_single::<T, Ops>(s);
        lemma_fold_single::<T, Ops>(m);
    } else {
        assert(m.drop_last() =~= s.drop_last().map_values(|t: T| Ops::apply_s(t, u)));
        lemma_fold_map_apply::<T, U, Ops>(s.drop_last(), u);
        assert(m.len() == s.len());
        assert(m.last() == Ops::apply_s(s.last(), u));
        assert(fold_seq::<T, Ops>(m) == Ops::combine_s(fold_seq::<T, Ops>(m.drop_last()), m.last()));
        assert(Ops::apply_s(Ops::combine_s(fold_seq::<T, Ops>(s.drop_last()), s.last()), u)
            == Ops::combine_s(
            Ops::apply_s(fold_seq::<T, Ops>(s.drop_last()), u),
            Ops::apply_s(s.last(), u),
        ));
    }
}

/// `2^64`, the modulus of the wrapping `i64` arithmetic below.
pub open spec fn two_to_64() -> int {
    0x1_0000_0000_0000_0000
}

/// The unique `i64` congruent to `x` modulo `2^64`.
pub open spec fn crop(x: int) -> i64 {
    i64_specs::signed_crop(x)
}

/// Cropping an in-range value is the identity.
pub proof fn lemma_crop_id(v: i64)
    ensures
        crop(v as int) == v,
{
    if v >= 0 {
        vstd::arithmetic::div_mod::lemma_small_mod(v as nat, two_to_64() as nat);
    } else {
        vstd::arithmetic::div_mod::lemma_mod_add_multiples_vanish(v as int, two_to_64());
        vstd::arithmetic::div_mod::lemma_small_mod((v + two_to_64()) as nat, two_to_64() as nat);
    }
}

/// Congruent values crop to the same representative.
pub proof fn lemma_crop_congruent(x: int, y: int)
    requires
        x % two_to_64() == y % two_to_64(),
    ensures
        crop(x) == crop(y),
{
}

/// The crop keeps the residue class.
pub proof fn lemma_crop_mod(x: int)
    ensures
        crop(x) as int % two_to_64() == x % two_to_64(),
{
    let m = two_to_64();
    vstd::arithmetic::div_mod::lemma_mod_twice(x, m);
    if (x % m) > i64::MAX {
        vstd::arithmetic::div_mod::lemma_mod_add_multiples_vanish((x % m) - m, m);
    }
}

/// `wrapping_add` is the crop of the mathematical sum.
pub proof fn lemma_wadd_crop(a: i64, b: i64)
    ensures
        i64_specs::wrapping_add(a, b) == crop(a + b),
{
    let m = two_to_64();
    if a + b > i64::MAX {
        lemma_crop_id(i64_specs::wrapping_add(a, b));
        vstd::arithmetic::div_mod::lemma_mod_add_multiples_vanish((a + b) - m, m);
        lemma_crop_congruent((a + b - m) as int, a + b);
    } else if a + b < i64::MIN {
        lemma_crop_id(i64_specs::wrapping_add(a, b));
        vstd::arithmetic::div_mod::lemma_mod_add_multiples_vanish(a + b, m);
        lemma_crop_congruent((a + b + m) as int, a + b);
    } else {
        lemma_crop_id((a + b) as i64);
    }
}

/// Wrapped addition is associative.
pub proof fn lemma_wadd_assoc(a: i64, b: i64, c: i64)
    ensures
        i64_specs::wrapping_add(i64_specs::wrapping_add(a, b), c) == i64_specs::wrapping_add(
            a,
            i64_specs::wrapping_add(b, c),
        ),
{
    let m = two_to_64();
    lemma_wadd_crop(a, b);
    lemma_wadd_crop(b, c);
    lemma_wadd_crop(crop(a + b), c);
    lemma_wadd_crop(a, crop(b + c));
    lemma_crop_mod(a + b);
    lemma_crop_mod(b + c);
    vstd::arithmetic::div_mod::lemma_add_mod_noop(crop(a + b) as int, c as int, m);
    vstd::arithmetic::div_mod::lemma_add_mod_noop(a as int, b + c, m);
    vstd::arithmetic::div_mod::lemma_add_mod_noop(a as int, crop(b + c) as int, m);
    vstd::arithmetic::div_mod::lemma_add_mod_noop(a + b, c as int, m);
    lemma_crop_congruent(crop(a + b) + c, a + b + c);
    lemma_crop_congruent(a + crop(b + c), a + b + c);
}

/// Multiplying congruent values by the same factor keeps the congruence.
pub proof fn lemma_crop_mul_congruent(x: int, y: int, c: int)
    requires
        x % two_to_64() == y % two_to_64(),
    ensures
        (x * c) % two_to_64() == (y * c) % two_to_64(),
{
    let m = two_to_64();
    vstd::arithmetic::div_mod::lemma_mul_mod_noop_left(x, c, m);
    vstd::arithmetic::div_mod::lemma_mul_mod_noop_left(y, c, m);
}

/// Wrapped `i64` addition: plain range-add updates and plain sums.
pub struct AddOps;

impl MonoidOps<i64> for AddOps {
    open spec fn combine_s(a: i64, b: i64) -> i64 {
        i64_specs::wrapping_add(a, b)
    }

    open spec fn t0_s() -> i64 {
        0i64
    }

    proof fn combine_assoc(a: i64, b: i64, c: i64) {
        lemma_wadd_assoc(a, b, c);
    }

    proof fn t0_identity(a: i64) {
    }

    fn combine(a: i64, b: i64) -> i64 {
        a.wrapping_add(b)
    }

    fn t0() -> i64 {
        0
    }
}

impl ComMonoidOps<i64> for AddOps {
    proof fn combine_comm(a: i64, b: i64) {
        lemma_wadd_crop(a, b);
        lemma_wadd_crop(b, a);
    }
}

impl LazyOps<i64, i64> for AddOps {
    open spec fn apply_s(t: i64, u: i64) -> i64 {
        i64_specs::wrapping_add(t, u)
    }

    open spec fn compose_s(a: i64, b: i64) -> i64 {
        i64_specs::wrapping_add(a, b)
    }

    open spec fn u0_s() -> i64 {
        0i64
    }

    proof fn compose_assoc(a: i64, b: i64, c: i64) {
        lemma_wadd_assoc(a, b, c);
    }

    proof fn u0_identity(t: i64, u: i64) {
    }

    proof fn composition_law(t: i64, u1: i64, u2: i64) {
        lemma_wadd_assoc(t, u1, u2);
    }

    fn apply(t: i64, u: i64) -> i64 {
        t.wrapping_add(u)
    }

    fn compose(a: i64, b: i64) -> i64 {
        a.wrapping_add(b)
    }

    fn u0() -> i64 {
        0
    }
}

/// An aggregate of the range-sum / range-add instance: a wrapped sum
/// together with the number of positions it covers.
#[derive(Clone, Copy, PartialEq, Eq, Structural, Debug)]
pub struct SumLen {
    pub sum: i64,
    pub len: i64,
}

/// `SumLen` values under coordinatewise wrapped addition, with range-add
/// updates weighted by the length: the classic range-sum / range-add
/// instance.
pub struct SumCountOps;

impl MonoidOps<SumLen> for SumCountOps {
    open spec fn combine_s(a: SumLen, b: SumLen) -> SumLen {
        SumLen { sum: i64_specs::wrapping_add(a.sum, b.sum), len: i64_specs::wrapping_add(a.len, b.len) }
    }

    open spec fn t0_s() -> SumLen {
        SumLen { sum: 0i64, len: 0i64 }
    }

    proof fn combine_assoc(a: SumLen, b: SumLen, c: SumLen) {
        lemma_wadd_assoc(a.sum, b.sum, c.sum);
        lemma_wadd_assoc(a.len, b.len, c.len);
    }

    proof fn t0_identity(a: SumLen) {
    }

    fn combine(a: SumLen, b: SumLen) -> SumLen {
        SumLen { sum: a.sum.wrapping_add(b.sum), len: a.len.wrapping_add(b.len) }
    }

    fn t0() -> SumLen {
        SumLen { sum: 0, len: 0 }
    }
}

impl ComMonoidOps<SumLen> for SumCountOps {
    proof fn combine_comm(a: SumLen, b: SumLen) {
        lemma_wadd_crop(a.sum, b.sum);
        lemma_wadd_crop(b.sum, a.sum);
        lemma_wadd_crop(a.len, b.len);
        lemma_wadd_crop(b.len, a.len);
    }
}

impl LazyOps<SumLen, i64> for SumCountOps {
    open spec fn apply_s(t: SumLen, u: i64) -> SumLen {
        SumLen { sum: i64_specs::wrapping_add(t.sum, i64_specs::wrapping_mul(u, t.len)), len: t.len }
    }

    open spec fn compose_s(a: i64, b: i64) -> i64 {
        i64_specs::wrapping_add(a, b)
    }

    open spec fn u0_s() -> i64 {
        0i64
    }

    proof fn compose_assoc(a: i64, b: i64, c: i64) {
        lemma_wadd_assoc(a, b, c);
    }

    proof fn u0_identity(t: SumLen, u: i64) {
        assert(i64_specs::wrapping_mul(0i64, t.len) == 0i64) by {
            vstd::arithmetic::div_mod::lemma_small_mod(0nat, two_to_64() as nat);
            assert(0int * t.len == 0int) by (nonlinear_arith);
        }
    }

    #[verifier::rlimit(100)]
    proof fn composition_law(t: SumLen, u1: i64, u2: i64) {
        let m = two_to_64();
        let c = t.len as int;
        // left side: ((s + u1*c) + u2*c), right side: s + (u1 + u2)*c, all cropped
        let s = t.sum;
        let p1 = i64_specs::wrapping_mul(u1, t.len);
        let p2 = i64_specs::wrapping_mul(u2, t.len);
        let left = i64_specs::wrapping_add(i64_specs::wrapping_add(s, p1), p2);
        lemma_wadd_crop(s, p1);
        lemma_wadd_crop(crop(s + p1), p2);
        lemma_crop_mod(s + p1);
        vstd::arithmetic::div_mod::lemma_add_mod_noop(crop(s + p1) as int, p2 as int, m);
        vstd::arithmetic::div_mod::lemma_add_mod_noop(s + p1, p2 as int, m);
        lemma_crop_congruent(crop(s + p1) + p2, s + p1 + p2);
        // p1 + p2 is congruent to (u1 + u2) * c
        lemma_crop_mod(u1 * c);
        lemma_crop_mod(u2 * c);
        vstd::arithmetic::div_mod::lemma_add_mod_noop(p1 as int, p2 as int, m);
        vstd::arithmetic::div_mod::lemma_add_mod_noop(u1 * c, u2 * c, m);
        assert(u1 * c + u2 * c == (u1 + u2) * c) by (nonlinear_arith);
        // the composed update multiplies out to the same residue
        let w = i64_specs::wrapping_add(u1, u2);
        lemma_wadd_crop(u1, u2);
        lemma_crop_mod(u1 + u2);
        lemma_crop_mul_congruent(w as int, u1 + u2, c);
        lemma_crop_congruent(w as int * c, (u1 + u2) * c);
        lemma_crop_mod(w as int * c);
        let pw = i64_specs::wrapping_mul(w, t.len);
        lemma_wadd_crop(s, pw);
        vstd::arithmetic::div_mod::lemma_add_mod_noop(s as int, pw as int, m);
        vstd::arithmetic::div_mod::lemma_add_mod_noop(s as int, (u1 + u2) * c, m);
        lemma_crop_congruent(s + pw, s + (u1 + u2) * c);
        lemma_crop_congruent(s + p1 + p2, s + (u1 + u2) * c);
    }

    fn apply(t: SumLen, u: i64) -> SumLen {
        SumLen { sum: t.sum.wrapping_add(u.wrapping_mul(t.len)), len: t.len }
    }

    fn compose(a: i64, b: i64) -> i64 {
        a.wrapping_add(b)
    }

    fn u0() -> i64 {
        0
    }
}

/// The range-sum instance distributes, so its multi-element range queries
/// return the exact aggregate.
pub proof fn lemma_sum_count_distributive()
    ensures
        distributive::<SumLen, i64, SumCountOps>(),
{
    let m = two_to_64();
    assert forall|a: SumLen, b: SumLen, u: i64|
        #[trigger] <SumCountOps as LazyOps<SumLen, i64>>::apply_s(
            <SumCountOps as MonoidOps<SumLen>>::combine_s(a, b),
            u,
        ) == <SumCountOps as MonoidOps<SumLen>>::combine_s(
        <SumCountOps as LazyOps<SumLen, i64>>::apply_s(a, u),
        <SumCountOps as LazyOps<SumLen, i64>>::apply_s(b, u),
    ) by {
        let sa = a.sum as int;
        let sb = b.sum as int;
        let ca = a.len as int;
        let cb = b.len as int;
        let ui = u as int;
        // second coordinates agree by construction; compare the sums
        let cs = i64_specs::wrapping_add(a.len, b.len);
        lemma_wadd_crop(a.len, b.len);
        lemma_crop_mod(ca + cb);
        let pc = i64_specs::wrapping_mul(u, cs);
        lemma_crop_mul_congruent(cs as int, ca + cb, ui);
        assert(cs as int * ui == ui * cs as int && (ca + cb) * ui == ui * (ca + cb))
            by (nonlinear_arith);
        lemma_crop_congruent(ui * cs as int, ui * (ca + cb));
        lemma_crop_mod(ui * (ca + cb));
        // left: wadd(wadd(sa, sb), pc)
        let ss = i64_specs::wrapping_add(a.sum, b.sum);
        lemma_wadd_crop(a.sum, b.sum);
        lemma_crop_mod(sa + sb);
        lemma_wadd_crop(ss, pc);
        vstd::arithmetic::div_mod::lemma_add_mod_noop(ss as int, pc as int, m);
        vstd::arithmetic::div_mod::lemma_add_mod_noop(sa + sb, ui * (ca + cb), m);
        lemma_crop_congruent(ss + pc, sa + sb + ui * (ca + cb));
        // right: wadd(wadd(sa, pa), wadd(sb, pb))
        let pa = i64_specs::wrapping_mul(u, a.len);
        let pb = i64_specs::wrapping_mul(u, b.len);
        let ra = i64_specs::wrapping_add(a.sum, pa);
        let rb = i64_specs::wrapping_add(b.sum, pb);
        lemma_wadd_crop(a.sum, pa);
        lemma_wadd_crop(b.sum, pb);
        lemma_crop_mod(sa + pa);
        lemma_crop_mod(sb + pb);
        lemma_wadd_crop(ra, rb);
        vstd::arithmetic::div_mod::lemma_add_mod_noop(ra as int, rb as int, m);
        vstd::arithmetic::div_mod::lemma_add_mod_noop(sa + pa, sb + pb, m);
        lemma_crop_congruent(ra + rb, sa + pa + (sb + pb));
        lemma_crop_mod(ui * ca);
        lemma_crop_mod(ui * cb);
        vstd::arithmetic::div_mod::lemma_add_mod_noop(pa as int, pb as int, m);
        vstd::arithmetic::div_mod::lemma_add_mod_noop(ui * ca, ui * cb, m);
        lemma_crop_congruent(pa + pb, ui * ca + ui * cb);
        // align both residues
        vstd::arithmetic::div_mod::lemma_add_mod_noop(sa + sb, pa + pb, m);
        vstd::arithmetic::div_mod::lemma_add_mod_noop(sa + sb, ui * ca + ui * cb, m);
        assert(ui * (ca + cb) == ui * ca + ui * cb) by (nonlinear_arith);
        assert(sa + pa + (sb + pb) == sa + sb + (pa + pb));
        lemma_crop_congruent(sa + sb + (pa + pb), sa + sb + ui * (ca + cb));
    }
}

} // verus!

//! Numeric-trait hierarchy shared by the algorithms in this crate.
//!
//! `Zero`, `One`, `Signed`, `Unsigned` and `Bounded` expose the usual
//! constants and predicates of the primitive integer types together with
//! specifications that pin their values.  On top of them a tower of algebraic
//! marker traits (`Magma` up to `Field`) classifies carrier types.

use vstd::prelude::*;

verus! {

/// Additive identity.
pub trait Zero: Sized {
    spec fn zero_spec() -> Self;

    fn zero() -> (r: Self)
        ensures
            r == Self::zero_spec(),
    ;

    fn is_zero(&self) -> (b: bool)
        ensures
            b == (*self == Self::zero_spec()),
    ;
}

/// Multiplicative identity.
pub trait One: Sized {
    spec fn one_spec() -> Self;

    fn one() -> (r: Self)
        ensures
            r == Self::one_spec(),
    ;

    fn is_one(&self) -> (b: bool)
        ensures
            b == (*self == Self::one_spec()),
    ;
}

/// Types with a sign: absolute value and sign predicates.
pub trait Signed: Sized {
    spec fn abs_spec(&self) -> Self;

    spec fn is_positive_spec(&self) -> bool;

    spec fn is_negative_spec(&self) -> bool;

    fn abs(&self) -> (r: Self)
        ensures
            r == self.abs_spec(),
    ;

    fn is_positive(&self) -> (b: bool)
        ensures
            b == self.is_positive_spec(),
    ;

    fn is_negative(&self) -> (b: bool)
        ensures
            b == self.is_negative_spec(),
    ;
}

/// Marker for unsigned carrier types.
pub trait Unsigned: Sized {

}

/// Types with least and greatest elements.
pub trait Bounded: Sized {
    spec fn min_value_spec() -> Self;

    spec fn max_value_spec() -> Self;

    fn min_value() -> (r: Self)
        ensures
            r == Self::min_value_spec(),
    ;

    fn max_value() -> (r: Self)
        ensures
            r == Self::max_value_spec(),
    ;
}

/// Marker for the primitive number types.
pub trait BaseNumber {

}

/// Marker for the primitive integer types.
pub trait BaseInteger: BaseNumber {

}

/// Floating-point carriers; no type of this crate implements it, the trait
/// only completes the classification.
pub trait BaseFloating: BaseNumber + Sized {
    fn sqrt(value: Self) -> Self;
}

/// Plain copyable elements.
pub trait Elem: Sized + Copy {

}

impl<T: Sized + Copy> Elem for T {

}

/// Carrier of a binary addition-like operation.
pub trait Magma: Elem {

}

/// The carrier's operation is associative.
pub trait Associative: Magma {

}

/// Associative magma.
pub trait SemiGroup: Magma + Associative {

}

impl<T: Magma + Associative> SemiGroup for T {

}

/// Semigroup with a neutral element.
pub trait Monoid: SemiGroup + Zero {

}

impl<T: SemiGroup + Zero> Monoid for T {

}

/// Commutative monoid.
pub trait ComMonoid: Monoid {

}

impl<T: Monoid> ComMonoid for T {

}

/// Monoid with inverses.
pub trait Group: Monoid + Signed {

}

impl<T: Monoid + Signed> Group for T {

}

/// Commutative group.
pub trait AbelGroup: ComMonoid + Group {

}

impl<T: Group + ComMonoid> AbelGroup for T {

}

/// Commutative monoid with a multiplication and a unit.
pub trait SemiRing: ComMonoid + One {

}

impl<T: ComMonoid + One> SemiRing for T {

}

/// Semiring whose addition forms a group.
pub trait Ring: AbelGroup + SemiRing {

}

impl<T: AbelGroup + SemiRing> Ring for T {

}

/// Ring with commutative multiplication.
pub trait ComRing: Ring {

}

impl<T: Ring> ComRing for T {

}

/// Commutative ring with division; no primitive integer implements it.
pub trait Field: ComRing {

}

impl Zero for u32 {
    open spec fn zero_spec() -> u32 {
        0u32
    }

    fn zero() -> u32 {
        0
    }

    fn is_zero(&self) -> bool {
        *self == 0
    }
}

impl One for u32 {
    open spec fn one_spec() -> u32 {
        1u32
    }

    fn one() -> u32 {
        1
    }

    fn is_one(&self) -> bool {
        *self == 1
    }
}

impl Bounded for u32 {
    open spec fn min_value_spec() -> u32 {
        u32::MIN
    }

    open spec fn max_value_spec() -> u32 {
        u32::MAX
    }

    fn min_value() -> u32 {
        u32::MIN
    }

    fn max_value() -> u32 {
        u32::MAX
    }
}

impl Magma for u32 {

}

impl Associative for u32 {

}

impl BaseNumber for u32 {

}

impl BaseInteger for u32 {

}

impl Unsigned for u32 {

}

impl Zero for u64 {
    open spec fn zero_spec() -> u64 {
        0u64
    }

    fn zero() -> u64 {
        0
    }

    fn is_zero(&self) -> bool {
        *self == 0
    }
}

impl One for u64 {
    open spec fn one_spec() -> u64 {
        1u64
    }

    fn one() -> u64 {
        1
    }

    fn is_one(&self) -> bool {
        *self == 1
    }
}

impl Bounded for u64 {
    open spec fn min_value_spec() -> u64 {
        u64::MIN
    }

    open spec fn max_value_spec() -> u64 {
        u64::MAX
    }

    fn min_value() -> u64 {
        u64::MIN
    }

    fn max_value() -> u64 {
        u64::MAX
    }
}

impl Magma for u64 {

}

impl Associative for u64 {

}

impl BaseNumber for u64 {

}

impl BaseInteger for u64 {

}

impl Unsigned for u64 {

}

impl Zero for u128 {
    open spec fn zero_spec() -> u128 {
        0u128
    }

    fn zero() -> u128 {
        0
    }

    fn is_zero(&self) -> bool {
        *self == 0
    }
}

impl One for u128 {
    open spec fn one_spec() -> u128 {
        1u128
    }

    fn one() -> u128 {
        1
    }

    fn is_one(&self) -> bool {
        *self == 1
    }
}

impl Bounded for u128 {
    open spec fn min_value_spec() -> u128 {
        u128::MIN
    }

    open spec fn max_value_spec() -> u128 {
        u128::MAX
    }

    fn min_value() -> u128 {
        u128::MIN
    }

    fn max_value() -> u128 {
        u128::MAX
    }
}

impl Magma for u128 {

}

impl Associative for u128 {

}

impl BaseNumber for u128 {

}

impl BaseInteger for u128 {

}

impl Unsigned for u128 {

}

impl Zero for usize {
    open spec fn zero_spec() -> usize {
        0usize
    }

    fn zero() -> usize {
        0
    }

    fn is_zero(&self) -> bool {
        *self == 0
    }
}

impl One for usize {
    open spec fn one_spec() -> usize {
        1usize
    }

    fn one() -> usize {
        1
    }

    fn is_one(&self) -> bool {
        *self == 1
    }
}

impl Bounded for usize {
    open spec fn min_value_spec() -> usize {
        usize::MIN
    }

    open spec fn max_value_spec() -> usize {
        usize::MAX
    }

    fn min_value() -> usize {
        usize::MIN
    }

    fn max_value() -> usize {
        usize::MAX
    }
}

impl Magma for usize {

}

impl Associative for usize {

}

impl BaseNumber for usize {

}

impl BaseInteger for usize {

}

impl Unsigned for usize {

}

impl Zero for i32 {
    open spec fn zero_spec() -> i32 {
        0i32
    }

    fn zero() -> i32 {
        0
    }

    fn is_zero(&self) -> bool {
        *self == 0
    }
}

impl One for i32 {
    open spec fn one_spec() -> i32 {
        1i32
    }

    fn one() -> i32 {
        1
    }

    fn is_one(&self) -> bool {
        *self == 1
    }
}

impl Bounded for i32 {
    open spec fn min_value_spec() -> i32 {
        i32::MIN
    }

    open spec fn max_value_spec() -> i32 {
        i32::MAX
    }

    fn min_value() -> i32 {
        i32::MIN
    }

    fn max_value() -> i32 {
        i32::MAX
    }
}

impl Signed for i32 {
    open spec fn abs_spec(&self) -> i32 {
        if *self == i32::MIN {
            i32::MIN
        } else if *self >= 0 {
            *self
        } else {
            (0 - *self as int) as i32
        }
    }

    open spec fn is_positive_spec(&self) -> bool {
        *self > 0
    }

    open spec fn is_negative_spec(&self) -> bool {
        *self < 0
    }

    fn abs(&self) -> i32 {
        if *self >= 0 {
            *self
        } else if *self == i32::MIN {
            i32::MIN
        } else {
            -*self
        }
    }

    fn is_positive(&self) -> bool {
        *self > 0
    }

    fn is_negative(&self) -> bool {
        *self < 0
    }
}

impl Magma for i32 {

}

impl Associative for i32 {

}

impl BaseNumber for i32 {

}

impl BaseInteger for i32 {

}

impl Zero for i64 {
    open spec fn zero_spec() -> i64 {
        0i64
    }

    fn zero() -> i64 {
        0
    }

    fn is_zero(&self) -> bool {
        *self == 0
    }
}

impl One for i64 {
    open spec fn one_spec() -> i64 {
        1i64
    }

    fn one() -> i64 {
        1
    }

    fn is_one(&self) -> bool {
        *self == 1
    }
}

impl Bounded for i64 {
    open spec fn min_value_spec() -> i64 {
        i64::MIN
    }

    open spec fn max_value_spec() -> i64 {
        i64::MAX
    }

    fn min_value() -> i64 {
        i64::MIN
    }

    fn max_value() -> i64 {
        i64::MAX
    }
}

impl Signed for i64 {
    open spec fn abs_spec(&self) -> i64 {
        if *self == i64::MIN {
            i64::MIN
        } else if *self >= 0 {
            *self
        } else {
            (0 - *self as int) as i64
        }
    }

    open spec fn is_positive_spec(&self) -> bool {
        *self > 0
    }

    open spec fn is_negative_spec(&self) -> bool {
        *self < 0
    }

    fn abs(&self) -> i64 {
        if *self >= 0 {
            *self
        } else if *self == i64::MIN {
            i64::MIN
        } else {
            -*self
        }
    }

    fn is_positive(&self) -> bool {
        *self > 0
    }

    fn is_negative(&self) -> bool {
        *self < 0
    }
}

impl Magma for i64 {

}

impl Associative for i64 {

}

impl BaseNumber for i64 {

}

impl BaseInteger for i64 {

}

impl Zero for i128 {
    open spec fn zero_spec() -> i128 {
        0i128
    }

    fn zero() -> i128 {
        0
    }

    fn is_zero(&self) -> bool {
        *self == 0
    }
}

impl One for i128 {
    open spec fn one_spec() -> i128 {
        1i128
    }

    fn one() -> i128 {
        1
    }

    fn is_one(&self) -> bool {
        *self == 1
    }
}

impl Bounded for i128 {
    open spec fn min_value_spec() -> i128 {
        i128::MIN
    }

    open spec fn max_value_spec() -> i128 {
        i128::MAX
    }

    fn min_value() -> i128 {
        i128::MIN
    }

    fn max_value() -> i128 {
        i128::MAX
    }
}

impl Signed for i128 {
    open spec fn abs_spec(&self) -> i128 {
        if *self == i128::MIN {
            i128::MIN
        } else if *self >= 0 {
            *self
        } else {
            (0 - *self as int) as i128
        }
    }

    open spec fn is_positive_spec(&self) -> bool {
        *self > 0
    }

    open spec fn is_negative_spec(&self) -> bool {
        *self < 0
    }

    fn abs(&self) -> i128 {
        if *self >= 0 {
            *self
        } else if *self == i128::MIN {
            i128::MIN
        } else {
            -*self
        }
    }

    fn is_positive(&self) -> bool {
        *self > 0
    }

    fn is_negative(&self) -> bool {
        *self < 0
    }
}

impl Magma for i128 {

}

impl Associative for i128 {

}

impl BaseNumber for i128 {

}

impl BaseInteger for i128 {

}

} // verus!

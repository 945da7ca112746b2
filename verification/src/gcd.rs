//! Greatest common divisor, least common multiple and the extended Euclidean
//! algorithm.

use vstd::prelude::*;

verus! {

/// Mathematical gcd by the Euclidean recursion.
pub open spec fn gcd_spec(a: nat, b: nat) -> nat
    decreases b,
{
    if b == 0 {
        a
    } else {
        gcd_spec(b, a % b)
    }
}

/// The gcd of two numbers that are not both zero is positive.
pub proof fn lemma_gcd_pos(a: nat, b: nat)
    requires
        a > 0 || b > 0,
    ensures
        gcd_spec(a, b) > 0,
    decreases b,
{
    if b > 0 {
        lemma_gcd_pos(b, a % b);
    }
}

pub fn gcd(a: u64, b: u64) -> (r: u64)
    ensures
        r == gcd_spec(a as nat, b as nat),
    decreases b,
{
    if b == 0 {
        a
    } else {
        gcd(b, a % b)
    }
}

pub fn lcm(a: u64, b: u64) -> (r: u64)
    requires
        a > 0 || b > 0,
        (a as int / gcd_spec(a as nat, b as nat) as int) * b <= u64::MAX,
    ensures
        r == (a as int / gcd_spec(a as nat, b as nat) as int) * b,
{
    proof {
        lemma_gcd_pos(a as nat, b as nat);
    }
    let g = gcd(a, b);
    a / g * b
}

/// The triple computed by the extended Euclidean recursion below:
/// `(g, x, y)` with `g == gcd(a, b)` and `a * x + b * y == g`.
pub open spec fn extgcd_spec(a: int, b: int) -> (int, int, int)
    decreases b,
{
    if b > 0 {
        let (g, y, x) = extgcd_spec(b, a % b);
        (g, x, y - (a / b) * x)
    } else {
        (a, 1, 0)
    }
}

/// The recursion returns Bezout coefficients of bounded magnitude.
pub proof fn lemma_extgcd_props(a: int, b: int)
    requires
        a >= 0,
        b >= 0,
    ensures
        extgcd_spec(a, b).0 == gcd_spec(a as nat, b as nat),
        a * extgcd_spec(a, b).1 + b * extgcd_spec(a, b).2 == extgcd_spec(a, b).0,
        -extgcd_spec(a, b).1 <= if b > 0 { b } else { 1 },
        extgcd_spec(a, b).1 <= if b > 0 { b } else { 1 },
        -extgcd_spec(a, b).2 <= if a > 0 { a } else { 1 },
        extgcd_spec(a, b).2 <= if a > 0 { a } else { 1 },
    decreases b,
{
    if b > 0 {
        let r = a % b;
        lemma_extgcd_props(b, r);
        // the recursive triple: g == b*xr + r*yr, |xr| <= max(r,1), |yr| <= max(b,1)
        let (g, xr, yr) = extgcd_spec(b, r);
        let q = a / b;
        let x = yr;
        let y = xr - q * yr;
        assert(b * xr + r * yr == g);
        assert(a == q * b + r && q >= 0 && 0 <= r < b) by {
            vstd::arithmetic::div_mod::lemma_fundamental_div_mod(a, b);
        }
        assert(a * x + b * y == g) by (nonlinear_arith)
            requires
                a == q * b + r,
                x == yr,
                y == xr - q * yr,
                b * xr + r * yr == g,
        ;
        // magnitude of y: |q * yr| <= q * b == a - r, |xr| <= max(r, 1)
        if r > 0 {
            assert(-(q * yr) <= q * b && q * yr <= q * b) by (nonlinear_arith)
                requires
                    q >= 0,
                    -yr <= b,
                    yr <= b,
            ;
            assert(q * b == a - r);
        } else {
            assert(extgcd_spec(b, 0) == (b, 1int, 0int));
            assert(q * yr == 0) by (nonlinear_arith)
                requires
                    yr == 0,
            ;
        }
    }
}

/// Extended Euclid: returns `(g, x, y)` with `g == gcd(a, b)` and
/// `a*x + b*y == g`; the coefficients stay within `|x| <= max(b, 1)` and
/// `|y| <= max(a, 1)`, so no intermediate value overflows.
pub fn extgcd(a: i64, b: i64) -> (r: (i64, i64, i64))
    requires
        a >= 0,
        b >= 0,
    ensures
        (r.0 as int, r.1 as int, r.2 as int) == extgcd_spec(a as int, b as int),
        r.0 == gcd_spec(a as nat, b as nat),
        a * r.1 + b * r.2 == r.0,
    decreases b,
{
    proof {
        lemma_extgcd_props(a as int, b as int);
    }
    if b > 0 {
        proof {
            lemma_extgcd_props(b as int, (a % b) as int);
        }
        let (g, mut y, x) = extgcd(b, a % b);
        proof {
            let q = a as int / b as int;
            assert(q >= 0 && q * b == a - a % b) by {
                vstd::arithmetic::div_mod::lemma_fundamental_div_mod(a as int, b as int);
            }
            assert(-(q * x) <= q * b && q * x <= q * b) by (nonlinear_arith)
                requires
                    q >= 0,
                    -x <= b,
                    x <= b,
            ;
            if a % b == 0 {
                assert(extgcd_spec(b as int, 0) == (b as int, 1int, 0int));
            }
        }
        y = y - (a / b) * x;
        (g, x, y)
    } else {
        (a, 1, 0)
    }
}

} // verus!

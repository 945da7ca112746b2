//! Modular exponentiation by repeated squaring.

use vstd::prelude::*;

verus! {

use vstd::arithmetic::power::{pow, lemma_pow_adds, lemma_pow_multiplies, lemma_pow0};
use vstd::arithmetic::div_mod::{lemma_mul_mod_noop_general, lemma_mod_twice};

/// One step of the square-and-multiply argument: folding one factor of the
/// base into the accumulator keeps the running congruence.
proof fn lemma_powmod_step(ret: int, x: int, n: nat, m: int)
    requires
        m >= 1,
        n >= 1,
    ensures
        (ret * pow(x, n)) % m == ((ret * x % m) * pow(x, (n - 1) as nat)) % m,
{
    lemma_pow_adds(x, 1, (n - 1) as nat);
    assert(pow(x, 1) == x) by {
        vstd::arithmetic::power::lemma_pow1(x);
    }
    assert(ret * (x * pow(x, (n - 1) as nat)) == (ret * x) * pow(x, (n - 1) as nat))
        by (nonlinear_arith);
    lemma_mul_mod_noop_general(ret * x, pow(x, (n - 1) as nat), m);
}

/// Squaring the base halves the exponent.
proof fn lemma_powmod_square(ret: int, x: int, n: nat, m: int)
    requires
        m >= 1,
        n % 2 == 0,
    ensures
        (ret * pow(x, n)) % m == (ret * pow(x * x % m, n / 2)) % m,
{
    assert(x * x == pow(x, 2)) by {
        vstd::arithmetic::power::lemma_square_is_pow2(x);
    }
    lemma_pow_multiplies(x, 2, n / 2);
    assert(2 * (n / 2) == n);
    assert((ret * pow(x * x % m, n / 2)) % m == (ret * pow(x * x, n / 2)) % m) by {
        vstd::arithmetic::power::lemma_pow_mod_noop(x * x, n / 2, m);
        lemma_mul_mod_noop_general(ret, pow(x * x % m, n / 2), m);
        lemma_mul_mod_noop_general(ret, pow(x * x, n / 2), m);
    }
}

/// Computes `x^n mod modulo`.  The base must already be reduced and the
/// modulus small enough that a product of two residues fits in a `u64`.
pub fn powmod(x: u64, n: u64, modulo: u64) -> (r: u64)
    requires
        1 <= modulo <= 0xFFFF_FFFF,
        x < modulo,
    ensures
        r == pow(x as int, n as nat) % (modulo as int),
{
    let mut ret: u64 = 1 % modulo;
    let mut base = x;
    let mut e = n;
    proof {
        lemma_pow0(x as int);
        lemma_mod_twice(1int * pow(x as int, n as nat), modulo as int);
        assert(1int * pow(x as int, n as nat) == pow(x as int, n as nat));
        assert((1int % (modulo as int)) * pow(x as int, n as nat) % (modulo as int) == pow(
            x as int,
            n as nat,
        ) % (modulo as int)) by {
            lemma_mul_mod_noop_general(1int, pow(x as int, n as nat), modulo as int);
        }
    }
    while e > 0
        invariant
            1 <= modulo <= 0xFFFF_FFFF,
            ret < modulo,
            base < modulo,
            (ret as int * pow(base as int, e as nat)) % (modulo as int) == pow(x as int, n as nat)
                % (modulo as int),
        decreases e,
    {
        proof {
            assert(ret * base <= 0xFFFF_FFFE * 0xFFFF_FFFE && base * base <= 0xFFFF_FFFE
                * 0xFFFF_FFFE) by (nonlinear_arith)
                requires
                    ret <= 0xFFFF_FFFE,
                    base <= 0xFFFF_FFFE,
            ;
        }
        if e % 2 == 1 {
            proof {
                lemma_powmod_step(ret as int, base as int, e as nat, modulo as int);
            }
            ret = (ret * base) % modulo;
        }
        proof {
            lemma_powmod_square(ret as int, base as int, (if e % 2 == 1 { e - 1 } else { e as int }) as nat, modulo as int);
        }
        base = (base * base) % modulo;
        e = e / 2;
    }
    proof {
        lemma_pow0(base as int);
        lemma_mod_twice(ret as int, modulo as int);
        vstd::arithmetic::div_mod::lemma_small_mod(ret as nat, modulo as nat);
    }
    ret
}

} // verus!

//! Modular helpers: canonical residues, modular inverses and binomial
//! coefficients with precomputed factorial tables.

use vstd::prelude::*;

verus! {

use crate::gcd::{extgcd, extgcd_spec, gcd_spec, lemma_extgcd_props};
use vstd::arithmetic::div_mod::{
    lemma_mod_twice, lemma_mul_mod_noop_general, lemma_small_mod, lemma_mod_bound,
};

/// Canonical residue of `a` modulo `m`: the result always lies in `[0, m)`.
pub fn signed_mod(a: i64, m: i64) -> (r: i64)
    requires
        1 <= m <= 0x4000_0000_0000_0000,
    ensures
        r == a as int % m as int,
{
    proof {
        lemma_mod_bound(a as int, m as int);
    }
    let t = a % m;
    let r = (t + m) % m;
    proof {
        assert(t as int == spec_trunc_mod(a as int, m as int));
        lemma_trunc_mod_rel(a as int, m as int);
        vstd::arithmetic::div_mod::lemma_mod_add_multiples_vanish(t as int, m as int);
        lemma_trunc_of_small(t + m, m as int);
    }
    r
}

/// Rust's truncated remainder for a possibly negative dividend.
pub open spec fn spec_trunc_mod(a: int, m: int) -> int {
    if a >= 0 {
        a % m
    } else {
        -((-a) % m)
    }
}

/// The truncated remainder differs from the canonical one by `0` or `m`.
proof fn lemma_trunc_mod_rel(a: int, m: int)
    requires
        m >= 1,
    ensures
        (spec_trunc_mod(a, m) + m) % m == a % m,
        -m < spec_trunc_mod(a, m) < m,
{
    if a >= 0 {
        lemma_mod_bound(a, m);
        vstd::arithmetic::div_mod::lemma_mod_add_multiples_vanish(a % m, m);
        lemma_mod_twice(a, m);
    } else {
        let b = -a;
        lemma_mod_bound(b, m);
        vstd::arithmetic::div_mod::lemma_fundamental_div_mod(b, m);
        assert(spec_trunc_mod(a, m) + m == m * ((b / m) + 1) + a) by (nonlinear_arith)
            requires
                b == -a,
                b % m == b - m * (b / m),
                spec_trunc_mod(a, m) == -(b % m),
        ;
        vstd::arithmetic::div_mod::lemma_mod_multiples_vanish((b / m) + 1, a, m);
    }
}

/// A nonnegative value below the modulus is its own truncated remainder.
proof fn lemma_trunc_of_small(v: int, m: int)
    requires
        m >= 1,
        0 <= v,
    ensures
        spec_trunc_mod(v, m) == v % m,
{
}

/// Modular inverse through the extended Euclidean algorithm.  When `a` and
/// `m` are coprime the result `r` satisfies `a * r == 1 (mod m)`.
pub fn invmod(a: i64, m: i64) -> (r: i64)
    requires
        0 <= a,
        2 <= m <= 0x4000_0000_0000_0000,
    ensures
        0 <= r < m,
        gcd_spec(a as nat, m as nat) == 1 ==> (a * r) % (m as int) == 1,
{
    proof {
        lemma_extgcd_props(a as int, m as int);
    }
    let (_d, x, _y) = extgcd(a, m);
    let r = signed_mod(x, m);
    proof {
        lemma_mod_bound(x as int, m as int);
        if gcd_spec(a as nat, m as nat) == 1 {
            let xi = x as int;
            let yi = _y as int;
            let ai = a as int;
            let mi = m as int;
            assert(ai * xi + mi * yi == 1);
            assert((ai * (xi % mi)) % mi == (ai * xi) % mi) by {
                lemma_mul_mod_noop_general(ai, xi, mi);
            }
            assert(ai * xi == 1 - mi * yi);
            assert((1int - mi * yi) % mi == 1int % mi) by {
                vstd::arithmetic::div_mod::lemma_mod_multiples_vanish(-yi, 1int, mi);
                assert(mi * (-yi) + 1int == 1 - mi * yi) by (nonlinear_arith);
            }
            lemma_small_mod(1nat, m as nat);
        }
    }
    r
}

/// Modular exponentiation; see [`crate::power::powmod`].
pub fn powmod(x: u64, n: u64, modulo: u64) -> (r: u64)
    requires
        1 <= modulo <= 0xFFFF_FFFF,
        x < modulo,
    ensures
        r == vstd::arithmetic::power::pow(x as int, n as nat) % (modulo as int),
{
    crate::power::powmod(x, n, modulo)
}

/// Factorials modulo `m`, as the table construction computes them.
pub open spec fn fac_spec(i: nat, m: int) -> int
    decreases i,
{
    if i <= 1 {
        1
    } else {
        fac_spec((i - 1) as nat, m) * i % m
    }
}

/// The inverse table of the construction: `inv[i] == m - inv[m % i] * (m / i) % m`.
pub open spec fn inv_spec(i: nat, m: int) -> int
    decreases i,
{
    if i == 0 {
        0
    } else if i == 1 {
        1
    } else {
        m - (inv_spec((m % i as int) as nat, m) * (m / i as int)) % m
    }
}

/// Inverse factorials modulo `m`.
pub open spec fn ifac_spec(i: nat, m: int) -> int
    decreases i,
{
    if i <= 1 {
        1
    } else {
        ifac_spec((i - 1) as nat, m) * inv_spec(i, m) % m
    }
}

/// Binomial coefficient as computed from the tables.
pub open spec fn comb_spec(n: nat, r: nat, m: int) -> int {
    if n < r {
        0
    } else {
        fac_spec(n, m) * ((ifac_spec(r, m) * ifac_spec((n - r) as nat, m)) % m) % m
    }
}

/// Binomial coefficients modulo `m` from precomputed factorial tables.
pub struct Combination {
    m: i64,
    fac: Vec<i64>,
    ifac: Vec<i64>,
}

impl Combination {
    /// The tables hold the modular factorials and inverse factorials below
    /// `capacity`, and the modulus is moderate enough that products of two
    /// residues stay in range.
    pub closed spec fn wf(self) -> bool {
        &&& 2 <= self.m <= 0x8000_0000
        &&& self.fac.len() == self.ifac.len()
        &&& 2 <= self.fac.len()
        &&& forall|i: int|
            0 <= i < self.fac.len() ==> #[trigger] self.fac[i] == fac_spec(i as nat, self.m as int)
                && 0 <= self.fac[i] < self.m
        &&& forall|i: int|
            0 <= i < self.ifac.len() ==> #[trigger] self.ifac[i] == ifac_spec(
                i as nat,
                self.m as int,
            ) && 0 <= self.ifac[i] < self.m
    }

    pub closed spec fn capacity(self) -> int {
        self.fac.len() as int
    }

    pub closed spec fn modulus(self) -> int {
        self.m as int
    }

    /// Builds the factorial tables for arguments below `n`.
    pub fn new(n: usize, m: i64) -> (r: Combination)
        requires
            2 <= n <= 0x8000_0000,
            2 <= m <= 0x8000_0000,
        ensures
            r.wf(),
            r.capacity() == n,
            r.modulus() == m,
    {
        let mut fac: Vec<i64> = Vec::new();
        let mut inv: Vec<i64> = Vec::new();
        let mut ifac: Vec<i64> = Vec::new();
        fac.push(1);
        fac.push(1);
        inv.push(0);
        inv.push(1);
        ifac.push(1);
        ifac.push(1);
        let mut i: usize = 2;
        while i < n
            invariant
                2 <= i <= n,
                n <= 0x8000_0000,
                2 <= m <= 0x8000_0000,
                fac.len() == i && inv.len() == i && ifac.len() == i,
                forall|j: int|
                    0 <= j < i ==> #[trigger] fac[j] == fac_spec(j as nat, m as int) && 0 <= fac[j]
                        < m,
                forall|j: int|
                    0 <= j < i ==> #[trigger] inv[j] == inv_spec(j as nat, m as int) && 0 <= inv[j]
                        <= m,
                forall|j: int|
                    0 <= j < i ==> #[trigger] ifac[j] == ifac_spec(j as nat, m as int) && 0
                        <= ifac[j] < m,
            decreases n - i,
        {
            let iu = i as i64;
            proof {
                assert(fac[i - 1] * iu <= m * 0x8000_0000 && fac[i - 1] * iu >= 0)
                    by (nonlinear_arith)
                    requires
                        0 <= fac[i - 1] < m <= 0x8000_0000,
                        0 <= iu <= 0x8000_0000,
                ;
                lemma_mod_bound(fac[i - 1] as int * iu as int, m as int);
            }
            let f = fac[i - 1] * iu % m;
            fac.push(f);
            let idx = (m % iu) as usize;
            proof {
                lemma_mod_bound(m as int, iu as int);
                assert(inv[idx as int] * (m / iu) <= m * 0x8000_0000 && inv[idx as int] * (m / iu)
                    >= 0) by (nonlinear_arith)
                    requires
                        0 <= inv[idx as int] <= m <= 0x8000_0000,
                        0 <= m / iu <= m,
                ;
                lemma_mod_bound(inv[idx as int] as int * (m / iu) as int, m as int);
            }
            let iv = m - inv[idx] * (m / iu) % m;
            inv.push(iv);
            proof {
                assert(ifac[i - 1] * iv <= m * 0x8000_0000 && ifac[i - 1] * iv >= 0)
                    by (nonlinear_arith)
                    requires
                        0 <= ifac[i - 1] < m <= 0x8000_0000,
                        0 <= iv <= m,
                ;
                lemma_mod_bound(ifac[i - 1] as int * iv as int, m as int);
            }
            let g = ifac[i - 1] * iv % m;
            ifac.push(g);
            i = i + 1;
        }
        Combination { m, fac, ifac }
    }

    /// `comb(n, r)` modulo the configured modulus; zero when `n < r`.
    pub fn comb(&self, n: usize, r: usize) -> (c: i64)
        requires
            self.wf(),
            n < self.capacity(),
            r < self.capacity(),
        ensures
            c == comb_spec(n as nat, r as nat, self.modulus()),
            0 <= c < self.modulus(),
    {
        let m = self.m;
        if n < r {
            0
        } else {
            proof {
                assert(self.ifac[r as int] * self.ifac[n - r] <= m * 0x8000_0000
                    && self.ifac[r as int] * self.ifac[n - r] >= 0) by (nonlinear_arith)
                    requires
                        0 <= self.ifac[r as int] < m <= 0x8000_0000,
                        0 <= self.ifac[n - r] < m,
                ;
                lemma_mod_bound(self.ifac[r as int] as int * self.ifac[n - r] as int, m as int);
            }
            let t = self.ifac[r] * self.ifac[n - r] % m;
            proof {
                assert(self.fac[n as int] * t <= m * 0x8000_0000 && self.fac[n as int] * t >= 0)
                    by (nonlinear_arith)
                    requires
                        0 <= self.fac[n as int] < m <= 0x8000_0000,
                        0 <= t < m,
                ;
                lemma_mod_bound(self.fac[n as int] as int * t as int, m as int);
            }
            self.fac[n] * t % m
        }
    }
}

} // verus!

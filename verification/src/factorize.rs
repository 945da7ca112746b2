//! Prime factorisation by trial division.

use vstd::prelude::*;

verus! {

broadcast use vstd::std_specs::hash::group_hash_axioms;

use std::collections::HashMap;
use vstd::std_specs::hash::*;

/// Product of a sequence of factors.
pub open spec fn seq_product(s: Seq<u64>) -> int
    decreases s.len(),
{
    if s.len() == 0 {
        1
    } else {
        seq_product(s.drop_last()) * s.last()
    }
}

/// Primality of a natural number.
pub open spec fn is_prime(p: nat) -> bool {
    p >= 2 && forall|d: nat| 2 <= d < p ==> #[trigger] (p % d) != 0
}

/// Every element of a sequence divides the product of the sequence.
proof fn lemma_product_divisible(s: Seq<u64>, k: int)
    requires
        0 <= k < s.len(),
        forall|j: int| 0 <= j < s.len() ==> #[trigger] s[j] >= 1,
    ensures
        seq_product(s) % (s[k] as int) == 0,
        seq_product(s) >= 1,
    decreases s.len(),
{
    lemma_product_positive(s);
    if k == s.len() - 1 {
        lemma_product_positive(s.drop_last());
        vstd::arithmetic::div_mod::lemma_mod_multiples_basic(
            seq_product(s.drop_last()),
            s[k] as int,
        );
    } else {
        lemma_product_divisible(s.drop_last(), k);
        let p = seq_product(s.drop_last());
        let d = s[k] as int;
        let l = s.last() as int;
        vstd::arithmetic::div_mod::lemma_fundamental_div_mod(p, d);
        assert((p * l) % d == 0) by {
            vstd::arithmetic::div_mod::lemma_mod_multiples_basic((p / d) * l, d);
            assert(p * l == ((p / d) * l) * d) by (nonlinear_arith)
                requires
                    p == d * (p / d),
            ;
        }
    }
}

/// The product of positive factors is positive.
proof fn lemma_product_positive(s: Seq<u64>)
    requires
        forall|j: int| 0 <= j < s.len() ==> #[trigger] s[j] >= 1,
    ensures
        seq_product(s) >= 1,
    decreases s.len(),
{
    if s.len() > 0 {
        lemma_product_positive(s.drop_last());
        assert(seq_product(s.drop_last()) * s.last() >= 1) by (nonlinear_arith)
            requires
                seq_product(s.drop_last()) >= 1,
                s.last() >= 1,
        ;
    }
}

/// Transitivity of divisibility, stated over `%`.
proof fn lemma_divides_transitive(a: int, b: int, c: int)
    requires
        1 <= a,
        1 <= b,
        0 <= c,
        b % a == 0,
        c % b == 0,
    ensures
        c % a == 0,
{
    vstd::arithmetic::div_mod::lemma_fundamental_div_mod(b, a);
    vstd::arithmetic::div_mod::lemma_fundamental_div_mod(c, b);
    assert(c == ((b / a) * (c / b)) * a) by (nonlinear_arith)
        requires
            b == a * (b / a),
            c == b * (c / b),
    ;
    vstd::arithmetic::div_mod::lemma_mod_multiples_basic((b / a) * (c / b), a);
}

/// An even number never divides an odd one.
proof fn lemma_odd_has_no_even_divisor(n: int, d: int)
    requires
        1 <= n,
        2 <= d,
        n % 2 != 0,
        d % 2 == 0,
    ensures
        n % d != 0,
{
    if n % d == 0 {
        lemma_divides_transitive(2, d, n);
    }
}

/// Returns the prime factors of `n` in nondecreasing order; their product
/// is exactly `n` and each factor divides `n`.
pub fn factorize(n: u64) -> (r: Vec<u64>)
    requires
        1 <= n,
    ensures
        seq_product(r@) == n,
        forall|k: int| 0 <= k < r@.len() ==> is_prime(#[trigger] r@[k] as nat),
        forall|a: int, b: int| 0 <= a < b < r@.len() ==> r@[a] <= r@[b],
        forall|k: int| 0 <= k < r@.len() ==> n % #[trigger] r@[k] == 0,
{
    let mut ret: Vec<u64> = Vec::new();
    let mut m = n;
    while m % 2 == 0
        invariant
            1 <= m <= n,
            seq_product(ret@) * m == n,
            forall|k: int| 0 <= k < ret@.len() ==> #[trigger] ret@[k] == 2,
        decreases m,
    {
        proof {
            vstd::arithmetic::div_mod::lemma_fundamental_div_mod(m as int, 2);
            assert(ret@.push(2).drop_last() =~= ret@);
            assert(seq_product(ret@.push(2)) == seq_product(ret@) * 2);
            assert((seq_product(ret@) * 2) * (m / 2) == seq_product(ret@) * m) by (nonlinear_arith)
                requires
                    m == 2 * (m / 2),
            ;
        }
        ret.push(2);
        m = m / 2;
    }
    let mut i: u64 = 3;
    while i <= m / i
        invariant
            1 <= m <= n,
            m % 2 != 0,
            3 <= i,
            i % 2 == 1,
            seq_product(ret@) * m == n,
            forall|k: int| 0 <= k < ret@.len() ==> 2 <= #[trigger] ret@[k] <= i,
            forall|k: int| 0 <= k < ret@.len() ==> is_prime(#[trigger] ret@[k] as nat),
            forall|a: int, b: int| 0 <= a < b < ret@.len() ==> ret@[a] <= ret@[b],
            forall|d: u64| 2 <= d < i ==> #[trigger] (m % d) != 0,
        decreases m as int, 0x1_0000_0000_0000_0000 - i as int,
    {
        proof {
            vstd::arithmetic::div_mod::lemma_fundamental_div_mod(m as int, i as int);
            assert(i * i <= m) by (nonlinear_arith)
                requires
                    1 <= i,
                    i <= m / i,
                    m == i * (m / i) + m % i,
                    0 <= m % i,
            ;
            assert(i < u64::MAX - 2) by (nonlinear_arith)
                requires
                    3 <= i,
                    i * i <= m,
                    m <= u64::MAX,
            ;
        }
        let ghost m0 = m;
        while m % i == 0
            invariant
                1 <= m <= m0 <= n,
                3 <= i < u64::MAX - 2,
                seq_product(ret@) * m == n,
                forall|k: int| 0 <= k < ret@.len() ==> 2 <= #[trigger] ret@[k] <= i,
                forall|k: int| 0 <= k < ret@.len() ==> is_prime(#[trigger] ret@[k] as nat),
                forall|a: int, b: int| 0 <= a < b < ret@.len() ==> ret@[a] <= ret@[b],
                forall|d: u64| 2 <= d < i ==> #[trigger] (m % d) != 0,
                m % 2 != 0,
            decreases m,
        {
            proof {
                assert(is_prime(i as nat)) by {
                    assert forall|d: nat| 2 <= d < i implies #[trigger] ((i as nat) % d) != 0 by {
                        if (i as nat) % d == 0 {
                            lemma_divides_transitive(d as int, i as int, m as int);
                        }
                    }
                }
                vstd::arithmetic::div_mod::lemma_fundamental_div_mod(m as int, i as int);
                assert(ret@.push(i).drop_last() =~= ret@);
                assert(seq_product(ret@.push(i)) == seq_product(ret@) * i);
                assert((seq_product(ret@) * i) * (m / i) == seq_product(ret@) * m)
                    by (nonlinear_arith)
                    requires
                        m == i * (m / i),
                ;
                // dividing out i keeps every smaller factor excluded
                assert forall|d: u64| 2 <= d < i implies #[trigger] ((m / i) % d) != 0 by {
                    if (m / i) % d == 0 {
                        assert(m % (m / i) == 0) by {
                            vstd::arithmetic::div_mod::lemma_mod_multiples_basic(
                                i as int,
                                (m / i) as int,
                            );
                            assert(i * (m / i) == (m / i) * i) by (nonlinear_arith);
                        }
                        lemma_divides_transitive(d as int, (m / i) as int, m as int);
                    }
                }
                assert(m / i >= 1) by (nonlinear_arith)
                    requires
                        m == i * (m / i),
                        m >= 1,
                        i >= 1,
                ;
                assert((m / i) % 2 != 0) by {
                    if (m / i) % 2 == 0 {
                        assert(m % (m / i) == 0) by {
                            vstd::arithmetic::div_mod::lemma_mod_multiples_basic(
                                i as int,
                                (m / i) as int,
                            );
                            assert(i * (m / i) == (m / i) * i) by (nonlinear_arith);
                        }
                        lemma_divides_transitive(2, (m / i) as int, m as int);
                    }
                }
                assert(m / i < m) by (nonlinear_arith)
                    requires
                        m == i * (m / i),
                        m >= 1,
                        i >= 3,
                ;
            }
            ret.push(i);
            m = m / i;
        }
        proof {
            assert forall|d: u64| 2 <= d < i + 2 implies #[trigger] (m % d) != 0 by {
                if d == i + 1 {
                    assert((i + 1) % 2 == 0);
                    lemma_odd_has_no_even_divisor(m as int, d as int);
                }
            }
        }
        i = i + 2;
    }
    proof {
        vstd::arithmetic::div_mod::lemma_fundamental_div_mod(m as int, i as int);
        assert(i * i > m) by (nonlinear_arith)
            requires
                i >= 1,
                i > m / i,
                m == i * (m / i) + m % i,
                0 <= m % i < i,
        ;
    }
    if m > 1 {
        proof {
            assert(m > 2);
            assert(is_prime(m as nat)) by {
                assert forall|d: nat| 2 <= d < m implies #[trigger] ((m as nat) % d) != 0 by {
                    if (m as nat) % d == 0 {
                        if d >= i {
                            let e = m as int / d as int;
                            vstd::arithmetic::div_mod::lemma_fundamental_div_mod(m as int, d as int);
                            assert(2 <= e < i) by (nonlinear_arith)
                                requires
                                    m == d * e + (m as int % d as int),
                                    (m as int) % (d as int) == 0,
                                    i <= d < m,
                                    i * i > m,
                                    i >= 3,
                                    m >= 1,
                            ;
                            assert(m % (e as u64) == 0) by {
                                vstd::arithmetic::div_mod::lemma_mod_multiples_basic(d as int, e);
                                assert(d as int * e == e * d as int) by (nonlinear_arith);
                            }
                        }
                    }
                }
            }
            assert(m >= i) by {
                if m < i {
                    assert(m % m == 0) by {
                        vstd::arithmetic::div_mod::lemma_mod_self_0(m as int);
                    }
                }
            }
            assert(ret@.push(m).drop_last() =~= ret@);
            assert(seq_product(ret@.push(m)) == seq_product(ret@) * m);
        }
        ret.push(m);
    }
    proof {
        if m == 1 {
            assert(seq_product(ret@) * 1 == seq_product(ret@)) by (nonlinear_arith);
        }
        assert forall|k: int| 0 <= k < ret@.len() implies n % #[trigger] ret@[k] == 0 by {
            lemma_product_divisible(ret@, k);
        }
    }
    ret
}

/// Prime factors of `n` with their multiplicities.  Every key is a prime
/// divisor of `n` and every stored count is positive.
pub fn factorize_pair(n: u64) -> (r: HashMap<u64, u64>)
    requires
        1 <= n,
    ensures
        forall|p: u64|
            #[trigger] r@.contains_key(p) ==> is_prime(p as nat) && n % p == 0 && 1 <= r@[p],
{
    let fs = factorize(n);
    let mut r: HashMap<u64, u64> = HashMap::new();
    let mut k: usize = 0;
    while k < fs.len()
        invariant
            0 <= k <= fs.len(),
            forall|j: int| 0 <= j < fs@.len() ==> is_prime(#[trigger] fs@[j] as nat),
            forall|j: int| 0 <= j < fs@.len() ==> n % #[trigger] fs@[j] == 0,
            forall|p: u64|
                #[trigger] r@.contains_key(p) ==> is_prime(p as nat) && n % p == 0 && 1 <= r@[p],
        decreases fs.len() - k,
    {
        let p = fs[k];
        let cur = match r.get(&p) {
            Some(c) => *c,
            None => 0,
        };
        let next = if cur < u64::MAX { cur + 1 } else { cur };
        let ghost rpre = r@;
        r.insert(p, next);
        proof {
            assert(r@ == rpre.insert(p, next));
            assert(r@[p] == next && next >= 1);
            assert forall|q: u64| #[trigger] r@.contains_key(q) implies is_prime(q as nat) && n % q == 0
                && 1 <= r@[q] by {
                if q == p {
                    assert(is_prime(fs@[k as int] as nat));
                    assert(n % fs@[k as int] == 0);
                } else {
                    assert(r@[q] == rpre[q] && rpre.contains_key(q));
                    assert(is_prime(q as nat) && n % q == 0 && 1 <= rpre[q]);
                }
            }
        }
        k = k + 1;
    }
    r
}

} // verus!

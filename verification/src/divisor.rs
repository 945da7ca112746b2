//! Enumeration of the divisors of a number in increasing order.

use vstd::prelude::*;

verus! {

broadcast use vstd::seq_lib::group_seq_properties;

/// Returns the divisors of `n` in strictly increasing order: every entry
/// divides `n` and every divisor of `n` appears.
pub fn divisor(n: u64) -> (r: Vec<u64>)
    requires
        1 <= n,
    ensures
        forall|a: int, b: int| 0 <= a < b < r@.len() ==> r@[a] < r@[b],
        forall|k: int| 0 <= k < r@.len() ==> 1 <= #[trigger] r@[k] <= n && n % r@[k] == 0,
        forall|d: u64| 1 <= d <= n && n % d == 0 ==> r@.contains(d),
{
    let mut small: Vec<u64> = Vec::new();
    let mut large: Vec<u64> = Vec::new();
    let mut i: u64 = 1;
    while i <= n / i
        invariant
            1 <= n,
            1 <= i,
            i as int <= n as int + 1,
            forall|k: int|
                0 <= k < small@.len() ==> 1 <= #[trigger] small@[k] && small@[k] < i && n
                    % small@[k] == 0 && small@[k] * small@[k] <= n,
            forall|a: int, b: int| 0 <= a < b < small@.len() ==> small@[a] < small@[b],
            forall|k: int|
                0 <= k < large@.len() ==> 1 <= #[trigger] large@[k] && large@[k] <= n && n
                    % large@[k] == 0 && large@[k] * large@[k] > n && large@[k] * i > n,
            forall|a: int, b: int| 0 <= a < b < large@.len() ==> large@[a] > large@[b],
            forall|d: u64| 1 <= d < i && n % d == 0 ==> small@.contains(d),
            forall|d: u64, e: u64|
                1 <= e < i && #[trigger] (d * e) == n && d * d > n ==> large@.contains(d),
        decreases n as int + 1 - i,
    {
        proof {
            vstd::arithmetic::div_mod::lemma_fundamental_div_mod(n as int, i as int);
            assert(i * i <= n) by (nonlinear_arith)
                requires
                    1 <= i,
                    i <= n / i,
                    n == i * (n / i) + n % i,
                    0 <= n % i,
            ;
            assert(i < u64::MAX) by (nonlinear_arith)
                requires
                    1 <= i,
                    i * i <= n,
                    n <= u64::MAX,
            ;
        }
        let c = n / i;
        if n % i == 0 {
            proof {
                assert(c * i == n);
            }
            small.push(i);
            if i != c {
                proof {
                    assert(c * c > n && i < c && n % c == 0) by (nonlinear_arith)
                        requires
                            1 <= i,
                            i != c,
                            c * i == n,
                            i * i <= n,
                            n >= 1,
                    ;
                    assert forall|k: int| 0 <= k < large@.len() implies #[trigger] large@[k]
                        > c by {
                        assert(large@[k] > c) by (nonlinear_arith)
                            requires
                                large@[k] * i > n,
                                c * i == n,
                                i >= 1,
                        ;
                    }
                }
                large.push(c);
            }
        }
        proof {
            assert forall|d: u64, e: u64|
                1 <= e < i + 1 && #[trigger] (d * e) == n && d * d > n implies large@.contains(
                d,
            ) by {
                if e == i {
                    assert(n % i == 0) by {
                        vstd::arithmetic::div_mod::lemma_mod_multiples_basic(d as int, i as int);
                        assert(d * i == i * d) by (nonlinear_arith);
                    }
                    assert(d == c) by (nonlinear_arith)
                        requires
                            d * i == n,
                            c * i == n,
                            i >= 1,
                    ;
                    assert(i != c) by (nonlinear_arith)
                        requires
                            d * i == n,
                            d == c,
                            d * d > n,
                            i >= 1,
                            d >= 1,
                    ;
                    assert(large@[large@.len() - 1] == c);
                }
            }
            assert forall|k: int| 0 <= k < large@.len() implies #[trigger] large@[k] * (i + 1)
                > n by {
                assert(large@[k] * (i + 1) > n) by (nonlinear_arith)
                    requires
                        large@[k] * i > n || (large@[k] == n / i && large@[k] * i == n),
                        large@[k] >= 1,
                        i >= 1,
                ;
            }
        }
        i = i + 1;
    }
    proof {
        vstd::arithmetic::div_mod::lemma_fundamental_div_mod(n as int, i as int);
        assert(i * i > n) by (nonlinear_arith)
            requires
                i >= 1,
                i > n / i,
                n == i * (n / i) + n % i,
                0 <= n % i < i,
        ;
        assert forall|d: u64| 1 <= d <= n && n % d == 0 && d >= i implies large@.contains(d) by {
            vstd::arithmetic::div_mod::lemma_fundamental_div_mod(n as int, d as int);
            let e = n / d;
            assert(d * e == n && 1 <= e && e < i && d * d > n) by (nonlinear_arith)
                requires
                    d >= i,
                    i * i > n,
                    i >= 1,
                    d >= 1,
                    n >= 1,
                    n == d * e + n % d,
                    n % d == 0,
            ;
        }
        assert forall|d: u64| 1 <= d <= n && n % d == 0 implies small@.contains(d) || exists|
            kl: int,
        | 0 <= kl < large@.len() && large@[kl] == d by {
            if d >= i {
                assert(large@.contains(d));
            }
        }
        assert forall|ks: int, kl: int|
            0 <= ks < small@.len() && 0 <= kl < large@.len() implies #[trigger] small@[ks]
            < #[trigger] large@[kl] by {
            assert(small@[ks] < large@[kl]) by (nonlinear_arith)
                requires
                    small@[ks] * small@[ks] <= n,
                    large@[kl] * large@[kl] > n,
                    small@[ks] >= 1,
                    large@[kl] >= 1,
            ;
        }
    }
    let mut j = large.len();
    while j > 0
        invariant
            0 <= j <= large@.len(),
            1 <= n,
            forall|k: int|
                0 <= k < large@.len() ==> 1 <= #[trigger] large@[k] && large@[k] <= n && n
                    % large@[k] == 0,
            forall|a: int, b: int| 0 <= a < b < large@.len() ==> large@[a] > large@[b],
            forall|k: int|
                0 <= k < small@.len() ==> 1 <= #[trigger] small@[k] && small@[k] <= n && n
                    % small@[k] == 0,
            forall|a: int, b: int| 0 <= a < b < small@.len() ==> small@[a] < small@[b],
            forall|ks: int, kl: int|
                0 <= ks < small@.len() && 0 <= kl < j ==> #[trigger] small@[ks]
                    < #[trigger] large@[kl],
            forall|d: u64|
                1 <= d <= n && n % d == 0 ==> small@.contains(d) || exists|kl: int|
                    0 <= kl < j && large@[kl] == d,
        decreases j,
    {
        j = j - 1;
        let v = large[j];
        small.push(v);
        proof {
            assert forall|d: u64| 1 <= d <= n && n % d == 0 implies small@.contains(d) || exists|
                kl: int,
            | 0 <= kl < j && large@[kl] == d by {
                if !small@.contains(d) {
                    if exists|kl: int| 0 <= kl < j + 1 && large@[kl] == d {
                        let kl = choose|kl: int| 0 <= kl < j + 1 && large@[kl] == d;
                        if kl == j {
                            assert(small@[small@.len() - 1] == d);
                        }
                    }
                }
            }
        }
    }
    small
}

} // verus!

use algolib::algebra::{Bounded, One, Signed, Zero};
use algolib::divisor::divisor;
use algolib::factorize::{factorize, factorize_pair};
use algolib::gcd::{extgcd, gcd, lcm};
use algolib::modops::{invmod, signed_mod, Combination};
use std::collections::HashMap;

#[test]
fn test_traits_unsigned() {
    assert_eq!(u128::zero(), 0u128);
    assert!(0u128.is_zero());
    assert!(!1u128.is_zero());
    assert_eq!(<u128 as One>::one(), 1u128);
    assert!(1u128.is_one());
    assert!(!0u128.is_one());
    assert_eq!(<u128 as Bounded>::max_value(), std::u128::MAX);
    assert_eq!(<u128 as Bounded>::min_value(), std::u128::MIN);
}

#[test]
fn test_traits_signed() {
    assert_eq!(i128::zero(), 0i128);
    assert!(0i128.is_zero());
    assert!(!1i128.is_zero());
    assert_eq!(<i128 as One>::one(), 1i128);
    assert!(1i128.is_one());
    assert!(!0i128.is_one());
    assert_eq!(<i128 as Bounded>::max_value(), std::i128::MAX);
    assert_eq!(<i128 as Bounded>::min_value(), std::i128::MIN);
    assert!((-5i128).is_negative());
    assert!(!(-5i128).is_positive());
    assert!(!5i128.is_negative());
    assert!(5i128.is_positive());
    assert_eq!((-3i128).abs(), 3i128);
    assert_eq!(3i128.abs(), 3i128);
}

#[test]
fn test_divisor() {
    let s = divisor(108);
    assert_eq!(s, vec![1, 2, 3, 4, 6, 9, 12, 18, 27, 36, 54, 108]);
    let s = divisor(1);
    assert_eq!(s, vec![1]);
    let s = divisor(25);
    assert_eq!(s, vec![1, 5, 25]);
    let s = divisor(65536);
    assert_eq!(
        s,
        vec![1, 2, 4, 8, 16, 32, 64, 128, 256, 512, 1024, 2048, 4096, 8192, 16384, 32768, 65536]
    );
}

#[test]
fn test_factorize() {
    assert_eq!(factorize(24), vec![2, 2, 2, 3]);
    assert_eq!(factorize(498640), vec![2, 2, 2, 2, 5, 23, 271]);
}

#[test]
fn test_factorize_large_prime() {
    assert_eq!(factorize(1_000_000_000_039), vec![1_000_000_000_039]);
}

#[test]
fn test_factorize_pair() {
    let mut map = HashMap::new();
    map.insert(2, 4);
    map.insert(5, 1);
    map.insert(23, 1);
    map.insert(271, 1);
    assert_eq!(factorize_pair(498640), map);
}

#[test]
fn test_gcd_small() {
    assert_eq!(gcd(12, 15), 3);
    assert_eq!(gcd(60, 75), 15);
    assert_eq!(gcd(19, 48), 1);
    assert_eq!(gcd(1, 1), 1);
    assert_eq!(gcd(1, 5), 1);
}

#[test]
fn test_lcm_small() {
    assert_eq!(lcm(12, 15), 60);
    assert_eq!(lcm(60, 75), 300);
    assert_eq!(lcm(19, 48), 912);
    assert_eq!(lcm(1, 1), 1);
    assert_eq!(lcm(1, 5), 5);
}

#[test]
fn test_gcd_large() {
    assert_eq!(gcd(4785420, 4478120), 20);
    assert_eq!(gcd(187812024, 563436072), 187812024);
}

#[test]
fn test_lcm_large() {
    assert_eq!(lcm(4785420, 4478120), 1071484250520);
    assert_eq!(lcm(187812024, 563436072), 563436072);
}

#[test]
fn test_extgcd() {
    assert_eq!(extgcd(12, 15), (3, -1, 1));
    assert_eq!(extgcd(78947, 67465), (1, 29643, -34688));
    assert_eq!(extgcd(47, 998244353), (1, 191153174, -9));
}

#[test]
fn test_signed_mod() {
    assert_eq!(signed_mod(-1, 7), 6);
    assert_eq!(signed_mod(-14, 7), 0);
    assert_eq!(signed_mod(-100, 7), 5);
    assert_eq!(signed_mod(4, 7), 4);
    assert_eq!(signed_mod(9, 7), 2);
}

#[test]
fn modops_test_invmod() {
    assert_eq!(invmod(3, 7), 5);
    assert_eq!(invmod(2, 429), 215);
    assert_eq!(invmod(123_456_789, 1_000_000_007), 18_633_540);
}

#[test]
fn modops_test_powmod_mod7() {
    assert_eq!(algolib::modops::powmod(2, 2, 7), 4);
    assert_eq!(algolib::modops::powmod(2, 3, 7), 1);
    assert_eq!(algolib::modops::powmod(2, 0, 7), 1);
}

#[test]
fn modops_test_powmod_mod1e9p7() {
    let m = 1_000_000_007;
    assert_eq!(algolib::modops::powmod(18, 75, m), 879190096);
    assert_eq!(algolib::modops::powmod(977812, 8877774, m), 758213842);
}

#[test]
fn power_test_powmod_mod7() {
    assert_eq!(algolib::power::powmod(2, 2, 7), 4);
    assert_eq!(algolib::power::powmod(2, 3, 7), 1);
    assert_eq!(algolib::power::powmod(2, 0, 7), 1);
}

#[test]
fn power_test_powmod_mod1e9p7() {
    let m = 1_000_000_007;
    assert_eq!(algolib::power::powmod(18, 75, m), 879190096);
    assert_eq!(algolib::power::powmod(977812, 8877774, m), 758213842);
}

#[test]
fn test_combination_small() {
    let c = Combination::new(20, 419);
    assert_eq!(c.comb(12, 1), 12);
    assert_eq!(c.comb(12, 4), 76);
}

#[test]
fn test_combination_large() {
    let c = Combination::new(100_001, 1_000_000_007);
    assert_eq!(c.comb(100_000, 50_000), 149_033_233);
    assert_eq!(c.comb(77_777, 7_777), 508_121_884);
}

#[test]
fn comb_is_zero_when_too_many_chosen() {
    let c = Combination::new(10, 419);
    assert_eq!(c.comb(3, 7), 0);
}

use aks_primes::aks::{aks_primality, verify_with_radius};
use aks_primes::arith::{ceil_sqrt, euler_totient, floor_log2, gcd};
use aks_primes::perfect_power::is_perfect_power;
use aks_primes::poly::{check_congruence, multiply_polynomials, polynomial_pow_mod};
use aks_primes::radius::{find_r, order_exceeds_bound};

fn trial_division(n: u64) -> bool {
    if n < 2 {
        return false;
    }
    let mut d = 2;
    while d * d <= n {
        if n % d == 0 {
            return false;
        }
        d += 1;
    }
    true
}

#[test]
fn known_primes_and_composites() {
    assert!(aks_primality(2));
    assert!(!aks_primality(4));
    assert!(aks_primality(31));
    assert!(!aks_primality(49));
    assert!(!aks_primality(561));
    assert!(aks_primality(97));
}

#[test]
fn small_inputs_are_not_prime() {
    assert!(!aks_primality(0));
    assert!(!aks_primality(1));
    assert!(aks_primality(3));
    assert!(aks_primality(5));
    assert!(aks_primality(7));
    assert!(!aks_primality(9));
}

#[test]
fn agrees_with_trial_division() {
    for n in 0..=200u64 {
        assert_eq!(aks_primality(n), trial_division(n), "n = {}", n);
    }
}

#[test]
fn larger_primes_and_composites() {
    assert!(aks_primality(1009));
    assert!(!aks_primality(1001));
    assert!(!aks_primality(1105));
}

#[test]
fn perfect_powers_are_detected() {
    assert!(is_perfect_power(16));
    assert!(is_perfect_power(27));
    assert!(is_perfect_power(1024));
    assert!(!is_perfect_power(18));
    assert!(!is_perfect_power(30));
}

#[test]
fn perfect_power_edges() {
    assert!(!is_perfect_power(0));
    assert!(!is_perfect_power(1));
    assert!(!is_perfect_power(2));
    assert!(is_perfect_power(4));
    assert!(is_perfect_power(3_486_784_401));
    assert!(!is_perfect_power(3_486_784_402));
    assert!(is_perfect_power(1 << 63));
    assert!(!is_perfect_power(u64::MAX));
}

fn order_exceeds_by_hand(n: u64, r: u64, m: u64) -> bool {
    let mut cur = 1 % r;
    for _ in 0..m {
        cur = cur * (n % r) % r;
        if cur == 1 {
            return false;
        }
    }
    true
}

#[test]
fn radius_for_thirty_one() {
    let r = find_r(31, 16).unwrap();
    assert_eq!(gcd(31, r), 1);
    assert!(order_exceeds_by_hand(31, r, 16));
    for s in 2..r {
        assert!(gcd(31, s) != 1 || !order_exceeds_by_hand(31, s, 16));
    }
    assert_eq!(r, 29);
}

#[test]
fn order_bound_check() {
    // 2 has order 4 modulo 5.
    assert!(order_exceeds_bound(2, 5, 3));
    assert!(!order_exceeds_bound(2, 5, 4));
    assert!(order_exceeds_bound(7, 10, 0));
}

#[test]
fn totient_values() {
    assert_eq!(euler_totient(0), 0);
    assert_eq!(euler_totient(1), 1);
    assert_eq!(euler_totient(9), 6);
    assert_eq!(euler_totient(12), 4);
    assert_eq!(euler_totient(36), 12);
    for p in [2u64, 3, 5, 7, 11, 13, 97, 101] {
        assert_eq!(euler_totient(p), p - 1);
    }
}

#[test]
fn gcd_values() {
    assert_eq!(gcd(12, 18), 6);
    assert_eq!(gcd(31, 29), 1);
    assert_eq!(gcd(0, 5), 5);
    assert_eq!(gcd(5, 0), 5);
}

#[test]
fn log_and_root() {
    assert_eq!(floor_log2(1), 0);
    assert_eq!(floor_log2(31), 4);
    assert_eq!(floor_log2(32), 5);
    assert_eq!(floor_log2(u64::MAX), 63);
    assert_eq!(ceil_sqrt(0), 0);
    assert_eq!(ceil_sqrt(16), 4);
    assert_eq!(ceil_sqrt(17), 5);
    assert_eq!(ceil_sqrt(u64::MAX), 1 << 32);
}

#[test]
fn identity_product_leaves_polynomial() {
    let one = vec![1u64, 0, 0, 0, 0];
    let p = vec![3u64, 0, 6, 2, 1];
    assert_eq!(multiply_polynomials(&one, &p, 5, 7), p);
    assert_eq!(multiply_polynomials(&p, &one, 5, 7), p);
}

#[test]
fn product_folds_exponents() {
    // (1 + X^2) * (X + X^2) = X + X^2 + X^3 + X^4 == X + X^2 + X^0 + X^1 mod X^3 - 1
    let a = vec![1u64, 0, 1];
    let b = vec![0u64, 1, 1];
    assert_eq!(multiply_polynomials(&a, &b, 3, 5), vec![1, 2, 1]);
    // coefficients reduce modulo n
    let c = vec![4u64, 4, 0];
    assert_eq!(multiply_polynomials(&c, &c, 3, 5), vec![1, 2, 1]);
}

#[test]
fn product_of_large_coefficients() {
    let big = u64::MAX;
    let a = vec![big, 0];
    let n = u64::MAX - 1;
    // (2^64 - 1)^2 mod (2^64 - 2) == 1
    assert_eq!(multiply_polynomials(&a, &a, 2, n), vec![1, 0]);
}

#[test]
fn power_zero_and_one() {
    let p = vec![3u64, 0, 6, 2, 1];
    assert_eq!(polynomial_pow_mod(&p, 0, 5, 7), vec![1, 0, 0, 0, 0]);
    assert_eq!(polynomial_pow_mod(&p, 1, 5, 7), p);
    let q = vec![9u64, 8, 0];
    assert_eq!(polynomial_pow_mod(&q, 1, 3, 7), vec![2, 1, 0]);
}

#[test]
fn power_by_squaring() {
    // (1 + X)^3 = 1 + 3X + 3X^2 + X^3 == 2 + 3X + 3X^2 mod X^3 - 1, mod 10
    let p = vec![1u64, 1, 0];
    assert_eq!(polynomial_pow_mod(&p, 3, 3, 10), vec![2, 3, 3]);
    // (1 + X)^4 mod (X^3 - 1, 10): 1 + 4X + 6X^2 + 4X^3 + X^4 == 5 + 5X + 6X^2
    assert_eq!(polynomial_pow_mod(&p, 4, 3, 10), vec![5, 5, 6]);
}

#[test]
fn congruences() {
    assert!(check_congruence(1, 5, 7));
    assert!(check_congruence(3, 4, 13));
    // n mod r == 0: the constant terms add up
    assert!(check_congruence(2, 7, 7));
    assert!(!check_congruence(1, 5, 9));
    assert!(!check_congruence(1, 3, 15));
}

#[test]
fn verdict_is_repeatable() {
    for n in [0u64, 1, 2, 31, 49, 97, 561] {
        assert_eq!(aks_primality(n), aks_primality(n));
    }
}

#[test]
fn shortcut_when_radius_reaches_n() {
    assert!(verify_with_radius(31, 31));
    assert!(verify_with_radius(2, 2));
    assert!(verify_with_radius(13, 20));
    assert!(!verify_with_radius(15, 15));
    assert!(!verify_with_radius(49, 60));
}

#[test]
fn stages_after_radius_reject_small_factor() {
    assert!(!verify_with_radius(35, 5));
    assert!(verify_with_radius(31, 29));
}

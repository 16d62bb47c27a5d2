use aks_primes::aks::aks_primality;
use aks_primes::sieve::{count_primes, is_ramanujan_prime as is_ramanujan_prime_sieved, sieve};
use aks_primes::trial::{
    count_primes_in_interval, generate_primes_up_to, get_first_n_primes, is_prime,
    is_ramanujan_prime,
};

#[test]
fn trial_division_values() {
    assert!(!is_prime(0));
    assert!(!is_prime(1));
    assert!(is_prime(2));
    assert!(is_prime(3));
    assert!(!is_prime(4));
    assert!(is_prime(31));
    assert!(!is_prime(49));
    assert!(!is_prime(561));
    assert!(is_prime(97));
    assert!(is_prime(18_446_744_073_709_551_557));
    assert!(!is_prime(u64::MAX));
    assert!(!is_prime(4_294_967_291 * 4_294_967_279));
}

#[test]
fn primes_up_to_fifty() {
    assert_eq!(
        generate_primes_up_to(50),
        vec![2, 3, 5, 7, 11, 13, 17, 19, 23, 29, 31, 37, 41, 43, 47]
    );
    assert_eq!(generate_primes_up_to(0), Vec::<u64>::new());
    assert_eq!(generate_primes_up_to(2), vec![2]);
}

#[test]
fn first_ten_primes() {
    assert_eq!(get_first_n_primes(10), vec![2, 3, 5, 7, 11, 13, 17, 19, 23, 29]);
    assert_eq!(get_first_n_primes(0), Vec::<u64>::new());
}

#[test]
fn interval_counts() {
    assert_eq!(count_primes_in_interval(5, 10), 1);
    assert_eq!(count_primes_in_interval(0, 10), 4);
    assert_eq!(count_primes_in_interval(10, 5), 0);
    assert_eq!(count_primes_in_interval(u64::MAX, u64::MAX), 0);
}

#[test]
fn sieve_marks_primes() {
    let s = sieve(30);
    assert_eq!(s.len(), 31);
    for k in 0..=30u64 {
        assert_eq!(s[k as usize], is_prime(k), "k = {}", k);
    }
    assert_eq!(sieve(1), vec![false, false]);
}

#[test]
fn sieve_agrees_with_aks() {
    let s = sieve(150);
    for k in 0..=150u64 {
        assert_eq!(s[k as usize], aks_primality(k), "k = {}", k);
    }
}

#[test]
fn sieve_counts() {
    let s = sieve(40);
    // primes in (10, 20]: 11, 13, 17, 19
    assert_eq!(count_primes(20, &s), 4);
    assert_eq!(count_primes(1, &s), 0);
    assert_eq!(count_primes(2, &s), 1);
}

#[test]
fn ramanujan_primes_by_trial_division() {
    // The Ramanujan primes start 2, 11, 17, 29, 41.
    assert!(is_ramanujan_prime(2, 1));
    assert!(is_ramanujan_prime(11, 2));
    assert!(is_ramanujan_prime(17, 3));
    assert!(is_ramanujan_prime(29, 4));
    assert!(is_ramanujan_prime(41, 5));
    assert!(!is_ramanujan_prime(13, 2));
    assert!(!is_ramanujan_prime(12, 2));
}

#[test]
fn ramanujan_primes_by_sieve() {
    let s = sieve(100);
    assert!(is_ramanujan_prime_sieved(2, 1, &s));
    assert!(is_ramanujan_prime_sieved(11, 2, &s));
    assert!(is_ramanujan_prime_sieved(17, 3, &s));
    assert!(is_ramanujan_prime_sieved(29, 4, &s));
    assert!(is_ramanujan_prime_sieved(41, 5, &s));
    assert!(!is_ramanujan_prime_sieved(13, 2, &s));
    assert!(!is_ramanujan_prime_sieved(12, 2, &s));
}

//! Primality testing: the AKS test with its number-theoretic stages
//! (perfect powers, the order-search radius, Euler's totient, arithmetic in
//! Z_n[X] / (X^r - 1)), trial division, the sieve of Eratosthenes, and
//! Ramanujan primes.
pub mod aks;
pub mod arith;
pub mod perfect_power;
pub mod poly;
pub mod radius;
pub mod sieve;
pub mod trial;

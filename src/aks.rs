//! The AKS primality test.
use crate::arith::{
    ceil_sqrt, euler_totient, floor_log2, is_prime_spec, log2_floor, sqrt_ceil, totient,
};
use crate::perfect_power::{is_perfect_power, is_perfect_power_spec};
use crate::poly::{check_congruence, congruence_holds};
use crate::radius::{find_r, good_radius, is_radius};
use vstd::arithmetic::div_mod::lemma_mod_multiples_basic;
use vstd::arithmetic::power::{lemma_pow1, lemma_pow_strictly_increases, pow};
use vstd::prelude::*;

verus! {

/// Some `a` with `2 <= a <= r` and `a < n` divides `n`.
pub open spec fn has_small_factor(n: nat, r: nat) -> bool {
    exists|a: nat| 2 <= a <= r && a < n && #[trigger] (n % a) == 0
}

/// How many congruences are checked for `n` under the radius `r`:
/// `ceil(sqrt(phi(r))) * (floor(log2 n) + 1)`, which is never below
/// `floor(sqrt(phi(r)) * log2 n)` and so never below `floor(sqrt(phi(r)) * ln n)`.
pub open spec fn witness_bound(n: nat, r: nat) -> nat {
    sqrt_ceil(totient(r)) * (log2_floor(n) + 1)
}

/// The bound that the multiplicative order of `n` must exceed:
/// `floor(log2 n)^2`.
pub open spec fn max_order(n: nat) -> nat {
    log2_floor(n) * log2_floor(n)
}

/// The verdict of the stages that follow the radius search: no factor of
/// `n` up to `r`; then either `n <= r`, or `(X + a)^n == X^n + a` in
/// Z_n[X] / (X^r - 1) for every `a` from 1 to the witness bound.
pub open spec fn passes_after_radius(n: nat, r: nat) -> bool {
    !has_small_factor(n, r) && (n <= r || forall|a: nat|
        1 <= a <= witness_bound(n, r) ==> #[trigger] congruence_holds(a, r, n))
}

/// The verdict of the AKS test on `n`: 2 is accepted; numbers below 2,
/// other even numbers and perfect powers are rejected; any other `n` is
/// judged by the stages after the radius search under its least radius.
/// A radius too large to index a vector of coefficients leaves the test
/// undecided, which counts as a rejection.
pub open spec fn aks_accepts(n: nat) -> bool {
    if n <= 1 {
        false
    } else if n == 2 {
        true
    } else if n % 2 == 0 {
        false
    } else if is_perfect_power_spec(n) {
        false
    } else {
        exists|r: nat|
            r <= usize::MAX && #[trigger] is_radius(n, max_order(n), r) && passes_after_radius(n, r)
    }
}

/// When `n <= r`, the stages after the radius search accept `n` exactly
/// when `n` is prime: the small-factor guard has tried every candidate
/// divisor, and no congruence is checked.
pub proof fn lemma_shortcut_decides(n: nat, r: nat)
    requires
        2 <= n <= r,
    ensures
        passes_after_radius(n, r) == is_prime_spec(n),
{
    if !is_prime_spec(n) {
        let d = choose|d: nat| 2 <= d < n && #[trigger] (n % d) == 0;
        assert(has_small_factor(n, r));
    }
}

/// Every rejection before the congruences is sound: a prime `n > 2` is
/// odd, is no perfect power, and has no factor below itself for any radius.
pub proof fn lemma_early_rejections_sound(n: nat)
    requires
        is_prime_spec(n),
        n > 2,
    ensures
        n % 2 != 0,
        !is_perfect_power_spec(n),
        forall|r: nat| !#[trigger] has_small_factor(n, r),
{
    assert(n % 2 != 0);
    if is_perfect_power_spec(n) {
        let (a, k) = choose|a: nat, k: nat| a >= 2 && k >= 2 && #[trigger] pow(a as int, k) == n;
        reveal(pow);
        lemma_mod_multiples_basic(pow(a as int, (k - 1) as nat), a as int);
        assert(pow(a as int, k) == a * pow(a as int, (k - 1) as nat));
        assert(pow(a as int, (k - 1) as nat) * a == a * pow(a as int, (k - 1) as nat)) by (nonlinear_arith);
        lemma_pow_strictly_increases(a, 1, k);
        lemma_pow1(a as int);
        assert(n % a == 0);
    }
}

/// The verdict depends on `n` alone: two runs of the test on the same `n`
/// agree.
pub proof fn lemma_verdict_deterministic(n: nat, first: bool, second: bool)
    requires
        first == aks_accepts(n),
        second == aks_accepts(n),
    ensures
        first == second,
{
}

/// Runs the stages that follow the radius search on `n` with radius `r`:
/// the small-factor guard, the `n <= r` shortcut, and the polynomial
/// congruences.
pub fn verify_with_radius(n: u64, r: u64) -> (accepted: bool)
    requires
        n >= 2,
        r >= 2,
        r <= usize::MAX,
    ensures
        accepted == passes_after_radius(n as nat, r as nat),
{
    let mut a: u64 = 2;
    while a <= r && a < n
        invariant
            2 <= a <= n,
            forall|b: nat| 2 <= b < a && b <= r && b < n ==> #[trigger] (n as nat % b) != 0,
        decreases n - a,
    {
        if n % a == 0 {
            proof {
                assert((n as nat) % (a as nat) == 0);
            }
            return false;
        }
        a = a + 1;
    }
    proof {
        assert(!has_small_factor(n as nat, r as nat));
    }
    if n <= r {
        return true;
    }
    let phi: u64 = euler_totient(r);
    let s: u64 = ceil_sqrt(phi);
    let log: u32 = floor_log2(n);
    proof {
        assert((s as int) * (log as int + 1) <= 0x1_0000_0000 * 64) by (nonlinear_arith)
            requires
                s <= 0x1_0000_0000,
                log < 64,
        ;
    }
    let l: u64 = s * (log as u64 + 1);
    let mut a: u64 = 1;
    while a <= l
        invariant
            n >= 2,
            r >= 2,
            r <= usize::MAX,
            1 <= a <= l + 1,
            l <= 0x40_0000_0000,
            n > r,
            !has_small_factor(n as nat, r as nat),
            l == witness_bound(n as nat, r as nat),
            forall|b: nat| 1 <= b < a ==> #[trigger] congruence_holds(b, r as nat, n as nat),
        decreases l + 1 - a,
    {
        if !check_congruence(a, r, n) {
            return false;
        }
        a = a + 1;
    }
    true
}

/// Whether `n` is prime, by the AKS test: trivial cases, perfect powers,
/// the radius search, the small-factor guard, then the polynomial
/// congruences.
pub fn aks_primality(n: u64) -> (prime: bool)
    ensures
        prime == aks_accepts(n as nat),
{
    if n <= 1 {
        return false;
    }
    if n == 2 {
        return true;
    }
    if n % 2 == 0 {
        return false;
    }
    if is_perfect_power(n) {
        return false;
    }
    let log2_n: u64 = floor_log2(n) as u64;
    proof {
        assert(log2_n * log2_n <= 64 * 64) by (nonlinear_arith)
            requires
                log2_n < 64,
        ;
    }
    let order_bound: u64 = log2_n * log2_n;
    match find_r(n, order_bound) {
        None => {
            proof {
                assert forall|r: nat|
                    r <= usize::MAX && #[trigger] is_radius(n as nat, max_order(n as nat), r)
                        implies !passes_after_radius(n as nat, r) by {
                    assert(good_radius(n as nat, order_bound as nat, r));
                }
            }
            false
        },
        Some(r) => {
            if r > usize::MAX as u64 {
                proof {
                    assert forall|q: nat|
                        q <= usize::MAX && #[trigger] is_radius(n as nat, max_order(n as nat), q)
                            implies !passes_after_radius(n as nat, q) by {
                        assert(good_radius(n as nat, order_bound as nat, q));
                        assert(good_radius(n as nat, order_bound as nat, r as nat));
                    }
                }
                false
            } else {
                let accepted = verify_with_radius(n, r);
                proof {
                    if accepted {
                        assert(is_radius(n as nat, max_order(n as nat), r as nat));
                    } else {
                        assert forall|q: nat|
                            q <= usize::MAX && #[trigger] is_radius(n as nat, max_order(n as nat), q)
                                implies !passes_after_radius(n as nat, q) by {
                            assert(good_radius(n as nat, order_bound as nat, q));
                            assert(good_radius(n as nat, order_bound as nat, r as nat));
                        }
                    }
                }
                accepted
            }
        },
    }
}

} // verus!

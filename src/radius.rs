//! Search for the radius `r`: the least modulus coprime to `n` under which
//! the multiplicative order of `n` exceeds a given bound.
use crate::arith::{gcd, gcd_spec};
use vstd::arithmetic::div_mod::lemma_mul_mod_noop;
use vstd::arithmetic::power::pow;
use vstd::prelude::*;

verus! {

/// No power `n^k` with `1 <= k <= m` is 1 modulo `r`: the multiplicative
/// order of `n` modulo `r` exceeds `m`.
pub open spec fn order_exceeds(n: nat, r: nat, m: nat) -> bool {
    forall|k: nat| 1 <= k <= m ==> #[trigger] pow(n as int, k) % (r as int) != 1
}

/// `r >= 2` is coprime to `n` and the order of `n` modulo `r` exceeds `m`.
pub open spec fn good_radius(n: nat, m: nat, r: nat) -> bool {
    r >= 2 && gcd_spec(n, r) == 1 && order_exceeds(n, r, m)
}

/// `r` is the least good radius for `n` and `m`.
pub open spec fn is_radius(n: nat, m: nat, r: nat) -> bool {
    good_radius(n, m, r) && forall|s: nat| 2 <= s < r ==> !#[trigger] good_radius(n, m, s)
}

/// Whether the multiplicative order of `n` modulo `r` exceeds `max_order`,
/// found by walking the powers `n, n^2, ...` modulo `r`.
pub fn order_exceeds_bound(n: u64, r: u64, max_order: u64) -> (exceeds: bool)
    requires
        r >= 2,
    ensures
        exceeds == order_exceeds(n as nat, r as nat, max_order as nat),
{
    let n_mod_r: u64 = n % r;
    let mut current: u64 = 1 % r;
    let mut step: u64 = 0;
    proof {
        reveal(pow);
    }
    while step < max_order
        invariant
            r >= 2,
            n_mod_r == n % r,
            step <= max_order,
            current == pow(n as int, step as nat) % (r as int),
            forall|k: nat| 1 <= k <= step ==> #[trigger] pow(n as int, k) % (r as int) != 1,
        decreases max_order - step,
    {
        proof {
            crate::arith::lemma_wide_product(current, n_mod_r);
        }
        let next: u128 = ((current as u128) * (n_mod_r as u128)) % (r as u128);
        proof {
            let p = pow(n as int, step as nat);
            reveal(pow);
            lemma_mul_mod_noop(p, n as int, r as int);
            vstd::arithmetic::div_mod::lemma_mod_twice(p, r as int);
            assert(pow(n as int, (step + 1) as nat) == n * p);
            assert(p * n == n * p) by (nonlinear_arith);
        }
        current = next as u64;
        step = step + 1;
        if current == 1 {
            proof {
                assert(pow(n as int, step as nat) % (r as int) == 1);
            }
            return false;
        }
    }
    true
}

/// The least `r >= 2` coprime to `n` under which the multiplicative order
/// of `n` exceeds `max_order`; `None` where no such `r` fits in a `u64`.
pub fn find_r(n: u64, max_order: u64) -> (found: Option<u64>)
    ensures
        match found {
            Some(r) => is_radius(n as nat, max_order as nat, r as nat),
            None => forall|s: nat| 2 <= s <= u64::MAX ==> !#[trigger] good_radius(n as nat, max_order as nat, s),
        },
{
    let mut r: u64 = 2;
    loop
        invariant
            2 <= r,
            forall|s: nat| 2 <= s < r ==> !#[trigger] good_radius(n as nat, max_order as nat, s),
        decreases u64::MAX - r,
    {
        if gcd(n, r) == 1 {
            if order_exceeds_bound(n, r, max_order) {
                return Some(r);
            }
        }
        if r == u64::MAX {
            return None;
        }
        r = r + 1;
    }
}

} // verus!

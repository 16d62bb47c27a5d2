//! Detection of perfect powers `a^k` with `a >= 2` and `k >= 2`.
use crate::arith::{floor_log2, is_floor_log2};
use vstd::arithmetic::power::{lemma_pow_increases, lemma_pow_positive, pow};
use vstd::prelude::*;

verus! {

/// `n` is `a^k` for some integers `a >= 2` and `k >= 2`.
pub open spec fn is_perfect_power_spec(n: nat) -> bool {
    exists|a: nat, k: nat| a >= 2 && k >= 2 && #[trigger] pow(a as int, k) == n
}

/// Relies on num's `Roots::nth_root` for `u64`: for `k >= 1` it returns the
/// `k`-th root of `x` rounded down, the `r` with `r^k <= x < (r+1)^k`; it
/// panics for `k == 0`.
#[verifier::external_body]
fn nth_root(x: u64, k: u32) -> (r: u64)
    requires
        k >= 1,
    ensures
        pow(r as int, k as nat) <= x < pow(r + 1, k as nat),
{
    num::integer::Roots::nth_root(&x, k)
}

proof fn lemma_pow_nonneg(a: nat, k: nat)
    ensures
        pow(a as int, k) >= 0,
{
    if a > 0 {
        lemma_pow_positive(a as int, k);
    } else if k > 0 {
        reveal(pow);
    } else {
        reveal(pow);
    }
}

/// For `k >= 1`, `a^k` grows strictly with `a`.
proof fn lemma_pow_base_strict(a: nat, b: nat, k: nat)
    requires
        a < b,
        k >= 1,
    ensures
        pow(a as int, k) < pow(b as int, k),
    decreases k,
{
    reveal(pow);
    if k > 1 {
        lemma_pow_base_strict(a, b, (k - 1) as nat);
        lemma_pow_nonneg(a, (k - 1) as nat);
        let x = pow(a as int, (k - 1) as nat);
        let y = pow(b as int, (k - 1) as nat);
        assert((a as int) * x < (b as int) * y) by (nonlinear_arith)
            requires
                0 <= a < b,
                0 <= x < y,
        ;
    } else {
        vstd::arithmetic::power::lemma_pow1(a as int);
        vstd::arithmetic::power::lemma_pow1(b as int);
    }
}

/// `a^k`, for a result that fits in a `u64`.
fn int_pow(a: u64, k: u32) -> (p: u64)
    requires
        pow(a as int, k as nat) <= u64::MAX,
    ensures
        p == pow(a as int, k as nat),
{
    let mut p: u64 = 1;
    let mut i: u32 = 0;
    proof {
        reveal(pow);
    }
    while i < k
        invariant
            i <= k,
            p == pow(a as int, i as nat),
            pow(a as int, k as nat) <= u64::MAX,
        decreases k - i,
    {
        proof {
            reveal(pow);
            if a > 0 {
                lemma_pow_increases(a as nat, (i + 1) as nat, k as nat);
            }
            assert(pow(a as int, (i + 1) as nat) == a * pow(a as int, i as nat));
        }
        p = p * a;
        i = i + 1;
    }
    p
}

/// Whether `n` is `a^k` for some integers `a >= 2` and `k >= 2`.
pub fn is_perfect_power(n: u64) -> (found: bool)
    ensures
        found == is_perfect_power_spec(n as nat),
{
    if n <= 1 {
        proof {
            assert forall|a: nat, k: nat| a >= 2 && k >= 2 implies #[trigger] pow(a as int, k) != n by {
                lemma_pow_increases(a, 1, k);
                vstd::arithmetic::power::lemma_pow1(a as int);
            }
        }
        return false;
    }
    let max_exponent: u32 = floor_log2(n);
    let mut k: u32 = 2;
    while k <= max_exponent
        invariant
            n >= 2,
            2 <= k,
            max_exponent < 64,
            is_floor_log2(n as nat, max_exponent as nat),
            forall|a: nat, e: nat|
                a >= 2 && 2 <= e < k ==> #[trigger] pow(a as int, e) != n,
        decreases 64 - k,
    {
        let a: u64 = nth_root(n, k);
        let p: u64 = int_pow(a, k);
        if p == n {
            proof {
                if a <= 1 {
                    reveal(pow);
                    if a == 1 {
                        vstd::arithmetic::power::lemma1_pow(k as nat);
                    } else {
                        vstd::arithmetic::power::lemma0_pow(k as nat);
                    }
                }
                assert(pow(a as int, k as nat) == n);
            }
            return true;
        }
        proof {
            assert forall|b: nat, e: nat| b >= 2 && 2 <= e < k + 1 implies #[trigger] pow(b as int, e)
                != n by {
                if e == k {
                    if b < a {
                        lemma_pow_base_strict(b, a as nat, e);
                    } else if b > a {
                        if b > a + 1 {
                            lemma_pow_base_strict((a + 1) as nat, b, e);
                        }
                    }
                }
            }
        }
        k = k + 1;
    }
    proof {
        assert forall|a: nat, e: nat| a >= 2 && e >= 2 implies #[trigger] pow(a as int, e) != n by {
            if e >= k {
                if a > 2 {
                    lemma_pow_base_strict(2, a, e);
                }
                lemma_pow_increases(2, (max_exponent + 1) as nat, e);
            }
        }
    }
    false
}

} // verus!

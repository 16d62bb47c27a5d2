//! Integer helpers: greatest common divisor, base-2 logarithm, square root.
use vstd::arithmetic::power::{lemma_pow_increases, pow};
use vstd::arithmetic::power2::lemma2_to64;
use vstd::arithmetic::div_mod::{
    lemma_add_mod_noop, lemma_fundamental_div_mod, lemma_mod_self_0, lemma_mul_mod_noop_right,
    lemma_small_mod,
};
use vstd::prelude::*;

verus! {

/// Greatest common divisor, by Euclid's recurrence.
pub open spec fn gcd_spec(a: nat, b: nat) -> nat
    decreases b,
{
    if b == 0 {
        a
    } else {
        gcd_spec(b, a % b)
    }
}

/// The greatest common divisor of two numbers, not both zero, is positive
/// and divides both.
pub proof fn lemma_gcd_divides(a: nat, b: nat)
    requires
        a > 0 || b > 0,
    ensures
        gcd_spec(a, b) > 0,
        a % gcd_spec(a, b) == 0,
        b % gcd_spec(a, b) == 0,
    decreases b,
{
    if b == 0 {
        lemma_mod_self_0(a as int);
    } else {
        let g = gcd_spec(a, b);
        let q = a / b;
        lemma_gcd_divides(b, a % b);
        lemma_fundamental_div_mod(a as int, b as int);
        lemma_mul_mod_noop_right(q as int, b as int, g as int);
        assert(((q as int) * 0) % (g as int) == 0) by {
            lemma_small_mod(0, g);
        }
        lemma_add_mod_noop((q * b) as int, (a % b) as int, g as int);
        lemma_small_mod(0, g);
        assert(a == b * q + a % b);
        assert(b * q == q * b) by (nonlinear_arith);
    }
}

/// A positive divisor of a positive number is at most that number.
proof fn lemma_divisor_le(k: nat, g: nat)
    requires
        k > 0,
        g > 0,
        k % g == 0,
    ensures
        g <= k,
{
    if g > k {
        lemma_small_mod(k, g);
    }
}

/// Greatest common divisor of `a` and `b`.
pub fn gcd(a: u64, b: u64) -> (g: u64)
    ensures
        g == gcd_spec(a as nat, b as nat),
{
    let mut x: u64 = a;
    let mut y: u64 = b;
    while y != 0
        invariant
            gcd_spec(x as nat, y as nat) == gcd_spec(a as nat, b as nat),
        decreases y,
    {
        let t: u64 = y;
        y = x % y;
        x = t;
    }
    x
}

proof fn lemma_two_to_64()
    ensures
        pow(2, 64) == 0x1_0000_0000_0000_0000,
{
    lemma2_to64();
    vstd::arithmetic::power::lemma_pow_positive(2, 64);
}

/// The product of two `u64` values fits in a `u128`.
pub(crate) proof fn lemma_wide_product(x: u64, y: u64)
    ensures
        (x as int) * (y as int) <= 0xffff_ffff_ffff_fffe_0000_0000_0000_0001,
{
    assert((x as int) * (y as int) <= 0xffff_ffff_ffff_ffff * 0xffff_ffff_ffff_ffff) by (nonlinear_arith)
        requires
            x <= 0xffff_ffff_ffff_ffff,
            y <= 0xffff_ffff_ffff_ffff,
    ;
}

/// `k` is the base-2 logarithm of `n`, rounded down.
pub open spec fn is_floor_log2(n: nat, k: nat) -> bool {
    pow(2, k) <= n < pow(2, k + 1)
}

/// The base-2 logarithm of `n >= 1`, rounded down.
pub open spec fn log2_floor(n: nat) -> nat {
    choose|k: nat| is_floor_log2(n, k)
}

proof fn lemma_floor_log2_unique(n: nat, j: nat, k: nat)
    requires
        is_floor_log2(n, j),
        is_floor_log2(n, k),
    ensures
        j == k,
{
    if j < k {
        lemma_pow_increases(2, j + 1, k);
    } else if k < j {
        lemma_pow_increases(2, k + 1, j);
    }
}

/// The base-2 logarithm of `n`, rounded down.
pub fn floor_log2(n: u64) -> (k: u32)
    requires
        n >= 1,
    ensures
        is_floor_log2(n as nat, k as nat),
        k as nat == log2_floor(n as nat),
        k < 64,
{
    let mut p: u128 = 1;
    let mut k: u32 = 0;
    proof {
        reveal(pow);
    }
    while p * 2 <= n as u128
        invariant
            p == pow(2, k as nat),
            1 <= p <= n,
            k < 64,
            n <= u64::MAX,
        decreases n - p,
    {
        proof {
            reveal(pow);
            if k + 1 >= 64 {
                lemma_pow_increases(2, 64, (k + 1) as nat);
                lemma_two_to_64();
            }
        }
        p = p * 2;
        k = k + 1;
    }
    proof {
        reveal(pow);
        assert(is_floor_log2(n as nat, k as nat));
        let c = log2_floor(n as nat);
        lemma_floor_log2_unique(n as nat, c, k as nat);
    }
    k
}

/// The square root of `x`, rounded up.
pub open spec fn is_ceil_sqrt(x: nat, s: nat) -> bool {
    x <= s * s && (s == 0 || (s - 1) * (s - 1) < x)
}

/// The square root of `x`, rounded up.
pub open spec fn sqrt_ceil(x: nat) -> nat {
    choose|s: nat| is_ceil_sqrt(x, s)
}

proof fn lemma_ceil_sqrt_unique(x: nat, s: nat, t: nat)
    requires
        is_ceil_sqrt(x, s),
        is_ceil_sqrt(x, t),
    ensures
        s == t,
{
    if s < t {
        assert(s * s <= (t - 1) * (t - 1)) by (nonlinear_arith)
            requires
                s < t,
        ;
    } else if t < s {
        assert(t * t <= (s - 1) * (s - 1)) by (nonlinear_arith)
            requires
                t < s,
        ;
    }
}

/// The square root of `x`, rounded up.
pub fn ceil_sqrt(x: u64) -> (s: u64)
    ensures
        is_ceil_sqrt(x as nat, s as nat),
        s as nat == sqrt_ceil(x as nat),
        s <= 0x1_0000_0000,
{
    let mut s: u64 = 0;
    while (s as u128) * (s as u128) < x as u128
        invariant
            s == 0 || (s - 1) * (s - 1) < x,
            s <= x,
            (s as int) * (s as int) <= 0xffff_ffff_ffff_fffe_0000_0000_0000_0001,
        decreases x - s,
    {
        proof {
            assert(s < x) by (nonlinear_arith)
                requires
                    s * s < x,
            ;
        }
        s = s + 1;
        proof {
            lemma_wide_product(s, s);
        }
    }
    proof {
        assert(is_ceil_sqrt(x as nat, s as nat));
        let c = sqrt_ceil(x as nat);
        lemma_ceil_sqrt_unique(x as nat, c, s as nat);
        if s > 0x1_0000_0000 {
            assert((s - 1) * (s - 1) >= 0x1_0000_0000 * 0x1_0000_0000) by (nonlinear_arith)
                requires
                    s - 1 >= 0x1_0000_0000,
            ;
        }
    }
    s
}

/// How many of `1, ..., upto` share no factor with `m`.
pub open spec fn coprime_count(m: nat, upto: nat) -> nat
    decreases upto,
{
    if upto == 0 {
        0
    } else {
        coprime_count(m, (upto - 1) as nat) + if gcd_spec(upto, m) == 1 {
            1nat
        } else {
            0nat
        }
    }
}

/// Euler's totient: how many of `1, ..., m` share no factor with `m`.
pub open spec fn totient(m: nat) -> nat {
    coprime_count(m, m)
}

proof fn lemma_coprime_count_bound(m: nat, upto: nat)
    ensures
        coprime_count(m, upto) <= upto,
    decreases upto,
{
    if upto > 0 {
        lemma_coprime_count_bound(m, (upto - 1) as nat);
    }
}

/// `p` is at least 2 and has no divisor strictly between 1 and itself.
pub open spec fn is_prime_spec(p: nat) -> bool {
    p >= 2 && forall|d: nat| 2 <= d < p ==> #[trigger] (p % d) != 0
}

proof fn lemma_coprime_below_prime(p: nat, upto: nat)
    requires
        is_prime_spec(p),
        upto < p,
    ensures
        coprime_count(p, upto) == upto,
    decreases upto,
{
    if upto > 0 {
        lemma_coprime_below_prime(p, (upto - 1) as nat);
        let g = gcd_spec(upto, p);
        lemma_gcd_divides(upto, p);
        lemma_divisor_le(upto, g);
        if g != 1 {
            assert(p % g != 0);
        }
    }
}

/// The totient of a prime `p` is `p - 1`.
pub proof fn lemma_totient_of_prime(p: nat)
    requires
        is_prime_spec(p),
    ensures
        totient(p) == p - 1,
{
    lemma_coprime_below_prime(p, (p - 1) as nat);
    lemma_mod_self_0(p as int);
    assert(gcd_spec(p, p) == gcd_spec(p, 0));
}

/// Euler's totient of `m`.
pub fn euler_totient(m: u64) -> (phi: u64)
    ensures
        phi == totient(m as nat),
{
    let mut count: u64 = 0;
    let mut k: u64 = 0;
    while k < m
        invariant
            k <= m,
            count == coprime_count(m as nat, k as nat),
        decreases m - k,
    {
        proof {
            lemma_coprime_count_bound(m as nat, k as nat);
        }
        k = k + 1;
        if gcd(k, m) == 1 {
            count = count + 1;
        }
    }
    count
}

} // verus!

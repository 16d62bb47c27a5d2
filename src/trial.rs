//! Primality by trial division, and the prime lists and interval counts
//! built on it.
use crate::arith::is_prime_spec;
use vstd::arithmetic::div_mod::{lemma_fundamental_div_mod, lemma_mod_multiples_basic};
use vstd::prelude::*;

verus! {

/// Divisibility is transitive: `c | b` and `b | a` give `c | a`.
pub proof fn lemma_divides_trans(a: nat, b: nat, c: nat)
    requires
        b > 0,
        c > 0,
        a % b == 0,
        b % c == 0,
    ensures
        a % c == 0,
{
    lemma_fundamental_div_mod(a as int, b as int);
    lemma_fundamental_div_mod(b as int, c as int);
    let k = a / b;
    let m = b / c;
    assert(a == c * (m * k)) by (nonlinear_arith)
        requires
            a == b * k,
            b == c * m,
    ;
    lemma_mod_multiples_basic((m * k) as int, c as int);
    assert(c * (m * k) == (m * k) * c) by (nonlinear_arith);
}

/// A number `n >= 2` with no divisor in `[2, i)`, where `i * i > n`, is prime.
pub proof fn lemma_prime_by_small_divisors(n: nat, i: nat)
    requires
        n >= 2,
        i * i > n,
        forall|d: nat| 2 <= d < i ==> #[trigger] (n % d) != 0,
    ensures
        is_prime_spec(n),
{
    assert forall|d: nat| 2 <= d < n implies #[trigger] (n % d) != 0 by {
        if d >= i && n % d == 0 {
            lemma_fundamental_div_mod(n as int, d as int);
            let q = n / d;
            assert(n == d * q);
            assert(q >= 2) by (nonlinear_arith)
                requires
                    n == d * q,
                    d < n,
                    q >= 0,
            ;
            assert(q < i) by (nonlinear_arith)
                requires
                    n == d * q,
                    d >= i,
                    i * i > n,
                    q >= 0,
            ;
            lemma_mod_multiples_basic(d as int, q as int);
            assert(d * q == q * d) by (nonlinear_arith);
            assert(n % q == 0);
        }
    }
}

/// Whether `n` is prime, by trial division with 2, 3 and the numbers `6k ± 1`.
pub fn is_prime(n: u64) -> (prime: bool)
    ensures
        prime == is_prime_spec(n as nat),
{
    if n <= 1 {
        return false;
    }
    if n <= 3 {
        return true;
    }
    if n % 2 == 0 || n % 3 == 0 {
        proof {
            if n % 2 == 0 {
                assert((n as nat) % 2 == 0);
            } else {
                assert((n as nat) % 3 == 0);
            }
        }
        return false;
    }
    let mut i: u64 = 5;
    proof {
        assert forall|d: nat| 2 <= d < 5 implies #[trigger] ((n as nat) % d) != 0 by {
            if d == 4 && (n as nat) % 4 == 0 {
                lemma_divides_trans(n as nat, 4, 2);
            }
        }
        crate::arith::lemma_wide_product(i, i);
    }
    while (i as u128) * (i as u128) <= n as u128
        invariant
            n >= 5,
            n % 2 != 0,
            n % 3 != 0,
            i % 6 == 5,
            5 <= i <= 0x1_0000_0006,
            (i as int) * (i as int) <= 0xffff_ffff_ffff_fffe_0000_0000_0000_0001,
            forall|d: nat| 2 <= d < i ==> #[trigger] ((n as nat) % d) != 0,
        decreases 0x1_0000_0006 - i,
    {
        if n % i == 0 || n % (i + 2) == 0 {
            proof {
                if n % i == 0 {
                    assert((n as nat) % (i as nat) == 0);
                    assert(i < n) by (nonlinear_arith)
                        requires
                            i * i <= n,
                            i >= 5,
                    ;
                } else {
                    assert((n as nat) % ((i + 2) as nat) == 0);
                    assert(i + 2 < n) by (nonlinear_arith)
                        requires
                            i * i <= n,
                            i >= 5,
                    ;
                }
            }
            return false;
        }
        proof {
            assert(i < n) by (nonlinear_arith)
                requires
                    i * i <= n,
                    i >= 5,
            ;
            assert(i <= 0x1_0000_0000) by (nonlinear_arith)
                requires
                    i * i <= n,
                    n <= u64::MAX,
            ;
            assert forall|d: nat| 2 <= d < i + 6 implies #[trigger] ((n as nat) % d) != 0 by {
                if d >= i && d != i && d != i + 2 {
                    if d % 2 == 0 {
                        if (n as nat) % d == 0 {
                            lemma_divides_trans(n as nat, d, 2);
                        }
                    } else {
                        assert(d % 3 == 0);
                        if (n as nat) % d == 0 {
                            lemma_divides_trans(n as nat, d, 3);
                        }
                    }
                }
            }
        }
        i = i + 6;
        proof {
            crate::arith::lemma_wide_product(i, i);
        }
    }
    proof {
        lemma_prime_by_small_divisors(n as nat, i as nat);
    }
    true
}

/// The primes below `hi`, in increasing order.
pub open spec fn primes_below(hi: nat) -> Seq<nat>
    decreases hi,
{
    if hi == 0 {
        Seq::empty()
    } else if is_prime_spec((hi - 1) as nat) {
        primes_below((hi - 1) as nat).push((hi - 1) as nat)
    } else {
        primes_below((hi - 1) as nat)
    }
}

/// The entries of `v`, as natural numbers.
pub open spec fn nats(v: Seq<u64>) -> Seq<nat> {
    Seq::new(v.len(), |i: int| v[i] as nat)
}

/// How many primes `p` satisfy `lo < p <= hi`.
pub open spec fn count_between(lo: nat, hi: nat) -> nat
    decreases hi,
{
    if hi <= lo {
        0
    } else {
        count_between(lo, (hi - 1) as nat) + if is_prime_spec(hi) {
            1nat
        } else {
            0nat
        }
    }
}

proof fn lemma_no_primes_below_two()
    ensures
        primes_below(2) == Seq::<nat>::empty(),
{
    assert(!is_prime_spec(0));
    assert(!is_prime_spec(1));
    assert(primes_below(1) == primes_below(0));
}

proof fn lemma_count_between_bound(lo: nat, hi: nat)
    ensures
        count_between(lo, hi) <= hi,
    decreases hi,
{
    if hi > lo {
        lemma_count_between_bound(lo, (hi - 1) as nat);
    }
}

/// The primes from 2 to `limit`, in increasing order.
pub fn generate_primes_up_to(limit: u64) -> (primes: Vec<u64>)
    ensures
        nats(primes@) == primes_below(limit as nat + 1),
{
    let mut primes: Vec<u64> = Vec::new();
    let mut k: u64 = 0;
    proof {
        assert(nats(primes@) =~= primes_below(0));
    }
    loop
        invariant
            k <= limit,
            nats(primes@) == primes_below(k as nat),
        decreases limit - k,
    {
        if is_prime(k) {
            primes.push(k);
        }
        proof {
            assert(nats(primes@) =~= primes_below(k as nat + 1));
        }
        if k == limit {
            return primes;
        }
        k = k + 1;
    }
}

/// The first `n` primes, in increasing order: all the primes below some
/// bound, `n` of them. The `n`-th prime must fit in a `u64`.
pub fn get_first_n_primes(n: usize) -> (primes: Vec<u64>)
    requires
        n <= primes_below(u64::MAX as nat + 1).len(),
    ensures
        primes@.len() == n,
        exists|hi: nat| nats(primes@) == #[trigger] primes_below(hi),
{
    let mut primes: Vec<u64> = Vec::new();
    let mut num: u64 = 2;
    proof {
        lemma_no_primes_below_two();
        assert(nats(primes@) =~= primes_below(2));
    }
    while primes.len() < n
        invariant
            2 <= num,
            primes@.len() <= n,
            nats(primes@) == primes_below(num as nat),
            n <= primes_below(u64::MAX as nat + 1).len(),
        decreases u64::MAX - num,
    {
        if is_prime(num) {
            primes.push(num);
        }
        proof {
            assert(nats(primes@) =~= primes_below(num as nat + 1));
        }
        if primes.len() == n {
            return primes;
        }
        num = num + 1;
    }
    primes
}

/// How many primes `p` satisfy `start < p <= end`.
pub fn count_primes_in_interval(start: u64, end: u64) -> (count: u64)
    ensures
        count == count_between(start as nat, end as nat),
{
    if end <= start {
        return 0;
    }
    let mut count: u64 = 0;
    let mut x: u64 = start;
    while x < end
        invariant
            start <= x <= end,
            count == count_between(start as nat, x as nat),
        decreases end - x,
    {
        x = x + 1;
        proof {
            lemma_count_between_bound(start as nat, (x - 1) as nat);
        }
        if is_prime(x) {
            count = count + 1;
        }
    }
    count
}

/// Every `x` with `m <= x <= 2m` has at least `n` primes in `(x/2, x]`.
pub open spec fn counts_hold_from(m: nat, n: nat) -> bool {
    forall|x: nat| m <= x <= 2 * m ==> #[trigger] count_between(x / 2, x) >= n
}

/// `number` is the `n`-th Ramanujan prime: it is prime, every `x` in
/// `[number, 2 number]` has at least `n` primes in `(x/2, x]`, and no
/// smaller prime has that property.
pub open spec fn is_ramanujan_prime_spec(number: nat, n: nat) -> bool {
    is_prime_spec(number) && counts_hold_from(number, n) && forall|s: nat|
        2 <= s < number ==> !(is_prime_spec(s) && #[trigger] counts_hold_from(s, n))
}

/// Whether every `x` with `m <= x <= 2m` has at least `n` primes in `(x/2, x]`.
fn counts_hold(m: u64, n: u64) -> (holds: bool)
    requires
        m <= u64::MAX / 2,
    ensures
        holds == counts_hold_from(m as nat, n as nat),
{
    let mut x: u64 = m;
    while x <= 2 * m
        invariant
            m <= x <= 2 * m + 1,
            m <= u64::MAX / 2,
            forall|y: nat| m <= y < x ==> #[trigger] count_between(y / 2, y) >= n,
        decreases 2 * m + 1 - x,
    {
        if count_primes_in_interval(x / 2, x) < n {
            return false;
        }
        x = x + 1;
    }
    true
}

/// Whether `number` is the `n`-th Ramanujan prime, by trial division.
pub fn is_ramanujan_prime(number: u64, n: u64) -> (found: bool)
    requires
        number <= u64::MAX / 2,
    ensures
        found == is_ramanujan_prime_spec(number as nat, n as nat),
{
    if !is_prime(number) {
        return false;
    }
    if !counts_hold(number, n) {
        return false;
    }
    let mut smaller: u64 = 2;
    while smaller < number
        invariant
            2 <= smaller,
            number <= u64::MAX / 2,
            forall|s: nat|
                2 <= s < smaller ==> !(is_prime_spec(s) && #[trigger] counts_hold_from(s, n as nat)),
        decreases number - smaller,
    {
        let is_valid = counts_hold(smaller, n);
        if is_valid && is_prime(smaller) {
            return false;
        }
        smaller = smaller + 1;
    }
    true
}

} // verus!

//! The sieve of Eratosthenes, and the Ramanujan-prime check that counts
//! primes with it.
use crate::arith::is_prime_spec;
use crate::trial::{count_between, counts_hold_from, is_ramanujan_prime_spec, lemma_divides_trans};
use vstd::arithmetic::div_mod::{lemma_fundamental_div_mod, lemma_mod_multiples_basic};
use vstd::prelude::*;

verus! {

/// `s` marks exactly the primes among its indices.
pub open spec fn marks_primes(s: Seq<bool>) -> bool {
    forall|k: int| 0 <= k < s.len() ==> #[trigger] s[k] == is_prime_spec(k as nat)
}

/// `j >= 2` and no `d` with `2 <= d < i` and `d * d <= j` divides `j`.
pub open spec fn survives(j: nat, i: nat) -> bool {
    j >= 2 && forall|d: nat| 2 <= d < i && d * d <= j ==> #[trigger] (j % d) != 0
}

/// A number `j >= 2` with no divisor `d >= 2` such that `d * d <= j` is prime.
proof fn lemma_prime_by_square_divisors(j: nat)
    requires
        j >= 2,
        forall|d: nat| 2 <= d && d * d <= j ==> #[trigger] (j % d) != 0,
    ensures
        is_prime_spec(j),
{
    assert forall|d: nat| 2 <= d < j implies #[trigger] (j % d) != 0 by {
        if j % d == 0 {
            lemma_fundamental_div_mod(j as int, d as int);
            let q = j / d;
            assert(j == d * q);
            assert(q >= 2) by (nonlinear_arith)
                requires
                    j == d * q,
                    d < j,
                    q >= 0,
            ;
            if d * d > j {
                assert(q * q <= j) by (nonlinear_arith)
                    requires
                        j == d * q,
                        d * d > j,
                        q >= 2,
                ;
                lemma_mod_multiples_basic(d as int, q as int);
                assert(d * q == q * d) by (nonlinear_arith);
                assert(j % q == 0);
            }
        }
    }
}

proof fn lemma_only_multiple_in_window(j: nat, c: nat, i: nat)
    requires
        i > 0,
        c % i == 0,
        j % i == 0,
        c <= j < c + i,
    ensures
        j == c,
{
    lemma_fundamental_div_mod(j as int, i as int);
    lemma_fundamental_div_mod(c as int, i as int);
    let a = j / i;
    let b = c / i;
    assert(j == i * a && c == i * b);
    assert(a == b) by (nonlinear_arith)
        requires
            j == i * a,
            c == i * b,
            c <= j < c + i,
            i > 0,
    ;
}

/// For each `k <= limit`, whether `k` is prime.
pub fn sieve(limit: u64) -> (is_prime: Vec<bool>)
    requires
        1 <= limit < usize::MAX,
    ensures
        is_prime@.len() == limit + 1,
        marks_primes(is_prime@),
{
    let len: usize = (limit + 1) as usize;
    let mut s: Vec<bool> = Vec::new();
    while s.len() < len
        invariant
            s@.len() <= len,
            forall|k: int| 0 <= k < s@.len() ==> s@[k],
        decreases len - s@.len(),
    {
        s.push(true);
    }
    s.set(0, false);
    s.set(1, false);
    let mut i: u64 = 2;
    proof {
        assert forall|j: int| 0 <= j < len implies s@[j] == survives(j as nat, 2) by {}
        crate::arith::lemma_wide_product(i, i);
    }
    while (i as u128) * (i as u128) <= limit as u128
        invariant
            s@.len() == len,
            len == limit + 1,
            limit < usize::MAX,
            2 <= i <= 0x1_0000_0001,
            (i as int) * (i as int) <= 0xffff_ffff_ffff_fffe_0000_0000_0000_0001,
            forall|j: int| 0 <= j < len ==> #[trigger] s@[j] == survives(j as nat, i as nat),
        decreases 0x1_0000_0001 - i,
    {
        proof {
            assert(i <= 0x1_0000_0000) by (nonlinear_arith)
                requires
                    i * i <= limit,
                    limit <= u64::MAX,
            ;
            assert(i <= limit) by (nonlinear_arith)
                requires
                    i * i <= limit,
                    i >= 2,
            ;
            assert(s@[i as int] == survives(i as nat, i as nat));
        }
        if s[i as usize] {
            let ghost before = s@;
            let mut j: u128 = (i as u128) * (i as u128);
            proof {
                lemma_mod_multiples_basic(i as int, i as int);
            }
            while j <= limit as u128
                invariant
                    s@.len() == len,
                    len == limit + 1,
                    limit < usize::MAX,
                    2 <= i <= 0x1_0000_0000,
                    i * i <= j <= limit + i,
                    (j as int) % (i as int) == 0,
                    forall|k: int|
                        0 <= k < len ==> #[trigger] s@[k] == (survives(k as nat, i as nat) && !(i
                            * i <= k < j && k % (i as int) == 0)),
                decreases limit + i - j,
            {
                s.set(j as usize, false);
                proof {
                    assert forall|k: int| 0 <= k < len implies #[trigger] s@[k] == (survives(
                        k as nat,
                        i as nat,
                    ) && !(i * i <= k < j + i && k % (i as int) == 0)) by {
                        if j <= k < j + i && k % (i as int) == 0 {
                            lemma_only_multiple_in_window(k as nat, j as nat, i as nat);
                        }
                    }
                    vstd::arithmetic::div_mod::lemma_mod_add_multiples_vanish(j as int, i as int);
                }
                j = j + i as u128;
            }
            proof {
                assert forall|k: int| 0 <= k < len implies #[trigger] s@[k] == survives(
                    k as nat,
                    (i + 1) as nat,
                ) by {
                    if survives(k as nat, i as nat) && !(i * i <= k && k % (i as int) == 0) {
                        assert forall|d: nat| 2 <= d < i + 1 && d * d <= k implies #[trigger] ((
                        k as nat) % d) != 0 by {
                            if d == i {
                                assert(!(i * i <= k && k % (i as int) == 0));
                            }
                        }
                    }
                }
            }
        } else {
            proof {
                assert(!survives(i as nat, i as nat));
                let d0 = choose|d: nat| 2 <= d < i && d * d <= i && #[trigger] ((i as nat) % d) == 0;
                assert forall|k: int| 0 <= k < len implies #[trigger] s@[k] == survives(
                    k as nat,
                    (i + 1) as nat,
                ) by {
                    if survives(k as nat, i as nat) && i * i <= k && (k as nat) % (i as nat) == 0 {
                        lemma_divides_trans(k as nat, i as nat, d0);
                        assert(d0 * d0 <= k) by (nonlinear_arith)
                            requires
                                d0 * d0 <= i,
                                i * i <= k,
                                i >= 2,
                        ;
                        assert((k as nat) % d0 != 0);
                    }
                }
            }
        }
        i = i + 1;
        proof {
            crate::arith::lemma_wide_product(i, i);
        }
    }
    proof {
        assert forall|k: int| 0 <= k < len implies #[trigger] s@[k] == is_prime_spec(k as nat) by {
            if is_prime_spec(k as nat) {
                assert forall|d: nat| 2 <= d < i && d * d <= k implies #[trigger] ((k as nat) % d) != 0 by {
                    assert(d < k) by (nonlinear_arith)
                        requires
                            d * d <= k,
                            d >= 2,
                    ;
                }
                assert(survives(k as nat, i as nat));
            }
            if survives(k as nat, i as nat) {
                assert forall|d: nat| 2 <= d && d * d <= k implies #[trigger] ((k as nat) % d) != 0 by {
                    assert(d < i) by (nonlinear_arith)
                        requires
                            d * d <= k,
                            k <= limit,
                            i * i > limit,
                            i >= 2,
                    ;
                }
                lemma_prime_by_square_divisors(k as nat);
            }
        }
    }
    s
}

/// How many indices `k` with `lo < k <= hi` are marked in `s`.
pub open spec fn marked_between(s: Seq<bool>, lo: nat, hi: nat) -> nat
    decreases hi,
{
    if hi <= lo {
        0
    } else {
        marked_between(s, lo, (hi - 1) as nat) + if s[hi as int] {
            1nat
        } else {
            0nat
        }
    }
}

proof fn lemma_marked_counts_primes(s: Seq<bool>, lo: nat, hi: nat)
    requires
        marks_primes(s),
        hi < s.len(),
    ensures
        marked_between(s, lo, hi) == count_between(lo, hi),
    decreases hi,
{
    if hi > lo {
        lemma_marked_counts_primes(s, lo, (hi - 1) as nat);
        assert(s[hi as int] == is_prime_spec(hi));
    }
}

proof fn lemma_marked_bound(s: Seq<bool>, lo: nat, hi: nat)
    ensures
        marked_between(s, lo, hi) <= hi,
    decreases hi,
{
    if hi > lo {
        lemma_marked_bound(s, lo, (hi - 1) as nat);
    }
}

/// How many marked indices lie in `(x/2, x]`.
pub fn count_primes(x: u64, sieve: &[bool]) -> (count: u64)
    requires
        x < sieve@.len(),
    ensures
        count == marked_between(sieve@, x as nat / 2, x as nat),
{
    let start: u64 = x / 2;
    let mut count: u64 = 0;
    let mut k: u64 = start;
    while k < x
        invariant
            start == x / 2,
            start <= k <= x,
            x < sieve@.len(),
            count == marked_between(sieve@, start as nat, k as nat),
        decreases x - k,
    {
        k = k + 1;
        proof {
            lemma_marked_bound(sieve@, start as nat, (k - 1) as nat);
        }
        if sieve[k as usize] {
            count = count + 1;
        }
    }
    count
}

/// Whether every `x` with `m <= x <= 2m` has at least `n` primes in
/// `(x/2, x]`, counted with the sieve.
fn counts_hold_sieved(m: u64, n: u64, sieve: &[bool]) -> (holds: bool)
    requires
        2 * m < sieve@.len(),
        marks_primes(sieve@),
    ensures
        holds == counts_hold_from(m as nat, n as nat),
{
    let mut x: u64 = m;
    // a slice's length is a `usize`, so `2 * m` fits in a `u64`
    let len: usize = sieve.len();
    proof {
        assert(sieve@.len() == len);
        assert(sieve@.len() <= u64::MAX);
    }
    while x <= 2 * m
        invariant
            m <= x <= 2 * m + 1,
            2 * m < sieve@.len(),
            sieve@.len() <= u64::MAX,
            marks_primes(sieve@),
            forall|y: nat| m <= y < x ==> #[trigger] count_between(y / 2, y) >= n,
        decreases 2 * m + 1 - x,
    {
        let c = count_primes(x, sieve);
        proof {
            lemma_marked_counts_primes(sieve@, x as nat / 2, x as nat);
        }
        if c < n {
            return false;
        }
        x = x + 1;
    }
    true
}

/// Whether `number` is the `n`-th Ramanujan prime, with primes read from a
/// sieve that covers `[0, 2 number]`.
pub fn is_ramanujan_prime(number: u64, n: u64, sieve: &[bool]) -> (found: bool)
    requires
        2 * number < sieve@.len(),
        marks_primes(sieve@),
    ensures
        found == is_ramanujan_prime_spec(number as nat, n as nat),
{
    if !sieve[number as usize] {
        return false;
    }
    if !counts_hold_sieved(number, n, sieve) {
        return false;
    }
    let mut smaller: u64 = 2;
    while smaller < number
        invariant
            2 <= smaller,
            2 * number < sieve@.len(),
            marks_primes(sieve@),
            forall|s: nat|
                2 <= s < smaller ==> !(is_prime_spec(s) && #[trigger] counts_hold_from(s, n as nat)),
        decreases number - smaller,
    {
        if sieve[smaller as usize] {
            if counts_hold_sieved(smaller, n, sieve) {
                return false;
            }
        }
        smaller = smaller + 1;
    }
    true
}

} // verus!

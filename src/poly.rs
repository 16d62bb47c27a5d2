//! Arithmetic in the ring Z_n[X] / (X^r - 1).
//!
//! A polynomial of this ring is a vector of `r` coefficients: entry `k` holds
//! the coefficient of `X^k`. Products fold exponents modulo `r` and reduce
//! coefficients modulo `n`.
use vstd::arithmetic::div_mod::{lemma_add_mod_noop, lemma_mod_twice, lemma_small_mod};
use crate::arith::lemma_wide_product;
use vstd::prelude::*;

verus! {

/// The coefficients of `v`, as integers.
pub open spec fn coeffs(v: Seq<u64>) -> Seq<int> {
    Seq::new(v.len(), |i: int| v[i] as int)
}

/// Sum of `p[i] * q[j]` over `j < jn` with `(i + j) mod r == k`.
pub open spec fn row_sum(p: Seq<int>, q: Seq<int>, r: nat, i: int, jn: int, k: int) -> int
    decreases jn,
{
    if jn <= 0 {
        0
    } else {
        row_sum(p, q, r, i, jn - 1, k) + if (i + jn - 1) % (r as int) == k {
            p[i] * q[jn - 1]
        } else {
            0
        }
    }
}

/// Sum of `p[i] * q[j]` over `i < im`, `j < |q|` with `(i + j) mod r == k`:
/// for `im == |p|`, the coefficient of `X^k` in `p * q` modulo `X^r - 1`.
pub open spec fn conv_sum(p: Seq<int>, q: Seq<int>, r: nat, im: int, k: int) -> int
    decreases im,
{
    if im <= 0 {
        0
    } else {
        conv_sum(p, q, r, im - 1, k) + row_sum(p, q, r, im - 1, q.len() as int, k)
    }
}

/// The product of `p` and `q` in Z_n[X] / (X^r - 1).
pub open spec fn poly_mul(p: Seq<int>, q: Seq<int>, r: nat, n: nat) -> Seq<int> {
    Seq::new(r, |k: int| conv_sum(p, q, r, p.len() as int, k) % (n as int))
}

/// The polynomial 1 with `r` coefficients.
pub open spec fn poly_one(r: nat) -> Seq<int> {
    Seq::new(r, |k: int| if k == 0 { 1int } else { 0int })
}

/// Each coefficient of `p` reduced modulo `n`.
pub open spec fn poly_reduce(p: Seq<int>, n: nat) -> Seq<int> {
    Seq::new(p.len(), |k: int| p[k] % (n as int))
}

/// `acc * base^e` in Z_n[X] / (X^r - 1), computed by square-and-multiply:
/// the low bit of `e` decides whether `base` enters the accumulator, then
/// `base` is squared and `e` halved.
pub open spec fn pow_acc(acc: Seq<int>, base: Seq<int>, e: nat, r: nat, n: nat) -> Seq<int>
    decreases e,
{
    if e == 0 {
        acc
    } else {
        pow_acc(
            if e % 2 == 1 { poly_mul(acc, base, r, n) } else { acc },
            poly_mul(base, base, r, n),
            e / 2,
            r,
            n,
        )
    }
}

/// `base^e` in Z_n[X] / (X^r - 1).
pub open spec fn poly_pow(base: Seq<int>, e: nat, r: nat, n: nat) -> Seq<int> {
    pow_acc(poly_one(r), base, e, r, n)
}

/// A vector of `len` zeros.
fn zeros(len: usize) -> (v: Vec<u64>)
    ensures
        v@.len() == len,
        forall|k: int| 0 <= k < len ==> v@[k] == 0,
{
    let mut v: Vec<u64> = Vec::new();
    while v.len() < len
        invariant
            v@.len() <= len,
            forall|k: int| 0 <= k < v@.len() ==> v@[k] == 0,
        decreases len - v@.len(),
    {
        v.push(0);
    }
    v
}

proof fn lemma_row_step(p: Seq<int>, q: Seq<int>, r: nat, i: int, j: int, k: int)
    requires
        j >= 0,
    ensures
        row_sum(p, q, r, i, j + 1, k) == row_sum(p, q, r, i, j, k) + if (i + j) % (r as int)
            == k {
            p[i] * q[j]
        } else {
            0
        },
{
}

/// Product of `a` and `b` in Z_n[X] / (X^r - 1).
pub fn multiply_polynomials(a: &[u64], b: &[u64], r: usize, n: u64) -> (product: Vec<u64>)
    requires
        a@.len() == r,
        b@.len() == r,
        r > 0,
        n > 0,
    ensures
        product@.len() == r,
        coeffs(product@) == poly_mul(coeffs(a@), coeffs(b@), r as nat, n as nat),
{
    let ghost pa = coeffs(a@);
    let ghost pb = coeffs(b@);
    let ghost ni = n as int;
    let mut product = zeros(r);
    proof {
        assert forall|k: int| 0 <= k < r implies product@[k] as int == conv_sum(
            pa,
            pb,
            r as nat,
            0,
            k,
        ) % ni by {
            lemma_small_mod(0, n as nat);
        }
    }
    let mut i: usize = 0;
    while i < r
        invariant
            product@.len() == r,
            a@.len() == r,
            b@.len() == r,
            pa == coeffs(a@),
            pb == coeffs(b@),
            ni == n,
            n > 0,
            0 <= i <= r,
            forall|k: int|
                0 <= k < r ==> product@[k] as int == conv_sum(pa, pb, r as nat, i as int, k) % ni,
        decreases r - i,
    {
        let mut j: usize = 0;
        while j < r
            invariant
                product@.len() == r,
                a@.len() == r,
                b@.len() == r,
                pa == coeffs(a@),
                pb == coeffs(b@),
                ni == n,
                n > 0,
                0 <= i < r,
                0 <= j <= r,
                forall|k: int|
                    0 <= k < r ==> product@[k] as int == (conv_sum(pa, pb, r as nat, i as int, k)
                        + row_sum(pa, pb, r as nat, i as int, j as int, k)) % ni,
            decreases r - j,
        {
            let k: usize = if j >= r - i {
                j - (r - i)
            } else {
                i + j
            };
            proof {
                if j >= r - i {
                    lemma_fundamental_sub(i as int + j as int, r as int);
                } else {
                    lemma_small_mod((i + j) as nat, r as nat);
                }
                assert((i + j) % (r as int) == k);
            }
            let old_val: u64 = product[k];
            let x: u64 = a[i];
            let y: u64 = b[j];
            proof {
                lemma_wide_product(x, y);
            }
            let ab: u128 = (x as u128) * (y as u128);
            let s: u128 = (old_val as u128 + ab) % (n as u128);
            product.set(k, s as u64);
            proof {
                assert forall|kk: int| 0 <= kk < r implies product@[kk] as int == (conv_sum(
                    pa,
                    pb,
                    r as nat,
                    i as int,
                    kk,
                ) + row_sum(pa, pb, r as nat, i as int, j + 1, kk)) % ni by {
                    lemma_row_step(pa, pb, r as nat, i as int, j as int, kk);
                    if kk == k {
                        let c = conv_sum(pa, pb, r as nat, i as int, kk) + row_sum(
                            pa,
                            pb,
                            r as nat,
                            i as int,
                            j as int,
                            kk,
                        );
                        assert(pa[i as int] * pb[j as int] == ab);
                        lemma_mod_then_add(c, ab as int, ni);
                    }
                }
            }
            j += 1;
        }
        i += 1;
    }
    proof {
        assert(coeffs(product@) =~= poly_mul(pa, pb, r as nat, n as nat));
    }
    product
}

/// `base` raised to `exponent` in Z_n[X] / (X^r - 1), by repeated squaring.
pub fn polynomial_pow_mod(base: &[u64], exponent: u64, r: usize, n: u64) -> (result: Vec<u64>)
    requires
        base@.len() == r,
        r > 0,
        n > 0,
    ensures
        result@.len() == r,
        coeffs(result@) == poly_pow(coeffs(base@), exponent as nat, r as nat, n as nat),
{
    let mut result = zeros(r);
    result.set(0, 1);
    proof {
        assert(coeffs(result@) =~= poly_one(r as nat));
    }
    let mut current_base = vstd::slice::slice_to_vec(base);
    let mut exp: u64 = exponent;
    while exp > 0
        invariant
            result@.len() == r,
            current_base@.len() == r,
            r > 0,
            n > 0,
            pow_acc(coeffs(result@), coeffs(current_base@), exp as nat, r as nat, n as nat)
                == poly_pow(coeffs(base@), exponent as nat, r as nat, n as nat),
        decreases exp,
    {
        if exp % 2 == 1 {
            result = multiply_polynomials(result.as_slice(), current_base.as_slice(), r, n);
        }
        current_base = multiply_polynomials(current_base.as_slice(), current_base.as_slice(), r, n);
        exp = exp / 2;
    }
    result
}

/// Whether two polynomials have the same coefficients.
fn same_coeffs(p: &Vec<u64>, q: &Vec<u64>) -> (eq: bool)
    ensures
        eq == (coeffs(p@) == coeffs(q@)),
{
    if p.len() != q.len() {
        proof {
            assert(coeffs(p@).len() != coeffs(q@).len());
        }
        return false;
    }
    let mut k: usize = 0;
    while k < p.len()
        invariant
            p@.len() == q@.len(),
            0 <= k <= p@.len(),
            forall|i: int| 0 <= i < k ==> p@[i] == q@[i],
        decreases p@.len() - k,
    {
        if p[k] != q[k] {
            proof {
                assert(coeffs(p@)[k as int] != coeffs(q@)[k as int]);
            }
            return false;
        }
        k += 1;
    }
    proof {
        assert(coeffs(p@) =~= coeffs(q@));
    }
    true
}

/// The polynomial `X + a` with `r` coefficients reduced modulo `n`.
pub open spec fn linear_poly(a: nat, r: nat, n: nat) -> Seq<int> {
    Seq::new(
        r,
        |k: int|
            if k == 0 {
                (a as int) % (n as int)
            } else if k == 1 {
                1int % (n as int)
            } else {
                0int
            },
    )
}

/// The polynomial `X^(e mod r) + a` with `r` coefficients reduced modulo `n`;
/// where `e mod r == 0` the two terms add up in the constant coefficient.
pub open spec fn shifted_poly(a: nat, e: nat, r: nat, n: nat) -> Seq<int> {
    Seq::new(
        r,
        |k: int|
            ((if k == 0 { a as int } else { 0int }) + (if k == (e % r) as int { 1int } else { 0int }))
                % (n as int),
    )
}

/// Whether `(X + a)^n == X^n + a` holds in Z_n[X] / (X^r - 1).
pub open spec fn congruence_holds(a: nat, r: nat, n: nat) -> bool {
    poly_pow(linear_poly(a, r, n), n, r, n) == shifted_poly(a, n, r, n)
}

/// Checks the congruence `(X + a)^n == X^n + a` in Z_n[X] / (X^r - 1).
pub fn check_congruence(a: u64, r: u64, n: u64) -> (holds: bool)
    requires
        r >= 2,
        r <= usize::MAX,
        n >= 1,
    ensures
        holds == congruence_holds(a as nat, r as nat, n as nat),
{
    let ru: usize = r as usize;
    let mut base = zeros(ru);
    base.set(0, a % n);
    base.set(1, 1 % n);
    proof {
        assert(coeffs(base@) =~= linear_poly(a as nat, r as nat, n as nat));
    }
    let powered = polynomial_pow_mod(base.as_slice(), n, ru, n);
    let degree: usize = (n % r) as usize;
    let mut expected = zeros(ru);
    expected.set(0, a % n);
    if degree == 0 {
        expected.set(0, ((a as u128 + 1) % (n as u128)) as u64);
    } else {
        expected.set(degree, 1 % n);
    }
    proof {
        assert forall|k: int| 0 <= k < r implies coeffs(expected@)[k] == shifted_poly(
            a as nat,
            n as nat,
            r as nat,
            n as nat,
        )[k] by {
            if k != 0 && k != degree {
                lemma_small_mod(0, n as nat);
            }
        }
        assert(coeffs(expected@) =~= shifted_poly(a as nat, n as nat, r as nat, n as nat));
    }
    same_coeffs(&powered, &expected)
}

proof fn lemma_row_of_zero(p: Seq<int>, q: Seq<int>, r: nat, i: int, jn: int, k: int)
    requires
        p[i] == 0,
    ensures
        row_sum(p, q, r, i, jn, k) == 0,
    decreases jn,
{
    if jn > 0 {
        lemma_row_of_zero(p, q, r, i, jn - 1, k);
    }
}

proof fn lemma_row_of_unit(q: Seq<int>, r: nat, jn: int, k: int)
    requires
        0 <= jn <= r,
        0 <= k < r,
    ensures
        row_sum(poly_one(r), q, r, 0, jn, k) == if k < jn {
            q[k]
        } else {
            0
        },
    decreases jn,
{
    if jn > 0 {
        lemma_row_of_unit(q, r, jn - 1, k);
        lemma_small_mod((jn - 1) as nat, r);
    }
}

proof fn lemma_conv_of_unit(q: Seq<int>, r: nat, im: int, k: int)
    requires
        1 <= im <= r,
    ensures
        conv_sum(poly_one(r), q, r, im, k) == row_sum(poly_one(r), q, r, 0, q.len() as int, k),
    decreases im,
{
    if im > 1 {
        lemma_conv_of_unit(q, r, im - 1, k);
        lemma_row_of_zero(poly_one(r), q, r, im - 1, q.len() as int, k);
    } else {
        assert(conv_sum(poly_one(r), q, r, 0, k) == 0);
    }
}

/// The polynomial 1 is a left identity of the product: `1 * p` is `p` with
/// its coefficients reduced modulo `n`.
pub proof fn lemma_identity_product(p: Seq<int>, r: nat, n: nat)
    requires
        p.len() == r,
        r > 0,
        n > 0,
    ensures
        poly_mul(poly_one(r), p, r, n) == poly_reduce(p, n),
{
    assert forall|k: int| 0 <= k < r implies poly_mul(poly_one(r), p, r, n)[k] == poly_reduce(
        p,
        n,
    )[k] by {
        lemma_conv_of_unit(p, r, r as int, k);
        lemma_row_of_unit(p, r, r as int, k);
    }
    assert(poly_mul(poly_one(r), p, r, n) =~= poly_reduce(p, n));
}

/// Raising any polynomial to the power 0 gives the polynomial 1.
pub proof fn lemma_power_zero(p: Seq<int>, r: nat, n: nat)
    ensures
        poly_pow(p, 0, r, n) == poly_one(r),
{
}

/// Raising a polynomial to the power 1 gives it back, its coefficients
/// reduced modulo `n`.
pub proof fn lemma_power_one(p: Seq<int>, r: nat, n: nat)
    requires
        p.len() == r,
        r > 0,
        n > 0,
    ensures
        poly_pow(p, 1, r, n) == poly_reduce(p, n),
{
    lemma_identity_product(p, r, n);
    assert(poly_pow(p, 1, r, n) == pow_acc(
        poly_mul(poly_one(r), p, r, n),
        poly_mul(p, p, r, n),
        0,
        r,
        n,
    ));
}

/// Raising a polynomial to the power 2 gives its square.
pub proof fn lemma_power_two(p: Seq<int>, r: nat, n: nat)
    requires
        r > 0,
        n > 0,
    ensures
        poly_pow(p, 2, r, n) == poly_mul(p, p, r, n),
{
    let sq = poly_mul(p, p, r, n);
    assert(poly_pow(p, 2, r, n) == pow_acc(poly_one(r), sq, 1, r, n));
    assert(pow_acc(poly_one(r), sq, 1, r, n) == pow_acc(
        poly_mul(poly_one(r), sq, r, n),
        poly_mul(sq, sq, r, n),
        0,
        r,
        n,
    ));
    lemma_identity_product(sq, r, n);
    assert forall|k: int| 0 <= k < sq.len() implies 0 <= #[trigger] sq[k] < n by {}
    lemma_reduce_reduced(sq, n);
}

/// A polynomial whose coefficients already lie in `[0, n)` is its own reduction.
pub proof fn lemma_reduce_reduced(p: Seq<int>, n: nat)
    requires
        n > 0,
        forall|k: int| 0 <= k < p.len() ==> 0 <= #[trigger] p[k] < n,
    ensures
        poly_reduce(p, n) == p,
{
    assert forall|k: int| 0 <= k < p.len() implies poly_reduce(p, n)[k] == p[k] by {
        lemma_small_mod(p[k] as nat, n);
    }
    assert(poly_reduce(p, n) =~= p);
}

proof fn lemma_fundamental_sub(x: int, m: int)
    requires
        m <= x < 2 * m,
        m > 0,
    ensures
        x % m == x - m,
{
    vstd::arithmetic::div_mod::lemma_fundamental_div_mod_converse(x, m, 1, x - m);
}

proof fn lemma_mod_then_add(c: int, y: int, m: int)
    requires
        m > 0,
    ensures
        (c % m + y) % m == (c + y) % m,
{
    lemma_add_mod_noop(c, y, m);
    lemma_add_mod_noop(c % m, y, m);
    lemma_mod_twice(c, m);
}

} // verus!

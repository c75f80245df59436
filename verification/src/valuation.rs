//! How often a prime divides a number, and the number as the product of
//! its prime powers.
use vstd::arithmetic::div_mod::*;
use vstd::arithmetic::power::*;
use vstd::prelude::*;

use crate::primes::{is_prime, lemma_prime_divides_factor, lemma_prime_divisor};

verus! {

/// The exponent of `p` in `n`: how many times `p` divides `n`.
pub open spec fn exponent(p: nat, n: nat) -> nat
    decreases n,
{
    if p < 2 || n == 0 || n % p != 0 {
        0
    } else {
        proof {
            lemma_div_decreases(n as int, p as int);
        }
        1 + exponent(p, n / p)
    }
}

/// One more factor `p` raises the exponent of `p` by one.
pub proof fn lemma_exponent_times_p(p: nat, n: nat)
    requires
        p >= 2,
        n >= 1,
    ensures
        exponent(p, p * n) == 1 + exponent(p, n),
{
    lemma_mod_multiples_basic(n as int, p as int);
    lemma_div_multiples_vanish(n as int, p as int);
    assert(p * n == n * p) by (nonlinear_arith);
    assert(p * n >= 1) by (nonlinear_arith)
        requires
            p >= 2,
            n >= 1,
    ;
}

/// The exponent of a prime in a product is the sum of its exponents in the
/// factors.
pub proof fn lemma_exponent_of_product(p: nat, a: nat, b: nat)
    requires
        is_prime(p),
        a >= 1,
        b >= 1,
    ensures
        exponent(p, a * b) == exponent(p, a) + exponent(p, b),
    decreases a + b,
{
    assert(a * b >= 1) by (nonlinear_arith)
        requires
            a >= 1,
            b >= 1,
    ;
    if a % p == 0 {
        let a1 = a / p;
        lemma_fundamental_div_mod(a as int, p as int);
        assert(a1 >= 1 && a1 < a) by (nonlinear_arith)
            requires
                a == p * a1,
                a >= 1,
                p >= 2,
        ;
        lemma_exponent_of_product(p, a1, b);
        assert(a * b == p * (a1 * b)) by (nonlinear_arith)
            requires
                a == p * a1,
        ;
        assert(a1 * b >= 1) by (nonlinear_arith)
            requires
                a1 >= 1,
                b >= 1,
        ;
        lemma_exponent_times_p(p, a1 * b);
        lemma_exponent_times_p(p, a1);
    } else if b % p == 0 {
        let b1 = b / p;
        lemma_fundamental_div_mod(b as int, p as int);
        assert(b1 >= 1 && b1 < b) by (nonlinear_arith)
            requires
                b == p * b1,
                b >= 1,
                p >= 2,
        ;
        lemma_exponent_of_product(p, a, b1);
        assert(a * b == p * (a * b1)) by (nonlinear_arith)
            requires
                b == p * b1,
        ;
        assert(a * b1 >= 1) by (nonlinear_arith)
            requires
                a >= 1,
                b1 >= 1,
        ;
        lemma_exponent_times_p(p, a * b1);
        lemma_exponent_times_p(p, b1);
    } else {
        if (a * b) % p == 0 {
            lemma_prime_divides_factor(p, a, b);
        }
    }
}

/// A prime has exponent one in itself and zero in any other prime.
pub proof fn lemma_exponent_in_prime(p: nat, q: nat)
    requires
        is_prime(p),
        is_prime(q),
    ensures
        exponent(p, q) == if p == q {
            1nat
        } else {
            0nat
        },
{
    if p == q {
        lemma_mod_self_0(q as int);
        lemma_div_by_self(q as int);
        lemma_small_mod(1, q);
        assert(exponent(p, 1) == 0);
    } else if p < q {
        assert(!crate::primes::divides(p, q));
    } else {
        lemma_small_mod(q, p);
    }
}

/// The product, over the primes `p` above `lo` and up to `hi`, of `p` to
/// its exponent in `n`.
pub open spec fn prime_power_product(n: nat, lo: nat, hi: nat) -> int
    decreases hi,
{
    if hi <= lo {
        1
    } else {
        prime_power_product(n, lo, (hi - 1) as nat) * if is_prime(hi) {
            pow(hi as int, exponent(hi, n))
        } else {
            1
        }
    }
}

/// The product is positive.
pub proof fn lemma_product_positive(n: nat, lo: nat, hi: nat)
    ensures
        prime_power_product(n, lo, hi) >= 1,
    decreases hi,
{
    if hi > lo {
        lemma_product_positive(n, lo, (hi - 1) as nat);
        if is_prime(hi) {
            lemma_pow_positive(hi as int, exponent(hi, n));
        }
        assert(prime_power_product(n, lo, hi) >= 1) by (nonlinear_arith)
            requires
                prime_power_product(n, lo, hi) == prime_power_product(n, lo, (hi - 1) as nat) * (
                if is_prime(hi) {
                    pow(hi as int, exponent(hi, n))
                } else {
                    1
                }),
                prime_power_product(n, lo, (hi - 1) as nat) >= 1,
                (if is_prime(hi) {
                    pow(hi as int, exponent(hi, n))
                } else {
                    1
                }) >= 1,
        ;
    }
}

/// A range of primes can be cut in two.
pub proof fn lemma_product_split(n: nat, lo: nat, mid: nat, hi: nat)
    requires
        lo <= mid <= hi,
    ensures
        prime_power_product(n, lo, hi) == prime_power_product(n, lo, mid) * prime_power_product(
            n,
            mid,
            hi,
        ),
    decreases hi,
{
    if hi > mid {
        lemma_product_split(n, lo, mid, (hi - 1) as nat);
        let f: int = if is_prime(hi) {
            pow(hi as int, exponent(hi, n))
        } else {
            1
        };
        let a = prime_power_product(n, lo, mid);
        let b = prime_power_product(n, mid, (hi - 1) as nat);
        assert((a * b) * f == a * (b * f)) by (nonlinear_arith);
    } else {
        assert(prime_power_product(n, mid, hi) == 1);
        assert(prime_power_product(n, lo, mid) * 1 == prime_power_product(n, lo, mid));
    }
}

/// Over a range in which `n` has no prime factor the product is one.
pub proof fn lemma_product_of_none(n: nat, lo: nat, hi: nat)
    requires
        forall|p: nat| lo < p <= hi && is_prime(p) ==> #[trigger] exponent(p, n) == 0,
    ensures
        prime_power_product(n, lo, hi) == 1,
    decreases hi,
{
    if hi > lo {
        lemma_product_of_none(n, lo, (hi - 1) as nat);
        if is_prime(hi) {
            assert(exponent(hi, n) == 0);
            lemma_pow0(hi as int);
        }
    }
}

/// One more prime factor `q` multiplies the product by `q`, if `q` is in
/// the range.
proof fn lemma_product_times_prime(m: nat, q: nat, lo: nat, hi: nat)
    requires
        m >= 1,
        is_prime(q),
    ensures
        prime_power_product(q * m, lo, hi) == prime_power_product(m, lo, hi) * if lo < q <= hi {
            q as int
        } else {
            1
        },
    decreases hi,
{
    if hi > lo {
        lemma_product_times_prime(m, q, lo, (hi - 1) as nat);
        let before_m = prime_power_product(m, lo, (hi - 1) as nat);
        if is_prime(hi) {
            lemma_exponent_of_product(hi, q, m);
            lemma_exponent_in_prime(hi, q);
            let e = exponent(hi, m);
            if hi == q {
                lemma_pow_adds(q as int, 1, e);
                lemma_pow1(q as int);
                assert(before_m * (q * pow(q as int, e)) == (before_m * pow(q as int, e)) * q)
                    by (nonlinear_arith);
                assert(before_m * 1 == before_m);
            } else {
                let f = pow(hi as int, e);
                if lo < q <= hi {
                    assert((before_m * q) * f == (before_m * f) * q) by (nonlinear_arith);
                } else {
                    assert((before_m * 1) * f == (before_m * f) * 1) by (nonlinear_arith);
                }
            }
        } else {
            assert(hi != q);
        }
    } else {
        assert(1int * 1 == 1);
    }
}

/// A number is the product of its prime powers: if all its prime factors
/// are at most `bound`, it is the product over the primes up to `bound`.
pub proof fn lemma_factorization(n: nat, bound: nat)
    requires
        n >= 1,
        forall|p: nat| p > bound && is_prime(p) ==> #[trigger] exponent(p, n) == 0,
    ensures
        prime_power_product(n, 0, bound) == n,
    decreases n,
{
    if n == 1 {
        assert forall|p: nat| 0 < p <= bound && is_prime(p) implies #[trigger] exponent(p, 1)
            == 0 by {
            lemma_small_mod(1, p);
        }
        lemma_product_of_none(1, 0, bound);
    } else {
        let q = lemma_prime_divisor(n);
        let m = n / q;
        lemma_fundamental_div_mod(n as int, q as int);
        assert(m >= 1 && m < n) by (nonlinear_arith)
            requires
                n == q * m,
                n >= 2,
                q >= 2,
        ;
        assert(exponent(q, n) >= 1);
        assert(q <= bound);
        assert forall|p: nat| p > bound && is_prime(p) implies #[trigger] exponent(p, m) == 0 by {
            lemma_exponent_of_product(p, q, m);
            assert(exponent(p, n) == 0);
        }
        lemma_factorization(m, bound);
        lemma_product_times_prime(m, q, 0, bound);
        assert(m * q == q * m) by (nonlinear_arith);
    }
}

} // verus!

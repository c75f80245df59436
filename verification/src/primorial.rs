//! The product of the primes of a range, and its bound by a power of four.
use vstd::arithmetic::power::*;
use vstd::prelude::*;

use crate::binomial::{
    binomial, lemma_exponent_in_binomial, lemma_legendre_below, lemma_legendre_once,
    lemma_odd_middle_upper,
};
use crate::primes::{divides, is_prime};
use crate::valuation::{
    exponent, lemma_factorization, lemma_product_positive, lemma_product_split,
    prime_power_product,
};

verus! {

/// The product of the primes above `lo` and up to `hi`.
pub open spec fn primorial(lo: nat, hi: nat) -> int
    decreases hi,
{
    if hi <= lo {
        1
    } else {
        primorial(lo, (hi - 1) as nat) * if is_prime(hi) {
            hi as int
        } else {
            1
        }
    }
}

pub proof fn lemma_primorial_positive(lo: nat, hi: nat)
    ensures
        primorial(lo, hi) >= 1,
    decreases hi,
{
    if hi > lo {
        lemma_primorial_positive(lo, (hi - 1) as nat);
        let before = primorial(lo, (hi - 1) as nat);
        let f: int = if is_prime(hi) {
            hi as int
        } else {
            1
        };
        assert(before * f >= 1) by (nonlinear_arith)
            requires
                before >= 1,
                f >= 1,
        ;
    }
}

/// A range of primes can be cut in two.
pub proof fn lemma_primorial_split(lo: nat, mid: nat, hi: nat)
    requires
        lo <= mid <= hi,
    ensures
        primorial(lo, hi) == primorial(lo, mid) * primorial(mid, hi),
    decreases hi,
{
    if hi > mid {
        lemma_primorial_split(lo, mid, (hi - 1) as nat);
        let f: int = if is_prime(hi) {
            hi as int
        } else {
            1
        };
        let a = primorial(lo, mid);
        let b = primorial(mid, (hi - 1) as nat);
        assert((a * b) * f == a * (b * f)) by (nonlinear_arith);
    } else {
        assert(primorial(mid, hi) == 1);
        assert(primorial(lo, mid) * 1 == primorial(lo, mid));
    }
}

/// Where no prime of the range divides `n` twice, the prime powers of `n`
/// in the range multiply to at most the primes of the range.
pub proof fn lemma_product_at_most_primorial(n: nat, lo: nat, hi: nat)
    requires
        forall|p: nat| lo < p <= hi && is_prime(p) ==> #[trigger] exponent(p, n) <= 1,
    ensures
        prime_power_product(n, lo, hi) <= primorial(lo, hi),
    decreases hi,
{
    if hi > lo {
        lemma_product_at_most_primorial(n, lo, (hi - 1) as nat);
        lemma_product_positive(n, lo, (hi - 1) as nat);
        let a = prime_power_product(n, lo, (hi - 1) as nat);
        let b = primorial(lo, (hi - 1) as nat);
        if is_prime(hi) {
            assert(exponent(hi, n) <= 1);
            lemma_pow0(hi as int);
            lemma_pow1(hi as int);
            let f = pow(hi as int, exponent(hi, n));
            assert(a * f <= b * hi) by (nonlinear_arith)
                requires
                    1 <= a <= b,
                    1 <= f <= hi,
            ;
        } else {
            assert(a * 1 <= b * 1);
        }
    }
}

/// Where every prime of the range divides `n`, the primes of the range
/// multiply to at most the prime powers of `n` in the range.
pub proof fn lemma_primorial_at_most_product(n: nat, lo: nat, hi: nat)
    requires
        forall|p: nat| lo < p <= hi && is_prime(p) ==> #[trigger] exponent(p, n) >= 1,
    ensures
        primorial(lo, hi) <= prime_power_product(n, lo, hi),
    decreases hi,
{
    if hi > lo {
        lemma_primorial_at_most_product(n, lo, (hi - 1) as nat);
        lemma_primorial_positive(lo, (hi - 1) as nat);
        let a = prime_power_product(n, lo, (hi - 1) as nat);
        let b = primorial(lo, (hi - 1) as nat);
        if is_prime(hi) {
            assert(exponent(hi, n) >= 1);
            lemma_pow1(hi as int);
            lemma_pow_increases(hi, 1, exponent(hi, n));
            let f = pow(hi as int, exponent(hi, n));
            assert(b * hi <= a * f) by (nonlinear_arith)
                requires
                    1 <= b <= a,
                    1 <= hi <= f,
            ;
        } else {
            assert(b * 1 <= a * 1);
        }
    }
}

/// Where every prime power of `n` in the range is at most `c`, they
/// multiply to at most `c` to the length of the range.
pub proof fn lemma_product_at_most_power(n: nat, lo: nat, hi: nat, c: nat)
    requires
        lo <= hi,
        c >= 1,
        forall|p: nat|
            lo < p <= hi && is_prime(p) ==> pow(p as int, #[trigger] exponent(p, n)) <= c,
    ensures
        prime_power_product(n, lo, hi) <= pow(c as int, (hi - lo) as nat),
    decreases hi,
{
    reveal(pow);
    if hi > lo {
        lemma_product_at_most_power(n, lo, (hi - 1) as nat, c);
        lemma_product_positive(n, lo, (hi - 1) as nat);
        let a = prime_power_product(n, lo, (hi - 1) as nat);
        let b = pow(c as int, (hi - 1 - lo) as nat);
        assert(pow(c as int, (hi - lo) as nat) == c * b);
        if is_prime(hi) {
            let f = pow(hi as int, exponent(hi, n));
            lemma_pow_positive(hi as int, exponent(hi, n));
            assert(a * f <= c * b) by (nonlinear_arith)
                requires
                    1 <= a <= b,
                    1 <= f <= c,
            ;
        } else {
            assert(a * 1 <= c * b) by (nonlinear_arith)
                requires
                    1 <= a <= b,
                    1 <= c,
            ;
        }
    }
}

/// The primes of the upper half of an odd row's index divide its middle
/// entry, and so multiply to at most a power of four.
proof fn lemma_upper_half_primes(k: nat)
    requires
        k >= 1,
    ensures
        primorial(k + 1, 2 * k + 1) <= pow(4, k),
{
    let h = binomial(2 * k + 1, k);
    lemma_odd_middle_upper(k);
    assert forall|p: nat| p > 2 * k + 1 && is_prime(p) implies #[trigger] exponent(p, h) == 0 by {
        lemma_exponent_in_binomial(p, 2 * k + 1, k);
        lemma_legendre_below(p, 2 * k + 1);
    }
    lemma_factorization(h, 2 * k + 1);
    lemma_product_split(h, 0, k + 1, 2 * k + 1);
    lemma_product_positive(h, 0, k + 1);
    assert forall|p: nat| k + 1 < p <= 2 * k + 1 && is_prime(p) implies #[trigger] exponent(p, h)
        >= 1 by {
        lemma_exponent_in_binomial(p, 2 * k + 1, k);
        lemma_legendre_once(p, 2 * k + 1);
        lemma_legendre_below(p, k);
        lemma_legendre_below(p, k + 1);
    }
    lemma_primorial_at_most_product(h, k + 1, 2 * k + 1);
    lemma_product_positive(h, k + 1, 2 * k + 1);
    let low = prime_power_product(h, 0, k + 1);
    let high = prime_power_product(h, k + 1, 2 * k + 1);
    assert(high <= low * high) by (nonlinear_arith)
        requires
            low >= 1,
            high >= 0,
    ;
    lemma_primorial_positive(k + 1, 2 * k + 1);
}

/// The primes up to `x` multiply to at most four to the `x`.
pub proof fn lemma_primorial_bound(x: nat)
    ensures
        primorial(0, x) <= pow(4, x),
    decreases x,
{
    reveal(pow);
    if x <= 2 {
        assert(primorial(0, 0) == 1);
        assert(primorial(0, 1) == primorial(0, 0) * 1);
        assert(primorial(0, 2) == primorial(0, 1) * 2 || primorial(0, 2) == primorial(0, 1) * 1);
        assert(pow(4, 0) == 1);
        assert(pow(4, 1) == 4 * pow(4, 0));
        assert(pow(4, 2) == 4 * pow(4, 1));
    } else if x % 2 == 0 {
        assert(divides(2, x));
        assert(!is_prime(x));
        lemma_primorial_bound((x - 1) as nat);
        lemma_pow_positive(4, (x - 1) as nat);
        assert(pow(4, x) == 4 * pow(4, (x - 1) as nat));
    } else {
        let k = (x / 2) as nat;
        assert(x == 2 * k + 1);
        lemma_primorial_bound(k + 1);
        lemma_upper_half_primes(k);
        lemma_primorial_split(0, k + 1, x);
        lemma_pow_adds(4, k + 1, k);
        lemma_primorial_positive(0, k + 1);
        lemma_primorial_positive(k + 1, x);
        let a = primorial(0, k + 1);
        let b = primorial(k + 1, x);
        let pa = pow(4, k + 1);
        let pb = pow(4, k);
        assert(a * b <= pa * pb) by (nonlinear_arith)
            requires
                1 <= a <= pa,
                1 <= b <= pb,
        ;
    }
}

} // verus!

//! Factorials and binomial coefficients, and the exponents of primes in
//! them.
use vstd::arithmetic::div_mod::*;
use vstd::arithmetic::power::*;
use vstd::prelude::*;

use crate::primes::is_prime;
use crate::valuation::{exponent, lemma_exponent_of_product, lemma_exponent_times_p};

verus! {

/// The product of the numbers from one to `n`.
pub open spec fn factorial(n: nat) -> nat
    decreases n,
{
    if n == 0 {
        1
    } else {
        n * factorial((n - 1) as nat)
    }
}

/// The number of ways to choose `k` of `n`, by the rule of Pascal's
/// triangle.
pub open spec fn binomial(n: nat, k: nat) -> nat
    decreases n,
{
    if k == 0 {
        1
    } else if n == 0 {
        0
    } else {
        binomial((n - 1) as nat, (k - 1) as nat) + binomial((n - 1) as nat, k)
    }
}

/// The middle entry of row `2n` of Pascal's triangle.
pub open spec fn central(n: nat) -> nat {
    binomial(2 * n, n)
}

pub proof fn lemma_factorial_positive(n: nat)
    ensures
        factorial(n) >= 1,
    decreases n,
{
    if n > 0 {
        lemma_factorial_positive((n - 1) as nat);
        assert(n * factorial((n - 1) as nat) >= 1) by (nonlinear_arith)
            requires
                n >= 1,
                factorial((n - 1) as nat) >= 1,
        ;
    }
}

proof fn lemma_binomial_beyond(n: nat, k: nat)
    requires
        k > n,
    ensures
        binomial(n, k) == 0,
    decreases n,
{
    if n > 0 {
        lemma_binomial_beyond((n - 1) as nat, (k - 1) as nat);
        lemma_binomial_beyond((n - 1) as nat, k);
    }
}

/// A binomial coefficient times the factorials of its two parts is the
/// factorial of the whole.
pub proof fn lemma_binomial_factorials(n: nat, k: nat)
    requires
        k <= n,
    ensures
        binomial(n, k) * factorial(k) * factorial((n - k) as nat) == factorial(n),
        binomial(n, k) >= 1,
    decreases n,
{
    lemma_factorial_positive(k);
    lemma_factorial_positive((n - k) as nat);
    if k == 0 {
        assert(1 * factorial(0) * factorial(n) == factorial(n)) by (nonlinear_arith)
            requires
                factorial(0) == 1,
        ;
    } else if k == n {
        lemma_binomial_factorials((n - 1) as nat, (k - 1) as nat);
        lemma_binomial_beyond((n - 1) as nat, k);
        let top = binomial((n - 1) as nat, (k - 1) as nat);
        let f = factorial((k - 1) as nat);
        lemma_factorial_positive((k - 1) as nat);
        assert(top * f * 1 == factorial((n - 1) as nat));
        assert(top * f == factorial((n - 1) as nat)) by (nonlinear_arith)
            requires
                top * f * 1 == factorial((n - 1) as nat),
        ;
        assert(top == 1) by (nonlinear_arith)
            requires
                top * f == f,
                f >= 1,
        ;
        assert(1 * factorial(n) * 1 == factorial(n)) by (nonlinear_arith);
    } else {
        let a = binomial((n - 1) as nat, (k - 1) as nat);
        let b = binomial((n - 1) as nat, k);
        lemma_binomial_factorials((n - 1) as nat, (k - 1) as nat);
        lemma_binomial_factorials((n - 1) as nat, k);
        let fk1 = factorial((k - 1) as nat);
        let fnk1 = factorial((n - k - 1) as nat);
        let fn1 = factorial((n - 1) as nat);
        assert(factorial(k) == k * fk1);
        assert(factorial((n - k) as nat) == (n - k) * fnk1);
        assert((a + b) * (k * fk1) * ((n - k) * fnk1) == n * fn1) by (nonlinear_arith)
            requires
                a * fk1 * ((n - k) * fnk1) == fn1,
                b * (k * fk1) * fnk1 == fn1,
        ;
    }
}

/// Choosing `k` of `n` is leaving `n - k` of `n`.
pub proof fn lemma_binomial_symmetric(n: nat, k: nat)
    requires
        k <= n,
    ensures
        binomial(n, k) == binomial(n, (n - k) as nat),
{
    lemma_binomial_factorials(n, k);
    lemma_binomial_factorials(n, (n - k) as nat);
    lemma_factorial_positive(k);
    lemma_factorial_positive((n - k) as nat);
    let x = binomial(n, k);
    let y = binomial(n, (n - k) as nat);
    let f = factorial(k);
    let g = factorial((n - k) as nat);
    assert(x == y) by (nonlinear_arith)
        requires
            x * f * g == y * g * f,
            f >= 1,
            g >= 1,
    ;
}

/// From one central coefficient to the next.
pub proof fn lemma_central_step(n: nat)
    ensures
        (n + 1) * central(n + 1) == 2 * (2 * n + 1) * central(n),
{
    lemma_binomial_factorials(2 * n, n);
    lemma_binomial_factorials(2 * n + 2, n + 1);
    lemma_factorial_positive(n);
    let c0 = central(n);
    let c1 = central(n + 1);
    let f = factorial(n);
    let f2 = factorial(2 * n);
    assert(factorial(n + 1) == (n + 1) * f);
    assert(factorial(2 * n + 2) == (2 * n + 2) * factorial(2 * n + 1));
    assert(factorial(2 * n + 1) == (2 * n + 1) * f2);
    assert((n + 1) * c1 == 2 * (2 * n + 1) * c0) by (nonlinear_arith)
        requires
            c0 * f * f == f2,
            c1 * ((n + 1) * f) * ((n + 1) * f) == (2 * n + 2) * ((2 * n + 1) * f2),
            f >= 1,
    ;
}

/// The central coefficient is at least its share of the row's sum.
pub proof fn lemma_central_lower(n: nat)
    requires
        n >= 1,
    ensures
        pow(4, n) <= 2 * n * central(n),
    decreases n,
{
    reveal(pow);
    if n == 1 {
        reveal_with_fuel(binomial, 4);
        assert(central(1) == 2);
        assert(pow(4, 1) == 4 * pow(4, 0));
    } else {
        lemma_central_lower((n - 1) as nat);
        lemma_central_step((n - 1) as nat);
        let c0 = central((n - 1) as nat);
        let c1 = central(n);
        let q = pow(4, (n - 1) as nat);
        assert(4 * q <= 2 * n * c1) by (nonlinear_arith)
            requires
                q <= 2 * (n - 1) * c0,
                n * c1 == 2 * (2 * (n - 1) + 1) * c0,
                n >= 2,
        ;
    }
}

/// The central coefficient is at most half the row's sum.
pub proof fn lemma_central_upper(n: nat)
    requires
        n >= 1,
    ensures
        2 * central(n) <= pow(4, n),
    decreases n,
{
    reveal(pow);
    if n == 1 {
        reveal_with_fuel(binomial, 4);
        assert(central(1) == 2);
        assert(pow(4, 1) == 4 * pow(4, 0));
    } else {
        lemma_central_upper((n - 1) as nat);
        lemma_central_step((n - 1) as nat);
        let c0 = central((n - 1) as nat);
        let c1 = central(n);
        let q = pow(4, (n - 1) as nat);
        assert(2 * c1 <= 4 * q) by (nonlinear_arith)
            requires
                2 * c0 <= q,
                n * c1 == 2 * (2 * (n - 1) + 1) * c0,
                n >= 2,
        ;
    }
}

/// The two middle entries of an odd row are equal and at most a quarter of
/// the next row's sum.
pub proof fn lemma_odd_middle_upper(k: nat)
    ensures
        binomial(2 * k + 1, k) <= pow(4, k),
        binomial(2 * k + 1, k) >= 1,
{
    reveal(pow);
    lemma_binomial_symmetric(2 * k + 1, k);
    lemma_binomial_factorials(2 * k + 1, k);
    lemma_central_upper(k + 1);
    assert(central(k + 1) == binomial(2 * k + 1, k) + binomial(2 * k + 1, k + 1));
    assert(pow(4, k + 1) == 4 * pow(4, k));
}

/// The exponent of `p` in the factorial of `n`, by Legendre's formula:
/// the multiples of `p` up to `n`, then those of its square, and so on.
pub open spec fn legendre(p: nat, n: nat) -> nat
    decreases n,
{
    if p < 2 || n == 0 {
        0
    } else {
        proof {
            lemma_div_decreases(n as int, p as int);
        }
        n / p + legendre(p, n / p)
    }
}

/// Below `p` there is no multiple of `p` but zero.
pub proof fn lemma_legendre_below(p: nat, n: nat)
    requires
        p >= 2,
        n < p,
    ensures
        legendre(p, n) == 0,
{
    lemma_basic_div(n as int, p as int);
    assert(legendre(p, 0) == 0);
}

/// From `p` to below its double there is one multiple of `p`.
pub proof fn lemma_legendre_once(p: nat, n: nat)
    requires
        p >= 2,
        p <= n < 2 * p,
    ensures
        legendre(p, n) == 1,
{
    lemma_fundamental_div_mod_converse(n as int, p as int, 1, n - p);
    lemma_legendre_below(p, 1);
}

/// One more factor in the factorial adds its own exponent.
proof fn lemma_legendre_step(p: nat, k: nat)
    requires
        p >= 2,
        k >= 1,
    ensures
        legendre(p, k) == legendre(p, (k - 1) as nat) + exponent(p, k),
    decreases k,
{
    let pi = p as int;
    let j = k / p;
    let r = k % p;
    lemma_fundamental_div_mod(k as int, pi);
    lemma_mod_bound(k as int, pi);
    assert(k == j * p + r) by (nonlinear_arith)
        requires
            k == p * j + r,
    ;
    if r != 0 {
        lemma_fundamental_div_mod_converse(k - 1, pi, j as int, r - 1);
        if k - 1 == 0 {
            assert(j == 0) by (nonlinear_arith)
                requires
                    k == j * p + r,
                    k == 1,
                    r >= 1,
                    p >= 2,
            ;
            assert(legendre(p, 0) == 0);
        }
    } else {
        assert(j >= 1 && j < k) by (nonlinear_arith)
            requires
                k == j * p,
                k >= 1,
                p >= 2,
        ;
        assert(k - 1 == (j - 1) * p + (p - 1)) by (nonlinear_arith)
            requires
                k == j * p,
        ;
        lemma_fundamental_div_mod_converse(k - 1, pi, j - 1, p - 1);
        lemma_legendre_step(p, j);
        assert(k == p * j) by (nonlinear_arith)
            requires
                k == j * p,
        ;
        lemma_exponent_times_p(p, j);
        if k - 1 == 0 {
        } else {
            assert(legendre(p, (k - 1) as nat) == (j - 1) + legendre(p, (j - 1) as nat));
        }
    }
}

/// Legendre's formula gives the exponent of a prime in a factorial.
pub proof fn lemma_exponent_in_factorial(p: nat, n: nat)
    requires
        is_prime(p),
    ensures
        exponent(p, factorial(n)) == legendre(p, n),
    decreases n,
{
    if n == 0 {
        lemma_small_mod(1, p);
    } else {
        lemma_exponent_in_factorial(p, (n - 1) as nat);
        lemma_factorial_positive((n - 1) as nat);
        lemma_exponent_of_product(p, n, factorial((n - 1) as nat));
        lemma_legendre_step(p, n);
    }
}

/// The exponent of a prime in a binomial coefficient, by Legendre's
/// formula for the three factorials.
pub proof fn lemma_exponent_in_binomial(p: nat, n: nat, k: nat)
    requires
        is_prime(p),
        k <= n,
    ensures
        exponent(p, binomial(n, k)) + legendre(p, k) + legendre(p, (n - k) as nat) == legendre(
            p,
            n,
        ),
{
    lemma_binomial_factorials(n, k);
    lemma_factorial_positive(k);
    lemma_factorial_positive((n - k) as nat);
    let b = binomial(n, k);
    let f = factorial(k);
    let g = factorial((n - k) as nat);
    assert(b * f >= 1) by (nonlinear_arith)
        requires
            b >= 1,
            f >= 1,
    ;
    lemma_exponent_of_product(p, b, f);
    lemma_exponent_of_product(p, b * f, g);
    lemma_exponent_in_factorial(p, k);
    lemma_exponent_in_factorial(p, (n - k) as nat);
    lemma_exponent_in_factorial(p, n);
}

} // verus!

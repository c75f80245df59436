//! Between a number and its double there is a prime.
//!
//! This is what makes the search for the table size succeed: the sieve is
//! run up to twice the wanted capacity, and the least prime from the
//! capacity on lies in that range.
use vstd::arithmetic::div_mod::*;
use vstd::arithmetic::mul::lemma_mul_inequality_converse;
use vstd::arithmetic::power::*;
use vstd::arithmetic::power2::*;
use vstd::prelude::*;

use crate::binomial::{
    central, legendre, lemma_binomial_factorials, lemma_central_lower,
    lemma_exponent_in_binomial, lemma_legendre_below, lemma_legendre_once,
};
use crate::primes::{is_prime, lemma_prime_by_trial, no_divisor_from, prime_within};
use crate::primorial::{
    lemma_primorial_bound, lemma_primorial_positive, lemma_primorial_split,
    lemma_product_at_most_power, lemma_product_at_most_primorial, primorial,
};
use crate::valuation::{
    exponent, lemma_factorization, lemma_product_of_none, lemma_product_positive,
    lemma_product_split, prime_power_product,
};

verus! {

/// Beyond the square root there is nothing to try.
proof fn lemma_trial_end(n: nat, d: nat)
    requires
        d * d > n,
    ensures
        no_divisor_from(n, d),
{
}

/// Up to eight divisors tried at once: none of the consecutive numbers
/// `d0` to `d7` that are below `to` divides `n`.
proof fn lemma_trial_steps(
    n: nat,
    d0: nat,
    d1: nat,
    d2: nat,
    d3: nat,
    d4: nat,
    d5: nat,
    d6: nat,
    d7: nat,
    to: nat,
)
    requires
        d1 == d0 + 1,
        d2 == d1 + 1,
        d3 == d2 + 1,
        d4 == d3 + 1,
        d5 == d4 + 1,
        d6 == d5 + 1,
        d7 == d6 + 1,
        d0 <= to <= d7 + 1,
        no_divisor_from(n, to),
        d0 < to ==> n % d0 != 0,
        d1 < to ==> n % d1 != 0,
        d2 < to ==> n % d2 != 0,
        d3 < to ==> n % d3 != 0,
        d4 < to ==> n % d4 != 0,
        d5 < to ==> n % d5 != 0,
        d6 < to ==> n % d6 != 0,
        d7 < to ==> n % d7 != 0,
    ensures
        no_divisor_from(n, d0),
{
    reveal_with_fuel(no_divisor_from, 9);
}

/// A chain of primes, each less than twice the one before.
proof fn lemma_prime_chain_low()
    ensures
        is_prime(2),
        is_prime(3),
        is_prime(5),
        is_prime(7),
        is_prime(13),
        is_prime(23),
        is_prime(43),
        is_prime(83),
        is_prime(163),
        is_prime(317),
        is_prime(631),
{
    lemma_trial_end(2, 2);
    lemma_prime_by_trial(2);
    lemma_trial_end(3, 2);
    lemma_prime_by_trial(3);
    lemma_trial_end(5, 3);
    lemma_trial_steps(5, 2, 3, 4, 5, 6, 7, 8, 9, 3);
    lemma_prime_by_trial(5);
    lemma_trial_end(7, 3);
    lemma_trial_steps(7, 2, 3, 4, 5, 6, 7, 8, 9, 3);
    lemma_prime_by_trial(7);
    lemma_trial_end(13, 4);
    lemma_trial_steps(13, 2, 3, 4, 5, 6, 7, 8, 9, 4);
    lemma_prime_by_trial(13);
    lemma_trial_end(23, 5);
    lemma_trial_steps(23, 2, 3, 4, 5, 6, 7, 8, 9, 5);
    lemma_prime_by_trial(23);
    lemma_trial_end(43, 7);
    lemma_trial_steps(43, 2, 3, 4, 5, 6, 7, 8, 9, 7);
    lemma_prime_by_trial(43);
    lemma_trial_end(83, 10);
    lemma_trial_steps(83, 2, 3, 4, 5, 6, 7, 8, 9, 10);
    lemma_prime_by_trial(83);
    lemma_trial_end(163, 13);
    lemma_trial_steps(163, 5, 6, 7, 8, 9, 10, 11, 12, 13);
    lemma_trial_steps(163, 2, 3, 4, 5, 6, 7, 8, 9, 5);
    lemma_prime_by_trial(163);
    lemma_trial_end(317, 18);
    lemma_trial_steps(317, 10, 11, 12, 13, 14, 15, 16, 17, 18);
    lemma_trial_steps(317, 2, 3, 4, 5, 6, 7, 8, 9, 10);
    lemma_prime_by_trial(317);
    lemma_trial_end(631, 26);
    lemma_trial_steps(631, 18, 19, 20, 21, 22, 23, 24, 25, 26);
    lemma_trial_steps(631, 10, 11, 12, 13, 14, 15, 16, 17, 18);
    lemma_trial_steps(631, 2, 3, 4, 5, 6, 7, 8, 9, 10);
    lemma_prime_by_trial(631);
}

/// The chain goes on.
proof fn lemma_prime_chain_high()
    ensures
        is_prime(1259),
        is_prime(2503),
        is_prime(5003),
{
    lemma_trial_end(1259, 36);
    lemma_trial_steps(1259, 28, 29, 30, 31, 32, 33, 34, 35, 36);
    lemma_trial_steps(1259, 20, 21, 22, 23, 24, 25, 26, 27, 28);
    lemma_trial_steps(1259, 12, 13, 14, 15, 16, 17, 18, 19, 20);
    lemma_trial_steps(1259, 4, 5, 6, 7, 8, 9, 10, 11, 12);
    lemma_trial_steps(1259, 2, 3, 4, 5, 6, 7, 8, 9, 4);
    lemma_prime_by_trial(1259);
    lemma_trial_end(2503, 51);
    lemma_trial_steps(2503, 43, 44, 45, 46, 47, 48, 49, 50, 51);
    lemma_trial_steps(2503, 35, 36, 37, 38, 39, 40, 41, 42, 43);
    lemma_trial_steps(2503, 27, 28, 29, 30, 31, 32, 33, 34, 35);
    lemma_trial_steps(2503, 19, 20, 21, 22, 23, 24, 25, 26, 27);
    lemma_trial_steps(2503, 11, 12, 13, 14, 15, 16, 17, 18, 19);
    lemma_trial_steps(2503, 3, 4, 5, 6, 7, 8, 9, 10, 11);
    lemma_trial_steps(2503, 2, 3, 4, 5, 6, 7, 8, 9, 3);
    lemma_prime_by_trial(2503);
    lemma_trial_end(5003, 71);
    lemma_trial_steps(5003, 63, 64, 65, 66, 67, 68, 69, 70, 71);
    lemma_trial_steps(5003, 55, 56, 57, 58, 59, 60, 61, 62, 63);
    lemma_trial_steps(5003, 47, 48, 49, 50, 51, 52, 53, 54, 55);
    lemma_trial_steps(5003, 39, 40, 41, 42, 43, 44, 45, 46, 47);
    lemma_trial_steps(5003, 31, 32, 33, 34, 35, 36, 37, 38, 39);
    lemma_trial_steps(5003, 23, 24, 25, 26, 27, 28, 29, 30, 31);
    lemma_trial_steps(5003, 15, 16, 17, 18, 19, 20, 21, 22, 23);
    lemma_trial_steps(5003, 7, 8, 9, 10, 11, 12, 13, 14, 15);
    lemma_trial_steps(5003, 2, 3, 4, 5, 6, 7, 8, 9, 7);
    lemma_prime_by_trial(5003);
}

/// Up to five thousand, the chain puts a prime between a number and its
/// double.
proof fn lemma_prime_within_double_small(n: nat)
    requires
        1 <= n <= 5000,
    ensures
        prime_within(n, 2 * n),
{
    lemma_prime_chain_low();
    lemma_prime_chain_high();
    let p: nat = if n <= 2 {
        2
    } else if n <= 3 {
        3
    } else if n <= 5 {
        5
    } else if n <= 7 {
        7
    } else if n <= 13 {
        13
    } else if n <= 23 {
        23
    } else if n <= 43 {
        43
    } else if n <= 83 {
        83
    } else if n <= 163 {
        163
    } else if n <= 317 {
        317
    } else if n <= 631 {
        631
    } else if n <= 1259 {
        1259
    } else if n <= 2503 {
        2503
    } else {
        5003
    };
    assert(n <= p <= 2 * n && is_prime(p));
}

/// By how much the exponent of `p` in the factorial of `a` exceeds twice
/// its exponent in the factorial of `b`. For `a` twice `b` this is the
/// exponent of `p` in the central binomial coefficient.
spec fn surplus(p: nat, a: nat, b: nat) -> int {
    legendre(p, a) - 2 * legendre(p, b)
}

/// Halving commutes with division by `p`, up to one.
proof fn lemma_halves(p: nat, a: nat, b: nat)
    requires
        p >= 2,
        a == 2 * b || a == 2 * b + 1,
    ensures
        a / p == 2 * (b / p) || a / p == 2 * (b / p) + 1,
{
    let pi = p as int;
    let q = b / p;
    let r = b % p;
    lemma_fundamental_div_mod(b as int, pi);
    lemma_mod_bound(b as int, pi);
    let rest: int = a - 2 * b + 2 * r;
    if rest < p {
        assert(a == (2 * q) * pi + rest) by (nonlinear_arith)
            requires
                b == pi * q + r,
                rest == a - 2 * b + 2 * r,
        ;
        lemma_fundamental_div_mod_converse(a as int, pi, (2 * q) as int, rest);
    } else {
        assert(a == (2 * q + 1) * pi + (rest - pi)) by (nonlinear_arith)
            requires
                b == pi * q + r,
                rest == a - 2 * b + 2 * r,
        ;
        lemma_fundamental_div_mod_converse(a as int, pi, (2 * q + 1) as int, rest - pi);
    }
}

/// The surplus is not negative, and `p` to the surplus is at most `a`.
proof fn lemma_surplus_bound(p: nat, a: nat, b: nat)
    requires
        p >= 2,
        a == 2 * b || a == 2 * b + 1,
    ensures
        surplus(p, a, b) >= 0,
        a == 0 ==> surplus(p, a, b) == 0,
        a >= 1 ==> pow(p as int, surplus(p, a, b) as nat) <= a,
    decreases a,
{
    if a == 0 {
    } else {
        let a1 = a / p;
        let b1 = b / p;
        lemma_halves(p, a, b);
        lemma_div_decreases(a as int, p as int);
        lemma_surplus_bound(p, a1, b1);
        lemma_fundamental_div_mod(a as int, p as int);
        lemma_mod_bound(a as int, p as int);
        assert(legendre(p, b) == b1 + legendre(p, b1)) by {
            if b == 0 {
                lemma_basic_div(0, p as int);
            }
        }
        let s1 = surplus(p, a1, b1);
        let s = surplus(p, a, b);
        assert(s == (a1 - 2 * b1) + s1);
        if a1 == 0 {
            lemma_pow0(p as int);
        } else {
            let f = pow(p as int, s1 as nat);
            lemma_pow_positive(p as int, s1 as nat);
            if a1 == 2 * b1 {
                assert(a1 <= a) by (nonlinear_arith)
                    requires
                        a == p * a1 + a % p,
                        a % p >= 0,
                        p >= 2,
                        a1 >= 0,
                ;
            } else {
                lemma_pow_adds(p as int, 1, s1 as nat);
                lemma_pow1(p as int);
                assert(p * f <= a) by (nonlinear_arith)
                    requires
                        a == p * a1 + a % p,
                        a % p >= 0,
                        1 <= f <= a1,
                        p >= 2,
                ;
            }
        }
    }
}

/// A prime whose square exceeds `a` has a surplus of at most one.
proof fn lemma_surplus_at_most_one(p: nat, a: nat, b: nat)
    requires
        p >= 2,
        a == 2 * b || a == 2 * b + 1,
        p * p > a,
    ensures
        surplus(p, a, b) <= 1,
{
    if a > 0 {
        let a1 = a / p;
        let b1 = b / p;
        lemma_halves(p, a, b);
        lemma_fundamental_div_mod(a as int, p as int);
        lemma_mod_bound(a as int, p as int);
        assert(a1 < p) by (nonlinear_arith)
            requires
                a == p * a1 + a % p,
                a % p >= 0,
                p * p > a,
                p >= 2,
                a1 >= 0,
        ;
        lemma_legendre_below(p, a1);
        lemma_surplus_bound(p, a1, b1);
        assert(legendre(p, b) == b1 + legendre(p, b1)) by {
            if b == 0 {
                lemma_basic_div(0, p as int);
            }
        }
    }
}

/// A prime above two thirds of `n` and up to `n` has no surplus: it
/// divides the central coefficient of `n` not at all.
proof fn lemma_surplus_none(p: nat, n: nat)
    requires
        n >= 3,
        p <= n,
        2 * n < 3 * p,
    ensures
        surplus(p, 2 * n, n) == 0,
{
    let pi = p as int;
    lemma_fundamental_div_mod_converse(2 * n as int, pi, 2, 2 * n - 2 * p);
    lemma_legendre_below(p, 2);
    lemma_legendre_once(p, n);
}

/// The exponent of a prime in the central coefficient is its surplus.
proof fn lemma_exponent_in_central(p: nat, n: nat)
    requires
        is_prime(p),
    ensures
        exponent(p, central(n)) == surplus(p, 2 * n, n),
{
    lemma_exponent_in_binomial(p, 2 * n, n);
}

/// A power grows with its base.
proof fn lemma_pow_base_increases(a: nat, b: nat, e: nat)
    requires
        a <= b,
    ensures
        pow(a as int, e) <= pow(b as int, e),
        0 <= pow(a as int, e),
    decreases e,
{
    reveal(pow);
    if e > 0 {
        lemma_pow_base_increases(a, b, (e - 1) as nat);
        let x = pow(a as int, (e - 1) as nat);
        let y = pow(b as int, (e - 1) as nat);
        assert(a * x <= b * y && 0 <= a * x) by (nonlinear_arith)
            requires
                0 <= a <= b,
                0 <= x <= y,
        ;
    }
}

/// The exponent `k` of the power of two at or below `x`.
proof fn lemma_dyadic(x: nat) -> (k: nat)
    requires
        x >= 1,
    ensures
        pow(2, k) <= x < pow(2, k + 1),
    decreases x,
{
    reveal(pow);
    if x == 1 {
        assert(pow(2, 1) == 2 * pow(2, 0));
        0
    } else {
        let k = lemma_dyadic(x / 2);
        assert(pow(2, k + 1) == 2 * pow(2, k));
        assert(pow(2, k + 2) == 2 * pow(2, k + 1));
        k + 1
    }
}

/// Half of `k + 1`, rounded up.
spec fn half_up(k: nat) -> nat {
    (k + 2) / 2
}

/// From thirteen on, a power of two outgrows three times its exponent's
/// successor times the power of two of half the exponent.
proof fn lemma_power_outgrows(k: nat)
    requires
        k >= 13,
    ensures
        3 * (k + 1) * pow(2, half_up(k)) < pow(2, k),
    decreases k,
{
    if k == 13 {
        lemma2_to64();
        lemma_pow2(7);
        lemma_pow2(13);
        assert(half_up(13) == 7);
        assert(3 * (13 + 1) * pow(2, 7) < pow(2, 13));
    } else if k == 14 {
        lemma2_to64();
        lemma_pow2(8);
        lemma_pow2(14);
        assert(half_up(14) == 8);
        assert(3 * (14 + 1) * pow(2, 8) < pow(2, 14));
    } else {
        lemma_power_outgrows((k - 2) as nat);
        reveal(pow);
        let h = half_up((k - 2) as nat);
        assert(half_up(k) == h + 1);
        let t = pow(2, h);
        let w = pow(2, (k - 2) as nat);
        assert(pow(2, h + 1) == 2 * t);
        assert(pow(2, (k - 1) as nat) == 2 * w);
        assert(pow(2, k) == 2 * pow(2, (k - 1) as nat));
        lemma_pow_positive(2, h);
        assert(3 * (k + 1) * (2 * t) < 4 * w) by (nonlinear_arith)
            requires
                3 * (k - 1) * t < w,
                k >= 15,
                t > 0,
        ;
    }
}

/// Without a prime above `n` and up to its double, the central coefficient
/// of `n` is small: its prime powers below `big` are at most `2n` each, and
/// its other prime factors are single and at most two thirds of `n`.
proof fn lemma_central_without_primes(n: nat, big: nat)
    requires
        n >= 3,
        big >= 1,
        big * big > 2 * n,
        big - 1 <= (2 * n) / 3,
        forall|p: nat| n < p <= 2 * n ==> !#[trigger] is_prime(p),
    ensures
        1 <= central(n) <= pow((2 * n) as int, (big - 1) as nat) * pow(4, (2 * n) / 3),
{
    let n2 = 2 * n;
    let t = (big - 1) as nat;
    let third = n2 / 3;
    let c = central(n);
    lemma_binomial_factorials(n2, n);
    // c is the product of its prime powers up to 2n
    assert forall|p: nat| p > n2 && is_prime(p) implies #[trigger] exponent(p, c) == 0 by {
        lemma_exponent_in_central(p, n);
        lemma_legendre_below(p, n2);
        lemma_surplus_bound(p, n2, n);
    }
    lemma_factorization(c, n2);
    lemma_product_split(c, 0, n, n2);
    lemma_product_split(c, 0, third, n);
    lemma_product_split(c, 0, t, third);
    // there is no prime above n
    lemma_product_of_none(c, n, n2);
    // the primes of the upper third do not divide c
    assert forall|p: nat| third < p <= n && is_prime(p) implies #[trigger] exponent(p, c)
        == 0 by {
        lemma_exponent_in_central(p, n);
        lemma_surplus_none(p, n);
    }
    lemma_product_of_none(c, third, n);
    // the primes from big on divide c at most once
    assert forall|p: nat| t < p <= third && is_prime(p) implies #[trigger] exponent(p, c)
        <= 1 by {
        lemma_exponent_in_central(p, n);
        assert(p * p >= big * big) by (nonlinear_arith)
            requires
                p >= big,
                big > 0,
        ;
        lemma_surplus_at_most_one(p, n2, n);
    }
    lemma_product_at_most_primorial(c, t, third);
    lemma_primorial_split(0, t, third);
    lemma_primorial_positive(0, t);
    lemma_primorial_positive(t, third);
    lemma_primorial_bound(third);
    let middle = prime_power_product(c, t, third);
    assert(middle <= pow(4, third)) by (nonlinear_arith)
        requires
            middle <= primorial(t, third),
            primorial(0, third) == primorial(0, t) * primorial(t, third),
            primorial(0, t) >= 1,
            primorial(t, third) >= 1,
            primorial(0, third) <= pow(4, third),
    ;
    // each power of a prime below big is at most 2n
    assert forall|p: nat| 0 < p <= t && is_prime(p) implies pow(
        p as int,
        #[trigger] exponent(p, c),
    ) <= n2 by {
        lemma_exponent_in_central(p, n);
        lemma_surplus_bound(p, n2, n);
    }
    lemma_product_at_most_power(c, 0, t, n2);
    let small = prime_power_product(c, 0, t);
    lemma_product_positive(c, 0, t);
    lemma_product_positive(c, t, third);
    let cap = pow(n2 as int, t);
    let quarter = pow(4, third);
    assert(c <= cap * quarter) by (nonlinear_arith)
        requires
            c == ((small * middle) * 1) * 1,
            1 <= small <= cap,
            1 <= middle <= quarter,
    ;
}

/// From 4096 on there is a prime from a number up to its double: without
/// one, the central binomial coefficient would be smaller than it is.
proof fn lemma_prime_within_double_large(n: nat)
    requires
        n >= 4096,
    ensures
        prime_within(n, 2 * n),
{
    if !prime_within(n, 2 * n) {
        assert forall|p: nat| n < p <= 2 * n implies !#[trigger] is_prime(p) by {}
        let n2 = 2 * n;
        let k = lemma_dyadic(n2);
        assert(k >= 13) by {
            if k < 13 {
                lemma_pow_increases(2, k + 1, 13);
                lemma2_to64();
                lemma_pow2(13);
            }
        }
        let h = half_up(k);
        let big = pow(2, h) as nat;
        let t = (big - 1) as nat;
        let third = n2 / 3;
        lemma_pow_positive(2, h);
        lemma_power_outgrows(k);
        assert(big * big > n2) by {
            lemma_pow_adds(2, h, h);
            lemma_pow_increases(2, k + 1, h + h);
        }
        assert(t <= third) by {
            assert(3 * big <= pow(2, k)) by (nonlinear_arith)
                requires
                    3 * (k + 1) * big < pow(2, k),
                    big > 0,
                    k >= 13,
            ;
        }
        // the central coefficient is small
        let c = central(n);
        lemma_central_without_primes(n, big);
        let cap = pow(n2 as int, t);
        let quarter = pow(4, third);
        // but it is large
        lemma_central_lower(n);
        let whole = pow(4, n);
        let rest = pow(4, (n - third) as nat);
        lemma_pow_adds(4, third, (n - third) as nat);
        lemma_pow_positive(4, third);
        reveal(pow);
        assert(pow(n2 as int, t + 1) == n2 * cap);
        assert(n2 * c <= n2 * (cap * quarter)) by (nonlinear_arith)
            requires
                c <= cap * quarter,
                n2 >= 0,
        ;
        assert(n2 * (cap * quarter) == (n2 * cap) * quarter) by (nonlinear_arith);
        assert(quarter * rest == rest * quarter) by (nonlinear_arith);
        lemma_mul_inequality_converse(rest, n2 * cap, quarter);
        // in powers of two
        lemma_pow_base_increases(n2, pow(2, k + 1) as nat, t + 1);
        lemma_pow_multiplies(2, k + 1, t + 1);
        lemma_pow_multiplies(2, 2, (n - third) as nat);
        assert(pow(2, 2) == 4) by {
            lemma2_to64();
            lemma_pow2(2);
        }
        lemma_pow_increases_converse(2, 2 * ((n - third) as nat), (k + 1) * (t + 1));
        // which the growth of the power of two forbids
        assert(false) by (nonlinear_arith)
            requires
                2 * (n - third) <= (k + 1) * (t + 1),
                t + 1 == big,
                3 * third <= n2,
                n2 == 2 * n,
                pow(2, k) <= n2,
                3 * (k + 1) * big < pow(2, k),
        ;
    }
}

/// Bertrand's postulate: from every number on, up to its double, there is
/// a prime.
pub proof fn lemma_prime_within_double(n: nat)
    requires
        n >= 1,
    ensures
        prime_within(n, 2 * n),
{
    if n <= 5000 {
        lemma_prime_within_double_small(n);
    } else {
        lemma_prime_within_double_large(n);
    }
}

} // verus!

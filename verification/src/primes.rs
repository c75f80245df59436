//! Prime numbers: what the size of the table must be.
use vstd::arithmetic::div_mod::*;
use vstd::prelude::*;

verus! {

/// `d` divides `n`.
pub open spec fn divides(d: nat, n: nat) -> bool {
    d != 0 && n % d == 0
}

/// `n` has no divisor other than 1 and itself, and is at least 2.
pub open spec fn is_prime(n: nat) -> bool {
    n >= 2 && forall|d: nat| 2 <= d < n ==> !#[trigger] divides(d, n)
}

/// `p` is the least prime that is not below `from`.
pub open spec fn is_least_prime_from(p: nat, from: nat) -> bool {
    &&& from <= p
    &&& is_prime(p)
    &&& forall|q: nat| from <= q < p ==> !#[trigger] is_prime(q)
}

/// Some prime lies in the closed interval from `lo` to `hi`.
pub open spec fn prime_within(lo: nat, hi: nat) -> bool {
    exists|p: nat| lo <= p <= hi && #[trigger] is_prime(p)
}

/// The least prime from a number on is unique.
pub proof fn lemma_least_prime_unique(p: nat, q: nat, from: nat)
    requires
        is_least_prime_from(p, from),
        is_least_prime_from(q, from),
    ensures
        p == q,
{
    if p < q {
        assert(!is_prime(p));
    } else if q < p {
        assert(!is_prime(q));
    }
}

/// Integers `a`, `b` and a common divisor `g` of `x` and `y` with
/// `a * x + b * y == g`.
pub proof fn lemma_bezout(x: nat, y: nat) -> (r: (int, int, nat))
    requires
        x > 0 || y > 0,
    ensures
        r.0 * x + r.1 * y == r.2,
        r.2 > 0,
        x % r.2 == 0,
        y % r.2 == 0,
    decreases y,
{
    if y == 0 {
        lemma_mod_self_0(x as int);
        lemma_small_mod(0, x);
        (1, 0, x)
    } else {
        let rem = x % y;
        let quot = x / y;
        lemma_mod_bound(x as int, y as int);
        let (a, b, g) = lemma_bezout(y, rem);
        lemma_fundamental_div_mod(x as int, y as int);
        lemma_fundamental_div_mod(y as int, g as int);
        lemma_fundamental_div_mod(rem as int, g as int);
        let u = (y as int) / (g as int);
        let v = (rem as int) / (g as int);
        assert(x == g * (u * quot + v)) by (nonlinear_arith)
            requires
                x == y * quot + rem,
                y == g * u,
                rem == g * v,
        ;
        lemma_mod_multiples_basic(u * quot + v, g as int);
        assert((u * quot + v) * g == g * (u * quot + v)) by (nonlinear_arith);
        assert(b * x + (a - b * quot) * y == g) by (nonlinear_arith)
            requires
                a * y + b * rem == g,
                x == y * quot + rem,
        ;
        (b, a - b * quot, g)
    }
}

/// A prime modulus gives every nonzero residue an inverse: some `a` below
/// `m` with `a * s` congruent to 1.
pub proof fn lemma_inverse_mod_prime(s: nat, m: nat) -> (a: nat)
    requires
        is_prime(m),
        0 < s < m,
    ensures
        a < m,
        (a * s) % m == 1,
{
    let (x, y, g) = lemma_bezout(s, m);
    assert(g <= s) by {
        if g > s {
            lemma_small_mod(s, g);
        }
    }
    assert(g == 1) by {
        if g >= 2 {
            assert(divides(g, m));
        }
    }
    lemma_mod_multiples_vanish(y, x * s, m as int);
    assert(m * y + x * s == 1) by (nonlinear_arith)
        requires
            x * s + y * m == 1,
    ;
    lemma_small_mod(1, m);
    lemma_mul_mod_noop_left(x, s as int, m as int);
    lemma_mod_bound(x, m as int);
    (x % (m as int)) as nat
}

/// A prime that divides a product divides one of its factors.
pub proof fn lemma_prime_divides_factor(p: nat, a: nat, b: nat)
    requires
        is_prime(p),
        (a * b) % p == 0,
    ensures
        a % p == 0 || b % p == 0,
{
    let pi = p as int;
    let s = a % p;
    lemma_mod_bound(a as int, pi);
    if s != 0 {
        let x = lemma_inverse_mod_prime(s, p);
        // x * a is congruent to 1, so b is congruent to x * (a * b)
        lemma_mul_mod_noop_right(x as int, a as int, pi);
        lemma_mul_mod_noop_left((x * a) as int, b as int, pi);
        lemma_small_mod(1, p);
        assert((x * a) * b == x * (a * b)) by (nonlinear_arith);
        lemma_mul_mod_noop_right(x as int, (a * b) as int, pi);
        assert(x * 0 == 0);
        lemma_small_mod(0, p);
        assert(1 * (b as int) == b);
        lemma_mod_twice(b as int, pi);
    }
}

/// Every number from two on has a prime divisor.
pub proof fn lemma_prime_divisor(n: nat) -> (p: nat)
    requires
        n >= 2,
    ensures
        is_prime(p),
        p <= n,
        n % p == 0,
    decreases n,
{
    if is_prime(n) {
        lemma_mod_self_0(n as int);
        n
    } else {
        let d = choose|d: nat| 2 <= d < n && #[trigger] divides(d, n);
        let p = lemma_prime_divisor(d);
        lemma_fundamental_div_mod(n as int, d as int);
        lemma_fundamental_div_mod(d as int, p as int);
        let u = (n as int) / (d as int);
        let v = (d as int) / (p as int);
        assert(n == (v * u) * p) by (nonlinear_arith)
            requires
                n == d * u,
                d == p * v,
        ;
        lemma_mod_multiples_basic(v * u, p as int);
        p
    }
}

/// No number from `d` on whose square is at most `n` divides `n`.
pub open spec fn no_divisor_from(n: nat, d: nat) -> bool
    decreases n - d,
{
    if d >= n || d * d > n {
        true
    } else {
        n % d != 0 && no_divisor_from(n, d + 1)
    }
}

proof fn lemma_no_divisor_from(n: nat, from: nat, d: nat)
    requires
        no_divisor_from(n, from),
        2 <= from <= d,
        d * d <= n,
    ensures
        n % d != 0,
    decreases d - from,
{
    assert(from * from <= d * d && from < d * d) by (nonlinear_arith)
        requires
            2 <= from <= d,
    ;
    if from < d {
        lemma_no_divisor_from(n, from + 1, d);
    }
}

/// Trial division up to the square root settles primality.
pub proof fn lemma_prime_by_trial(n: nat)
    requires
        n >= 2,
        no_divisor_from(n, 2),
    ensures
        is_prime(n),
{
    assert forall|d: nat| 2 <= d < n implies !#[trigger] divides(d, n) by {
        if n % d == 0 {
            lemma_fundamental_div_mod(n as int, d as int);
            let e = n / d;
            assert(n == d * e);
            assert(e >= 2 && e < n) by (nonlinear_arith)
                requires
                    n == d * e,
                    2 <= d < n,
            ;
            if d * d <= n {
                lemma_no_divisor_from(n, 2, d);
            } else {
                assert(e * e <= n) by (nonlinear_arith)
                    requires
                        n == d * e,
                        d * d > n,
                        d >= 2,
                        e >= 2,
                ;
                assert(n == e * d) by (nonlinear_arith)
                    requires
                        n == d * e,
                ;
                lemma_mod_multiples_basic(d as int, e as int);
                lemma_no_divisor_from(n, 2, e);
            }
        }
    }
}

} // verus!

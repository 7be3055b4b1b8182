//! Divisibility and primality over the natural numbers, with the lemmas the
//! factorization routines rest on.

use vstd::prelude::*;
use vstd::arithmetic::power::pow;

verus! {

/// `d` divides `n`. Zero divides nothing.
pub open spec fn divides(d: nat, n: nat) -> bool {
    d != 0 && n % d == 0
}

/// `p` is a prime number.
pub open spec fn prime(p: nat) -> bool {
    p >= 2 && forall|d: nat| 2 <= d < p ==> !#[trigger] divides(d, p)
}

/// A multiple of `d` is divisible by `d`, and dividing it by `d` gives the cofactor back.
pub proof fn lemma_multiple(d: nat, k: nat)
    requires
        d > 0,
    ensures
        divides(d, d * k),
        (d * k) / d == k,
        divides(d, k * d),
        (k * d) / d == k,
{
    assert(d * k == k * d) by (nonlinear_arith);
    vstd::arithmetic::div_mod::lemma_fundamental_div_mod_converse(
        (d * k) as int,
        d as int,
        k as int,
        0,
    );
}

/// A number is its divisor times the quotient.
pub proof fn lemma_quotient(d: nat, n: nat)
    requires
        divides(d, n),
    ensures
        n == d * (n / d),
        n == (n / d) * d,
        n > 0 ==> 1 <= n / d && d <= n,
{
    vstd::arithmetic::div_mod::lemma_fundamental_div_mod(n as int, d as int);
    let q = n / d;
    assert(d * q == q * d) by (nonlinear_arith);
    if n > 0 {
        assert(q >= 1 && d <= n) by (nonlinear_arith)
            requires
                n == d * q,
                n > 0,
                d > 0,
        ;
    }
}

/// Divisibility is transitive.
pub proof fn lemma_divides_trans(a: nat, b: nat, c: nat)
    requires
        divides(a, b),
        divides(b, c),
    ensures
        divides(a, c),
{
    lemma_quotient(a, b);
    lemma_quotient(b, c);
    let x = b / a;
    let y = c / b;
    assert(c == a * (x * y)) by (nonlinear_arith)
        requires
            b == a * x,
            c == b * y,
    ;
    lemma_multiple(a, x * y);
}

/// A divisor of a factor divides the product.
pub proof fn lemma_divides_product(d: nat, a: nat, b: nat)
    requires
        divides(d, a),
    ensures
        divides(d, a * b),
        divides(d, b * a),
{
    lemma_quotient(d, a);
    let x = a / d;
    assert(a * b == d * (x * b) && b * a == a * b) by (nonlinear_arith)
        requires
            a == d * x,
    ;
    lemma_multiple(d, x * b);
}

/// A common factor can be cancelled from a divisibility.
pub proof fn lemma_divides_cancel(c: nat, a: nat, b: nat)
    requires
        c > 0,
        divides(c * a, c * b),
    ensures
        divides(a, b),
{
    lemma_quotient(c * a, c * b);
    let q = (c * b) / (c * a);
    assert(a > 0) by (nonlinear_arith)
        requires
            c * a != 0,
    ;
    assert(b == a * q) by (nonlinear_arith)
        requires
            c * b == (c * a) * q,
            c > 0,
    ;
    lemma_multiple(a, q);
}

/// The difference of two multiples of `d` is a multiple of `d`.
pub proof fn lemma_divides_difference(d: nat, a: nat, b: nat)
    requires
        divides(d, a),
        divides(d, b),
        b <= a,
    ensures
        divides(d, (a - b) as nat),
{
    lemma_quotient(d, a);
    lemma_quotient(d, b);
    let x = a / d;
    let y = b / d;
    assert(x >= y && a - b == d * (x - y)) by (nonlinear_arith)
        requires
            a == d * x,
            b == d * y,
            b <= a,
            d > 0,
    ;
    lemma_multiple(d, (x - y) as nat);
}

/// Euclid's lemma: a prime that divides a product divides one of its factors.
pub proof fn lemma_euclid(p: nat, a: nat, b: nat)
    requires
        prime(p),
        divides(p, a * b),
    ensures
        divides(p, a) || divides(p, b),
    decreases b,
{
    if divides(p, a) {
    } else if b == 0 {
    } else if b >= p {
        // a * (b - p) is still a multiple of p
        let c = (b - p) as nat;
        lemma_multiple(p, a);
        assert(a * b - p * a == a * c && p * a <= a * b) by (nonlinear_arith)
            requires
                c == b - p,
                b >= p,
        ;
        lemma_divides_difference(p, a * b, p * a);
        lemma_euclid(p, a, c);
        if divides(p, c) {
            lemma_quotient(p, c);
            let y = c / p;
            assert(b == p * (y + 1)) by (nonlinear_arith)
                requires
                    c == p * y,
                    c == b - p,
            ;
            lemma_multiple(p, y + 1);
        }
    } else {
        // 0 < b < p: write p = q * b + r and descend to r
        let q = p / b;
        let r = p % b;
        vstd::arithmetic::div_mod::lemma_fundamental_div_mod(p as int, b as int);
        lemma_multiple(p, a);
        lemma_divides_product(p, a * b, q);
        assert(p * a - (a * b) * q == a * r && (a * b) * q <= p * a) by (nonlinear_arith)
            requires
                p == b * q + r,
        ;
        lemma_divides_difference(p, p * a, (a * b) * q);
        lemma_euclid(p, a, r);
        // p cannot divide r < p unless r == 0
        if r != 0 {
            lemma_quotient(p, r);
            assert(false);
        }
        // so b divides p, and b < p forces b == 1
        assert(divides(b, p));
        if b >= 2 {
            assert(false);
        }
        assert(a * b == a) by (nonlinear_arith)
            requires
                b == 1,
        ;
    }
}

/// What is coprime to a prime can be cancelled: if `x` divides `y * p` and the
/// prime `p` does not divide `x`, then `x` divides `y`.
pub proof fn lemma_coprime_cancel(p: nat, x: nat, y: nat)
    requires
        prime(p),
        !divides(p, x),
        divides(x, y * p),
    ensures
        divides(x, y),
{
    lemma_quotient(x, y * p);
    let c = (y * p) / x;
    lemma_multiple(p, y);
    assert(divides(p, x * c));
    lemma_euclid(p, x, c);
    lemma_quotient(p, c);
    let e = c / p;
    assert(y == x * e) by (nonlinear_arith)
        requires
            y * p == x * c,
            c == p * e,
            p > 0,
    ;
    lemma_multiple(x, e);
}

/// A power of a positive base is positive, and one more factor multiplies it by the base.
pub proof fn lemma_pow_step(b: nat, e: nat)
    requires
        b > 0,
    ensures
        pow(b as int, e) > 0,
        pow(b as int, e + 1) == pow(b as int, e) * b,
        pow(b as int, e + 1) == b * pow(b as int, e),
{
    vstd::arithmetic::power::lemma_pow_positive(b as int, e);
    reveal(pow);
    assert(pow(b as int, e) * b == b * pow(b as int, e)) by (nonlinear_arith);
}

/// A prime that divides a power of `q` divides `q`.
pub proof fn lemma_prime_divides_pow(p: nat, q: nat, e: nat)
    requires
        prime(p),
        q > 0,
        divides(p, pow(q as int, e) as nat),
    ensures
        divides(p, q),
    decreases e,
{
    reveal(pow);
    if e == 0 {
        lemma_quotient(p, 1);
    } else {
        lemma_pow_step(q, (e - 1) as nat);
        let rest = pow(q as int, (e - 1) as nat) as nat;
        assert(pow(q as int, e) as nat == rest * q);
        lemma_euclid(p, rest, q);
        if !divides(p, q) {
            lemma_prime_divides_pow(p, q, (e - 1) as nat);
        }
    }
}

/// Every divisor of `n * p^m`, where the prime `p` does not divide `n`, splits
/// into a divisor `d` of `n` and a power `p^k` with `k <= m`.
pub proof fn lemma_split_divisor(p: nat, n: nat, m: nat, x: nat) -> (r: (nat, nat))
    requires
        prime(p),
        n > 0,
        !divides(p, n),
        divides(x, n * pow(p as int, m) as nat),
    ensures
        r.1 <= m,
        divides(r.0, n),
        x == r.0 * pow(p as int, r.1),
    decreases m,
{
    reveal(pow);
    if m == 0 {
        assert(n * pow(p as int, 0) as nat == n) by (nonlinear_arith)
            requires
                pow(p as int, 0) == 1,
        ;
        assert(x * 1 == x) by (nonlinear_arith);
        (x, 0)
    } else {
        let m1 = (m - 1) as nat;
        lemma_pow_step(p, m1);
        let lower = pow(p as int, m1) as nat;
        assert(n * pow(p as int, m) as nat == (n * lower) * p) by (nonlinear_arith)
            requires
                pow(p as int, m) == lower * p,
                lower > 0,
        ;
        if divides(p, x) {
            lemma_quotient(p, x);
            let x1 = x / p;
            assert((n * lower) * p == p * (n * lower)) by (nonlinear_arith);
            lemma_divides_cancel(p, x1, n * lower);
            let (d, k) = lemma_split_divisor(p, n, m1, x1);
            lemma_pow_step(p, k);
            assert(x == d * pow(p as int, k + 1)) by (nonlinear_arith)
                requires
                    x == p * x1,
                    x1 == d * pow(p as int, k),
                    pow(p as int, k + 1) == p * pow(p as int, k),
            ;
            (d, k + 1)
        } else {
            lemma_coprime_cancel(p, x, n * lower);
            lemma_split_divisor(p, n, m1, x)
        }
    }
}

/// The splitting of `lemma_split_divisor` is unique.
pub proof fn lemma_split_unique(p: nat, n: nat, d1: nat, k1: nat, d2: nat, k2: nat)
    requires
        prime(p),
        !divides(p, n),
        divides(d1, n),
        divides(d2, n),
        d1 * pow(p as int, k1) == d2 * pow(p as int, k2),
    ensures
        d1 == d2,
        k1 == k2,
    decreases k1 + k2,
{
    reveal(pow);
    if k1 == 0 && k2 == 0 {
        assert(d1 * 1 == d1 && d2 * 1 == d2) by (nonlinear_arith);
    } else if k1 == 0 || k2 == 0 {
        // one side carries a factor p, so p would divide a divisor of n
        let (da, db, kb) = if k1 == 0 {
            (d1, d2, k2)
        } else {
            (d2, d1, k1)
        };
        let kb1 = (kb - 1) as nat;
        lemma_pow_step(p, kb1);
        let lower = pow(p as int, kb1) as nat;
        assert(da == p * (db * lower)) by (nonlinear_arith)
            requires
                da * 1 == db * pow(p as int, kb),
                pow(p as int, kb) == p * lower,
                lower > 0,
        ;
        lemma_multiple(p, db * lower);
        lemma_divides_trans(p, da, n);
    } else {
        let j1 = (k1 - 1) as nat;
        let j2 = (k2 - 1) as nat;
        lemma_pow_step(p, j1);
        lemma_pow_step(p, j2);
        assert(d1 * pow(p as int, j1) == d2 * pow(p as int, j2)) by (nonlinear_arith)
            requires
                d1 * pow(p as int, k1) == d2 * pow(p as int, k2),
                pow(p as int, k1) == p * pow(p as int, j1),
                pow(p as int, k2) == p * pow(p as int, j2),
                p > 0,
        ;
        lemma_split_unique(p, n, d1, j1, d2, j2);
    }
}

/// A divisor of `n` times a power `p^k` with `k <= m` divides `n * p^m`.
pub proof fn lemma_join_divisor(p: nat, n: nat, m: nat, d: nat, k: nat)
    requires
        p > 0,
        divides(d, n),
        k <= m,
    ensures
        pow(p as int, k) > 0,
        pow(p as int, m) > 0,
        divides((d * pow(p as int, k)) as nat, (n * pow(p as int, m)) as nat),
{
    vstd::arithmetic::power::lemma_pow_positive(p as int, k);
    vstd::arithmetic::power::lemma_pow_positive(p as int, m);
    vstd::arithmetic::power::lemma_pow_positive(p as int, (m - k) as nat);
    vstd::arithmetic::power::lemma_pow_adds(p as int, k, (m - k) as nat);
    lemma_quotient(d, n);
    let c = n / d;
    let pk = pow(p as int, k);
    let pr = pow(p as int, (m - k) as nat);
    assert(n * pow(p as int, m) == (d * pk) * (c * pr) && d * pk > 0 && c * pr >= 0)
        by (nonlinear_arith)
        requires
            n == d * c,
            pow(p as int, m) == pk * pr,
            d > 0,
            pk > 0,
            pr > 0,
    ;
    lemma_multiple((d * pk) as nat, (c * pr) as nat);
}

} // verus!

//! Greatest common divisors, a primality test and the primes of a residue class.

use vstd::prelude::*;
use crate::number_theory::{divides, prime, lemma_divides_difference, lemma_divides_product, lemma_multiple, lemma_quotient};

verus! {

/// The greatest common divisor of `a` and `b`; `gcd(0, 0)` is 0.
pub open spec fn gcd(a: nat, b: nat) -> nat
    decreases b,
{
    if b == 0 {
        a
    } else {
        gcd(b, a % b)
    }
}

/// A common divisor of `a` and `b` divides the remainder of `a` by `b`, and a
/// common divisor of `b` and that remainder divides `a`.
proof fn lemma_divides_remainder(d: nat, a: nat, b: nat)
    requires
        b > 0,
        divides(d, b),
    ensures
        divides(d, a) <==> divides(d, a % b),
{
    let q = a / b;
    let r = a % b;
    vstd::arithmetic::div_mod::lemma_fundamental_div_mod(a as int, b as int);
    lemma_divides_product(d, b, q);
    assert(b * q >= 0) by (nonlinear_arith)
        requires
            b >= 0,
            q >= 0,
    ;
    if divides(d, a) {
        lemma_divides_difference(d, a, b * q);
    }
    if divides(d, r) {
        lemma_quotient(d, r);
        lemma_quotient(d, b * q);
        let x = r / d;
        let y = (b * q) / d;
        assert(a == d * (x + y)) by (nonlinear_arith)
            requires
                a == b * q + r,
                r == d * x,
                b * q == d * y,
        ;
        lemma_multiple(d, x + y);
    }
}

/// `gcd(a, b)` divides `a` and `b`, and every common divisor divides it.
pub proof fn lemma_gcd(a: nat, b: nat)
    requires
        a > 0 || b > 0,
    ensures
        gcd(a, b) > 0,
        divides(gcd(a, b), a),
        divides(gcd(a, b), b),
        forall|d: nat| divides(d, a) && divides(d, b) ==> #[trigger] divides(d, gcd(a, b)),
    decreases b,
{
    if b == 0 {
        lemma_multiple(a, 1);
        assert(a * 1 == a) by (nonlinear_arith);
        lemma_multiple(a, 0);
        assert(a * 0 == 0) by (nonlinear_arith);
    } else {
        lemma_gcd(b, a % b);
        let g = gcd(a, b);
        lemma_divides_remainder(g, a, b);
        assert forall|d: nat| divides(d, a) && divides(d, b) implies #[trigger] divides(d, g) by {
            lemma_divides_remainder(d, a, b);
        }
    }
}

/// `x` with its sign turned if `flip` is set.
pub open spec fn turn(flip: bool, x: int) -> int {
    if flip {
        -x
    } else {
        x
    }
}

/// The absolute value of `x`.
pub open spec fn abs(x: int) -> nat {
    if x < 0 {
        (-x) as nat
    } else {
        x as nat
    }
}

/// The quotient of a division that rounds towards zero.
pub open spec fn truncated_quotient(x: int, y: int) -> int {
    if x >= 0 {
        x / y
    } else {
        -((-x) / y)
    }
}

/// A quotient rounded towards zero is the quotient of the absolute values
/// with the sign of the product, and leaves a remainder with the sign of the
/// dividend.
proof fn lemma_truncated_quotient(x: int, y: int, sx: bool, sy: bool)
    requires
        turn(sx, x) >= 0,
        turn(sy, y) > 0,
    ensures
        turn(sx != sy, truncated_quotient(x, y)) == turn(sx, x) / turn(sy, y),
        turn(sx, x - truncated_quotient(x, y) * y) == turn(sx, x) % turn(sy, y),
{
    let p = turn(sx, x);
    let d = turn(sy, y);
    vstd::arithmetic::div_mod::lemma_fundamental_div_mod(p, d);
    vstd::arithmetic::div_mod::lemma_mod_bound(p, d);
    let k = p / d;
    let r = p % d;
    if y < 0 {
        assert(p / y == -k) by (nonlinear_arith)
            requires
                p == d * k + r,
                0 <= r < d,
                d == -y,
        ;
    }
    if x == 0 {
        assert(0int / y == 0) by (nonlinear_arith)
            requires
                y != 0,
        ;
    }
    let q = truncated_quotient(x, y);
    assert(turn(sx != sy, q) == k);
    assert(turn(sx, x - q * y) == r) by (nonlinear_arith)
        requires
            p == d * k + r,
            p == turn(sx, x),
            d == turn(sy, y),
            k == turn(sx != sy, q),
    ;
}

/// One step of the extended Euclidean algorithm keeps what the algorithm
/// maintains: the combinations of `a` and `b`, which of the numbers at hand
/// are negative, and the two products that bound the coefficients.
proof fn lemma_euclid_step(
    a: int,
    b: int,
    p: Seq<int>,
    c: Seq<int>,
    sp: Seq<bool>,
    sc: Seq<bool>,
    q: int,
)
    requires
        p.len() == 3 && c.len() == 3 && sp.len() == 3 && sc.len() == 3,
        c[0] != 0,
        q == truncated_quotient(p[0], c[0]),
        p[0] == a * p[1] + b * p[2],
        c[0] == a * c[1] + b * c[2],
        forall|i: int| 0 <= i < 3 ==> turn(sp[i], #[trigger] p[i]) >= 0 && turn(sc[i], c[i]) >= 0,
        (sp[1] != sc[1]) != (sp[0] != sc[0]),
        (sp[2] != sc[2]) != (sp[0] != sc[0]),
        turn(sp[0], p[0]) * turn(sc[1], c[1]) + turn(sc[0], c[0]) * turn(sp[1], p[1]) == abs(b),
        turn(sp[0], p[0]) * turn(sc[2], c[2]) + turn(sc[0], c[0]) * turn(sp[2], p[2]) == abs(a),
    ensures
        turn(sp[0], q * c[0]) >= 0,
        turn(sp[0], q * c[0]) <= turn(sp[0], p[0]),
        turn(sp[0], p[0] - q * c[0]) == turn(sp[0], p[0]) % turn(sc[0], c[0]),
        p[0] - q * c[0] == a * (p[1] - q * c[1]) + b * (p[2] - q * c[2]),
        turn(sp[1], p[1] - q * c[1]) >= 0,
        turn(sp[2], p[2] - q * c[2]) >= 0,
        turn(sc[0], c[0]) * turn(sp[1], p[1] - q * c[1]) + turn(sp[0], p[0] - q * c[0]) * turn(
            sc[1],
            c[1],
        ) == abs(b),
        turn(sc[0], c[0]) * turn(sp[2], p[2] - q * c[2]) + turn(sp[0], p[0] - q * c[0]) * turn(
            sc[2],
            c[2],
        ) == abs(a),
        turn(sp[1], p[1] - q * c[1]) <= abs(b),
        turn(sp[2], p[2] - q * c[2]) <= abs(a),
        0 <= turn(!sp[1], q * c[1]) <= abs(b),
        0 <= turn(!sp[2], q * c[2]) <= abs(a),
{
    let p0 = turn(sp[0], p[0]);
    let c0 = turn(sc[0], c[0]);
    assert(turn(sp[0], p[0]) >= 0 && turn(sc[0], c[0]) >= 0);
    assert(turn(sp[1], p[1]) >= 0 && turn(sc[1], c[1]) >= 0);
    assert(turn(sp[2], p[2]) >= 0 && turn(sc[2], c[2]) >= 0);
    lemma_truncated_quotient(p[0], c[0], sp[0], sc[0]);
    vstd::arithmetic::div_mod::lemma_fundamental_div_mod(p0, c0);
    vstd::arithmetic::div_mod::lemma_mod_bound(p0, c0);
    let k = p0 / c0;
    let r = p0 % c0;
    assert(k >= 0 && 0 <= k * c0 <= p0) by (nonlinear_arith)
        requires
            p0 == c0 * k + r,
            0 <= r < c0,
            p0 >= 0,
    ;
    let x = turn(sp[1], p[1]);
    let y = turn(sc[1], c[1]);
    let u = turn(sp[2], p[2]);
    let v = turn(sc[2], c[2]);
    // the products of q with the numbers of `c`, by their absolute values
    assert(turn(sp[0], q * c[0]) == k * c0 && turn(!sp[1], q * c[1]) == k * y && turn(
        !sp[2],
        q * c[2],
    ) == k * v) by (nonlinear_arith)
        requires
            k == turn(sp[0] != sc[0], q),
            c0 == turn(sc[0], c[0]),
            y == turn(sc[1], c[1]),
            v == turn(sc[2], c[2]),
            (sp[1] != sc[1]) != (sp[0] != sc[0]),
            (sp[2] != sc[2]) != (sp[0] != sc[0]),
    ;
    assert(turn(sp[1], p[1] - q * c[1]) == x + k * y);
    assert(turn(sp[2], p[2] - q * c[2]) == u + k * v);
    assert(c0 * (x + k * y) + r * y == abs(b) && k * y >= 0 && x + k * y <= abs(b) && k * y <= abs(b))
        by (nonlinear_arith)
        requires
            p0 * y + c0 * x == abs(b),
            p0 == c0 * k + r,
            x >= 0,
            y >= 0,
            k >= 0,
            r >= 0,
            c0 > 0,
    ;
    assert(c0 * (u + k * v) + r * v == abs(a) && k * v >= 0 && u + k * v <= abs(a) && k * v <= abs(a))
        by (nonlinear_arith)
        requires
            p0 * v + c0 * u == abs(a),
            p0 == c0 * k + r,
            u >= 0,
            v >= 0,
            k >= 0,
            r >= 0,
            c0 > 0,
    ;
    let (pa, pb, pc) = (p[0], p[1], p[2]);
    let (ca, cb, cc) = (c[0], c[1], c[2]);
    assert(pa - q * ca == a * (pb - q * cb) + b * (pc - q * cc)) by (nonlinear_arith)
        requires
            pa == a * pb + b * pc,
            ca == a * cb + b * cc,
    ;
}

/// Runs the extended Euclidean algorithm with divisions that round towards
/// zero, and returns `[g, x, y]`: a greatest common divisor `g` of `a` and
/// `b`, which is negative only if one of them is, and coefficients with
/// `a * x + b * y == g`.
pub fn ext_euclid(a: i64, b: i64) -> (r: [i64; 3])
    requires
        a > i64::MIN,
        b > i64::MIN,
    ensures
        abs(r[0] as int) == gcd(abs(a as int), abs(b as int)),
        a * r[1] + b * r[2] == r[0],
        a >= 0 && b >= 0 ==> r[0] >= 0,
        a < 0 && b < 0 ==> r[0] <= 0,
        abs(r[1] as int) <= abs(b as int) || abs(r[1] as int) <= 1,
        abs(r[2] as int) <= abs(a as int) || abs(r[2] as int) <= 1,
{
    let mut prev: [i64; 3] = [a, 1, 0];
    let mut curr: [i64; 3] = [b, 0, 1];
    let ghost na = a < 0;
    let ghost nb = b < 0;
    let ghost mut sp: Seq<bool> = seq![na, false, na == nb];
    let ghost mut sc: Seq<bool> = seq![nb, na == nb, false];
    proof {
        assert(a * 1 + b * 0 == a && a * 0 + b * 1 == b) by (nonlinear_arith);
        assert(abs(a as int) * 0 + abs(b as int) * 1 == abs(b as int) && abs(a as int) * 1 + abs(
            b as int,
        ) * 0 == abs(a as int)) by (nonlinear_arith);
    }
    while curr[0] != 0
        invariant
            a > i64::MIN,
            b > i64::MIN,
            sp.len() == 3 && sc.len() == 3,
            sp[0] == (a < 0) || sp[0] == (b < 0),
            sc[0] == (a < 0) || sc[0] == (b < 0),
            forall|i: int|
                0 <= i < 3 ==> turn(sp[i], #[trigger] prev[i] as int) >= 0 && turn(
                    sc[i],
                    curr[i] as int,
                ) >= 0,
            turn(sp[0], prev[0] as int) <= i64::MAX,
            turn(sc[0], curr[0] as int) <= i64::MAX,
            gcd(abs(prev[0] as int), abs(curr[0] as int)) == gcd(abs(a as int), abs(b as int)),
            prev[0] == a * prev[1] + b * prev[2],
            curr[0] == a * curr[1] + b * curr[2],
            (sp[1] != sc[1]) != (sp[0] != sc[0]),
            (sp[2] != sc[2]) != (sp[0] != sc[0]),
            turn(sp[0], prev[0] as int) * turn(sc[1], curr[1] as int) + turn(sc[0], curr[0] as int)
                * turn(sp[1], prev[1] as int) == abs(b as int),
            turn(sp[0], prev[0] as int) * turn(sc[2], curr[2] as int) + turn(sc[0], curr[0] as int)
                * turn(sp[2], prev[2] as int) == abs(a as int),
            turn(sp[1], prev[1] as int) <= abs(b as int) || turn(sp[1], prev[1] as int) <= 1,
            turn(sp[2], prev[2] as int) <= abs(a as int) || turn(sp[2], prev[2] as int) <= 1,
            turn(sc[1], curr[1] as int) <= abs(b as int) || turn(sc[1], curr[1] as int) <= 1,
            turn(sc[2], curr[2] as int) <= abs(a as int) || turn(sc[2], curr[2] as int) <= 1,
        decreases abs(curr[0] as int),
    {
        let q = prev[0] / curr[0];
        proof {
            assert(turn(sp[0], prev[0] as int) >= 0 && turn(sc[0], curr[0] as int) >= 0);
            lemma_truncated_quotient(prev[0] as int, curr[0] as int, sp[0], sc[0]);
            vstd::arithmetic::div_mod::lemma_div_nonincreasing(
                turn(sp[0], prev[0] as int),
                turn(sc[0], curr[0] as int),
            );
            vstd::arithmetic::div_mod::lemma_div_pos_is_pos(
                turn(sp[0], prev[0] as int),
                turn(sc[0], curr[0] as int),
            );
            assert(q == truncated_quotient(prev[0] as int, curr[0] as int));
            assert(turn(sp[1], prev[1] as int) >= 0 && turn(sc[1], curr[1] as int) >= 0);
            assert(turn(sp[2], prev[2] as int) >= 0 && turn(sc[2], curr[2] as int) >= 0);
            lemma_euclid_step(
                a as int,
                b as int,
                seq![prev[0] as int, prev[1] as int, prev[2] as int],
                seq![curr[0] as int, curr[1] as int, curr[2] as int],
                sp,
                sc,
                q as int,
            );
            assert(turn(sp[0], prev[0] as int) == abs(prev[0] as int));
            assert(turn(sc[0], curr[0] as int) == abs(curr[0] as int));
            assert(abs(prev[0] - q * curr[0]) == abs(prev[0] as int) % abs(curr[0] as int));
        }
        let next0 = prev[0] - q * curr[0];
        let next1 = prev[1] - q * curr[1];
        let next2 = prev[2] - q * curr[2];
        prev = curr;
        curr = [next0, next1, next2];
        proof {
            let turned = sp;
            sp = sc;
            sc = turned;
        }
    }
    proof {
        assert(turn(sp[0], prev[0] as int) == abs(prev[0] as int));
        assert(turn(sp[1], prev[1] as int) == abs(prev[1] as int));
        assert(turn(sp[2], prev[2] as int) == abs(prev[2] as int));
        assert(gcd(abs(prev[0] as int), 0) == abs(prev[0] as int));
    }
    prev
}

/// Types whose values have a greatest common divisor.
pub trait GCD: Sized {
    /// The number a value stands for.
    spec fn number(self) -> int;

    /// The least number of the type, which has no absolute value in it.
    spec fn least() -> int;

    /// Returns a greatest common divisor of two numbers: the greatest one, or
    /// its negative if one of the numbers is negative.
    fn gcd(self, other: Self) -> (r: Self)
        requires
            self.number() > Self::least(),
            other.number() > Self::least(),
        ensures
            abs(r.number()) == gcd(abs(self.number()), abs(other.number())),
            self.number() >= 0 && other.number() >= 0 ==> r.number() >= 0,
    ;
}

/// The greatest common divisor of two numbers exceeds neither, unless the
/// other one is zero.
pub proof fn lemma_gcd_bound(a: nat, b: nat)
    ensures
        gcd(a, b) <= if a >= b {
            a
        } else {
            b
        },
{
    if a > 0 || b > 0 {
        lemma_gcd(a, b);
        if a > 0 {
            lemma_quotient(gcd(a, b), a);
        }
        if b > 0 {
            lemma_quotient(gcd(a, b), b);
        }
    }
}

impl GCD for i64 {
    open spec fn number(self) -> int {
        self as int
    }

    open spec fn least() -> int {
        i64::MIN as int
    }

    fn gcd(self, other: Self) -> (r: Self) {
        ext_euclid(self, other)[0]
    }
}

impl GCD for i32 {
    open spec fn number(self) -> int {
        self as int
    }

    open spec fn least() -> int {
        i32::MIN as int
    }

    fn gcd(self, other: Self) -> (r: Self) {
        proof {
            lemma_gcd_bound(abs(self as int), abs(other as int));
        }
        ext_euclid(self as i64, other as i64)[0] as i32
    }
}

/// `p` is a prime in the residue class of `a` modulo `m`.
pub open spec fn is_congruent_prime(p: nat, a: nat, m: nat) -> bool {
    prime(p) && p % m == a % m
}

/// `found` is the least prime in the residue class of `a` modulo `m` if there
/// is one up to `limit`, and nothing otherwise.
pub open spec fn is_first_congruent_prime(found: Option<nat>, a: nat, m: nat, limit: nat) -> bool {
    match found {
        Some(p) => p <= limit && is_congruent_prime(p, a, m) && forall|q: nat|
            q < p ==> !#[trigger] is_congruent_prime(q, a, m),
        None => forall|q: nat| q <= limit ==> !#[trigger] is_congruent_prime(q, a, m),
    }
}

/// Decides by trial division whether `x` is prime.
pub fn is_prime(x: u32) -> (r: bool)
    ensures
        r == prime(x as nat),
{
    if x <= 1 {
        return false;
    }
    let mut d: u32 = 2;
    while d < x
        invariant
            2 <= d <= x,
            forall|k: nat| 2 <= k < d ==> !#[trigger] divides(k, x as nat),
        decreases x - d,
    {
        if x % d == 0 {
            assert(divides(d as nat, x as nat));
            return false;
        }
        d += 1;
    }
    true
}

/// Two numbers of one residue class modulo `m` are equal or at least `m` apart.
proof fn lemma_same_class(x: nat, y: nat, m: nat)
    requires
        m > 0,
        x % m == y % m,
        x < y,
    ensures
        x + m <= y,
{
    vstd::arithmetic::div_mod::lemma_fundamental_div_mod(x as int, m as int);
    vstd::arithmetic::div_mod::lemma_fundamental_div_mod(y as int, m as int);
    let i = x / m;
    let j = y / m;
    assert(j >= i + 1) by (nonlinear_arith)
        requires
            m * i + x % m < m * j + x % m,
            m > 0,
    ;
    assert(m * j >= m * i + m) by (nonlinear_arith)
        requires
            j >= i + 1,
            m > 0,
    ;
}

/// A residue class whose residue `r` has a divisor above 1 in common with the
/// modulus holds no prime but, at most, that common divisor itself.
proof fn lemma_no_prime_in_class(r: nat, m: nat, q: nat)
    requires
        m > 0,
        r < m,
        gcd(r, m) != 1,
        q % m == r,
        prime(q),
    ensures
        q == gcd(r, m),
        r == 0 ==> q == m,
        r != 0 ==> q == r,
{
    lemma_gcd(r, m);
    let g = gcd(r, m);
    lemma_divides_remainder(g, q, m);
    assert(divides(g, q));
    lemma_quotient(g, q);
    assert(g == q);
    if r == 0 {
        lemma_quotient(q, m);
        assert(divides(m, q));
        lemma_quotient(m, q);
    } else {
        lemma_quotient(q, r);
        vstd::arithmetic::div_mod::lemma_mod_decreases(q, m);
    }
}

/// Returns the least prime `p <= limit` that is congruent to `a` modulo `m`,
/// or `None` if there is none.
pub fn first_congruent_prime_within(a: u32, m: u32, limit: u32) -> (r: Option<u32>)
    requires
        m > 0,
    ensures
        is_first_congruent_prime(
            match r {
                Some(p) => Some(p as nat),
                None => None,
            },
            a as nat,
            m as nat,
            limit as nat,
        ),
{
    let start = a % m;
    proof {
        vstd::arithmetic::div_mod::lemma_mod_twice(a as int, m as int);
        assert forall|q: nat| #[trigger] is_congruent_prime(q, a as nat, m as nat) implies q
            >= start by {
            vstd::arithmetic::div_mod::lemma_mod_decreases(q, m as nat);
        }
    }
    if start > limit {
        return None;
    }
    if is_prime(start) {
        return Some(start);
    }
    if (start as i64).gcd(m as i64) == 1 {
        let mut x = start;
        while limit >= m && x <= limit - m
            invariant
                m > 0,
                start == a % m,
                x <= limit,
                x % m == start,
                forall|q: nat| q <= x ==> !#[trigger] is_congruent_prime(q, a as nat, m as nat),
            decreases limit - x,
        {
            let ghost before = x;
            x += m;
            proof {
                vstd::arithmetic::div_mod::lemma_mod_adds(before as int, m as int, m as int);
                vstd::arithmetic::div_mod::lemma_mod_self_0(m as int);
                vstd::arithmetic::div_mod::lemma_small_mod(start as nat, m as nat);
                assert(x % m == start);
                assert forall|q: nat| q < x implies !#[trigger] is_congruent_prime(
                    q,
                    a as nat,
                    m as nat,
                ) by {
                    if q > before && q % (m as nat) == start as nat {
                        lemma_same_class(before as nat, q, m as nat);
                    }
                }
            }
            if is_prime(x) {
                return Some(x);
            }
        }
        proof {
            assert forall|q: nat| q <= limit implies !#[trigger] is_congruent_prime(
                q,
                a as nat,
                m as nat,
            ) by {
                if q > x && q % (m as nat) == start as nat {
                    lemma_same_class(x as nat, q, m as nat);
                }
            }
        }
        None
    } else {
        proof {
            assert forall|q: nat| #[trigger] is_congruent_prime(q, a as nat, m as nat) implies start
                == 0 && q == m by {
                lemma_no_prime_in_class(start as nat, m as nat, q);
            }
        }
        if start == 0 && m <= limit && is_prime(m) {
            proof {
                vstd::arithmetic::div_mod::lemma_mod_self_0(m as int);
            }
            Some(m)
        } else {
            None
        }
    }
}

/// Returns the least prime that is congruent to `a` modulo `m`, or `None` if
/// there is none below 2^32.
pub fn first_congruent_prime(a: u32, m: u32) -> (r: Option<u32>)
    requires
        m > 0,
    ensures
        is_first_congruent_prime(
            match r {
                Some(p) => Some(p as nat),
                None => None,
            },
            a as nat,
            m as nat,
            u32::MAX as nat,
        ),
{
    first_congruent_prime_within(a, m, u32::MAX)
}

/// A residue class `a` modulo `m`, with the least prime found in it.
#[derive(Copy, Clone, Debug)]
pub struct ModClass {
    a: u32,
    m: u32,
    first_prime: Option<u32>,
}

/// What a [`ModClass`] holds.
pub struct Residue {
    /// The residue that names the class.
    pub a: nat,
    /// The modulus.
    pub m: nat,
    /// The least prime found in the class.
    pub first_prime: Option<nat>,
}

impl View for ModClass {
    type V = Residue;

    closed spec fn view(&self) -> Residue {
        Residue {
            a: self.a as nat,
            m: self.m as nat,
            first_prime: match self.first_prime {
                Some(p) => Some(p as nat),
                None => None,
            },
        }
    }
}

impl ModClass {
    /// The class of `a` modulo `m`, with its least prime below 2^32.
    pub fn new(a: u32, m: u32) -> (r: Self)
        requires
            m > 0,
        ensures
            r@.a == a,
            r@.m == m,
            is_first_congruent_prime(r@.first_prime, a as nat, m as nat, u32::MAX as nat),
    {
        Self::within(a, m, u32::MAX)
    }

    /// The class of `a` modulo `m`, with its least prime up to `limit`.
    pub fn within(a: u32, m: u32, limit: u32) -> (r: Self)
        requires
            m > 0,
        ensures
            r@.a == a,
            r@.m == m,
            is_first_congruent_prime(r@.first_prime, a as nat, m as nat, limit as nat),
    {
        let first_prime = first_congruent_prime_within(a, m, limit);
        ModClass { a, m, first_prime }
    }

    /// Returns the residue that names the class.
    pub fn a(&self) -> (r: u32)
        ensures
            r == self@.a,
    {
        self.a
    }

    /// Returns the modulus.
    pub fn m(&self) -> (r: u32)
        ensures
            r == self@.m,
    {
        self.m
    }

    /// Returns the least prime found in the class.
    pub fn first_prime(&self) -> (r: Option<u32>)
        ensures
            match r {
                Some(p) => self@.first_prime == Some(p as nat),
                None => self@.first_prime.is_none(),
            },
    {
        self.first_prime
    }
}

/// The residue `i` belongs to the catalog of the monoid with components `a`
/// and `b`: it lies in `2..b` and is coprime to `b` or a divisor of `a` below `a`.
pub open spec fn is_cataloged(a: nat, b: nat, i: nat) -> bool {
    2 <= i < b && (gcd(i, b) == 1 || (i < a && a % i == 0))
}

/// `s` is the catalog of residue classes for `a` and `b`: the classes of the
/// cataloged residues in ascending order, each with its least prime up to `limit`.
pub open spec fn is_catalog(s: Seq<ModClass>, a: nat, b: nat, limit: nat) -> bool {
    &&& forall|k: int|
        0 <= k < s.len() ==> is_cataloged(a, b, (#[trigger] s[k])@.a) && s[k]@.m == b
            && is_first_congruent_prime(s[k]@.first_prime, s[k]@.a, b, limit)
    &&& forall|k: int, l: int| 0 <= k < l < s.len() ==> s[k]@.a < s[l]@.a
    &&& forall|i: nat| is_cataloged(a, b, i) ==> exists|k: int| 0 <= k < s.len() && (#[trigger] s[k])@.a == i
}

/// Returns the catalog of the residue classes modulo `b` of the primes that
/// can divide elements of the monoid with components `a` and `b`: the classes
/// of the residues `2..b` that are coprime to `b` or proper divisors of `a`,
/// each with its least prime up to `limit`.
pub fn mod_classes(a: u32, b: u32, limit: u32) -> (r: Vec<ModClass>)
    requires
        b > 0,
    ensures
        is_catalog(r@, a as nat, b as nat, limit as nat),
{
    let mut out: Vec<ModClass> = Vec::new();
    let mut i: u32 = 2;
    while i < b
        invariant
            2 <= i,
            b > 0,
            b < 2 || i <= b,
            forall|k: int|
                0 <= k < out@.len() ==> is_cataloged(a as nat, b as nat, (#[trigger] out@[k])@.a)
                    && out@[k]@.m == b && is_first_congruent_prime(
                    out@[k]@.first_prime,
                    out@[k]@.a,
                    b as nat,
                    limit as nat,
                ) && out@[k]@.a < i,
            forall|k: int, l: int| 0 <= k < l < out@.len() ==> out@[k]@.a < out@[l]@.a,
            forall|x: nat|
                x < i && is_cataloged(a as nat, b as nat, x) ==> exists|k: int|
                    0 <= k < out@.len() && (#[trigger] out@[k])@.a == x,
        decreases b - i,
    {
        let ghost before = out@;
        let keep = (i as i64).gcd(b as i64) == 1 || (i < a && a % i == 0);
        assert(keep == is_cataloged(a as nat, b as nat, i as nat));
        if keep {
            out.push(ModClass::within(i, b, limit));
            proof {
                assert forall|x: nat|
                    x < i + 1 && is_cataloged(a as nat, b as nat, x) implies exists|k: int|
                    0 <= k < out@.len() && (#[trigger] out@[k])@.a == x by {
                    if x < i {
                        let k = choose|k: int| 0 <= k < before.len() && (#[trigger] before[k])@.a == x;
                        assert(out@[k]@.a == x);
                    } else {
                        assert(out@[before.len() as int]@.a == x);
                    }
                }
            }
        }
        i += 1;
    }
    out
}

} // verus!

//! The mathematical model of an arithmetic congruence monoid: its elements,
//! its atoms and the factorizations of an element into atoms.

use vstd::prelude::*;
use crate::number_theory::{divides, lemma_divides_product, lemma_multiple, lemma_quotient};

verus! {

/// The monoid `{a, a + b, a + 2b, ...}`, with or without the number 1 adjoined
/// as its identity.
pub struct Monoid {
    /// The least element of the progression, reduced modulo `b`.
    pub a: nat,
    /// The step of the progression.
    pub b: nat,
    /// Whether 1 counts as an element whatever `a` and `b` are.
    pub unit: bool,
}

/// The product of the numbers of a sequence; the empty product is 1.
pub open spec fn product(f: Seq<u64>) -> nat
    decreases f.len(),
{
    if f.len() == 0 {
        1
    } else {
        product(f.drop_last()) * f.last() as nat
    }
}

/// No number of the sequence is smaller than one before it.
pub open spec fn nondecreasing(f: Seq<u64>) -> bool {
    forall|i: int, j: int| 0 <= i <= j < f.len() ==> f[i] <= f[j]
}

/// The order in which factorizations are listed: by their last number, then
/// by the one before it, and so on; a sequence that runs out first comes first.
pub open spec fn colex_lt(f: Seq<u64>, g: Seq<u64>) -> bool
    decreases f.len(),
{
    if g.len() == 0 {
        false
    } else if f.len() == 0 {
        true
    } else if f.last() != g.last() {
        f.last() < g.last()
    } else {
        colex_lt(f.drop_last(), g.drop_last())
    }
}

/// Each sequence of the list comes before the ones after it.
pub open spec fn colex_sorted(s: Seq<Seq<u64>>) -> bool {
    forall|i: int, j: int| 0 <= i < j < s.len() ==> colex_lt(s[i], s[j])
}

impl Monoid {
    /// `a` is reduced and congruent to its square, which makes the progression
    /// closed under multiplication.
    pub open spec fn valid(self) -> bool {
        &&& self.b > 0
        &&& self.a < self.b
        &&& (self.a * self.a) % self.b == self.a
    }

    /// `x` is one of `a, a + b, a + 2b, ...`.
    pub open spec fn in_progression(self, x: nat) -> bool {
        x % self.b == self.a
    }

    /// `x` is an element of the monoid.
    pub open spec fn contains(self, x: nat) -> bool {
        self.in_progression(x) || (self.unit && x == 1)
    }

    /// `x` is an element above 1 that is no product of two elements above 1.
    pub open spec fn is_atom(self, x: nat) -> bool {
        &&& x > 1
        &&& self.contains(x)
        &&& forall|u: nat, v: nat|
            #![trigger self.contains(u), self.contains(v)]
            u > 1 && v > 1 && self.contains(u) && self.contains(v) ==> u * v != x
    }

    /// `f` is a factorization of `n`: atoms in non-decreasing order whose
    /// product is `n`.
    pub open spec fn is_factorization(self, f: Seq<u64>, n: nat) -> bool {
        &&& forall|i: int| 0 <= i < f.len() ==> self.is_atom(#[trigger] f[i] as nat)
        &&& nondecreasing(f)
        &&& product(f) == n
    }

    /// `s` is the list of the factorizations of `n`: every factorization of
    /// `n` into atoms, each once, in the listing order. Zero, where it is an
    /// element, is listed as its own single factor.
    pub open spec fn lists_factorizations(self, s: Seq<Seq<u64>>, n: nat) -> bool {
        if n == 0 {
            if self.contains(0) {
                s =~= seq![seq![0u64]]
            } else {
                s.len() == 0
            }
        } else {
            &&& forall|i: int| 0 <= i < s.len() ==> self.is_factorization(#[trigger] s[i], n)
            &&& forall|f: Seq<u64>| self.is_factorization(f, n) ==> s.contains(f)
            &&& colex_sorted(s)
        }
    }

    /// What `atomic` decides: `n` is an element that does not split into
    /// smaller elements.
    pub open spec fn is_atomic(self, n: nat) -> bool {
        self.contains(n) && (n <= 1 || self.is_atom(n))
    }
}

/// The views of the vectors of a list.
pub open spec fn views(v: Seq<Vec<u64>>) -> Seq<Seq<u64>> {
    v.map_values(|f: Vec<u64>| f@)
}

/// Appending a number multiplies the product by it.
pub proof fn lemma_product_push(f: Seq<u64>, x: u64)
    ensures
        product(f.push(x)) == product(f) * x as nat,
{
    assert(f.push(x).drop_last() =~= f);
}

/// The progression is closed under multiplication.
pub proof fn lemma_closed(m: Monoid, x: nat, y: nat)
    requires
        m.valid(),
        m.in_progression(x),
        m.in_progression(y),
    ensures
        m.in_progression(x * y),
{
    vstd::arithmetic::div_mod::lemma_mul_mod_noop_general(x as int, y as int, m.b as int);
}

/// A product of atoms is at least 1 and is divisible by each of them; a
/// product of at least one atom is an element above 1 of the progression.
pub proof fn lemma_product_of_atoms(m: Monoid, f: Seq<u64>)
    requires
        m.valid(),
        forall|i: int| 0 <= i < f.len() ==> m.is_atom(#[trigger] f[i] as nat),
    ensures
        product(f) >= 1,
        f.len() >= 1 ==> product(f) >= 2 && m.in_progression(product(f)),
        f.len() >= 2 ==> product(f) > f.last(),
        forall|i: int| 0 <= i < f.len() ==> divides(#[trigger] f[i] as nat, product(f)),
    decreases f.len(),
{
    if f.len() > 0 {
        let head = f.drop_last();
        let x = f.last() as nat;
        lemma_product_of_atoms(m, head);
        assert(m.is_atom(f[f.len() - 1] as nat));
        let h = product(head);
        assert(h * x >= 2 && (h >= 2 ==> h * x > x)) by (nonlinear_arith)
            requires
                h >= 1,
                x >= 2,
        ;
        if head.len() == 0 {
            assert(h * x == x) by (nonlinear_arith)
                requires
                    h == 1,
            ;
        } else {
            lemma_closed(m, h, x);
        }
        assert forall|i: int| 0 <= i < f.len() implies divides(#[trigger] f[i] as nat, product(f)) by {
            if i < f.len() - 1 {
                assert(head[i] == f[i]);
                lemma_divides_product(f[i] as nat, h, x);
            } else {
                lemma_multiple(x, h);
            }
        }
    }
}

/// A factorization into two or more atoms splits into its last atom and a
/// factorization of the cofactor, and shows that the number is no atom.
pub proof fn lemma_factorization_splits(m: Monoid, g: Seq<u64>, n: nat)
    requires
        m.valid(),
        m.is_factorization(g, n),
        g.len() >= 2,
    ensures
        2 <= g.last() < n,
        divides(g.last() as nat, n),
        2 <= n / (g.last() as nat) < n,
        n == (n / (g.last() as nat)) * g.last(),
        m.is_atom(g.last() as nat),
        m.is_factorization(g.drop_last(), n / (g.last() as nat)),
        g.drop_last().last() <= g.last(),
        !m.is_atom(n),
{
    let head = g.drop_last();
    let d = g.last() as nat;
    assert(m.is_atom(g[g.len() - 1] as nat));
    assert forall|i: int| 0 <= i < head.len() implies m.is_atom(#[trigger] head[i] as nat) by {
        assert(head[i] == g[i]);
    }
    lemma_product_of_atoms(m, head);
    lemma_product_of_atoms(m, g);
    let q = product(head);
    lemma_multiple(d, q);
    assert(q * d > q) by (nonlinear_arith)
        requires
            q >= 2,
            d >= 2,
    ;
    assert(head.last() == g[g.len() - 2]);
    assert(m.contains(q) && m.contains(d));
}

/// An atom appended to a factorization whose atoms it does not fall below
/// factorizes the product.
pub proof fn lemma_factorization_extends(m: Monoid, f: Seq<u64>, q: nat, d: u64)
    requires
        m.is_factorization(f, q),
        m.is_atom(d as nat),
        f.len() == 0 || f.last() <= d,
    ensures
        m.is_factorization(f.push(d), q * d as nat),
        f.push(d).last() == d,
        f.push(d).drop_last() == f,
{
    lemma_product_push(f, d);
    let g = f.push(d);
    assert(g.drop_last() =~= f);
    assert forall|i: int, j: int| 0 <= i <= j < g.len() implies g[i] <= g[j] by {
        if j < f.len() {
            assert(f[i] <= f[j]);
        } else if i < f.len() {
            assert(f[i] <= f[f.len() - 1]);
        }
    }
}

/// An atom has exactly one factorization, itself.
pub proof fn lemma_atom_factorization(m: Monoid, n: nat, f: Seq<u64>)
    requires
        m.valid(),
        m.is_atom(n),
        n <= u64::MAX,
    ensures
        m.is_factorization(seq![n as u64], n),
        m.is_factorization(f, n) ==> f =~= seq![n as u64],
{
    let single = seq![n as u64];
    assert(single.drop_last() =~= Seq::<u64>::empty());
    assert(product(single) == n) by {
        assert(product(Seq::<u64>::empty()) == 1);
        assert(1 * n == n) by (nonlinear_arith);
    }
    if m.is_factorization(f, n) {
        if f.len() >= 2 {
            lemma_factorization_splits(m, f, n);
        } else if f.len() == 1 {
            assert(f.drop_last() =~= Seq::<u64>::empty());
            assert(1 * (f[0] as nat) == f[0] as nat) by (nonlinear_arith);
        }
    }
}

/// Two sequences are never each listed before the other.
pub proof fn lemma_colex_asymmetric(f: Seq<u64>, g: Seq<u64>)
    requires
        colex_lt(f, g),
    ensures
        !colex_lt(g, f),
    decreases f.len(),
{
    if f.len() > 0 && g.len() > 0 && f.last() == g.last() {
        lemma_colex_asymmetric(f.drop_last(), g.drop_last());
    }
}

/// How two sequences with an appended number compare.
pub proof fn lemma_colex_push(f: Seq<u64>, x: u64, g: Seq<u64>, y: u64)
    ensures
        colex_lt(f.push(x), g.push(y)) <==> x < y || (x == y && colex_lt(f, g)),
{
    assert(f.push(x).drop_last() =~= f);
    assert(g.push(y).drop_last() =~= g);
}

/// Two sorted lists with the same members are the same list.
pub proof fn lemma_sorted_lists_equal(s1: Seq<Seq<u64>>, s2: Seq<Seq<u64>>)
    requires
        colex_sorted(s1),
        colex_sorted(s2),
        forall|f: Seq<u64>| s1.contains(f) <==> s2.contains(f),
    ensures
        s1 == s2,
    decreases s1.len(),
{
    if s1.len() == 0 {
        if s2.len() > 0 {
            assert(s2.contains(s2[0]));
        }
        assert(s1 =~= s2);
    } else {
        assert(s1.contains(s1[0]));
        let x = s1.last();
        let y = s2.last();
        assert(s1.contains(x));
        assert(s2.contains(y));
        let k = choose|k: int| 0 <= k < s2.len() && s2[k] == x;
        let l = choose|l: int| 0 <= l < s1.len() && s1[l] == y;
        if k < s2.len() - 1 && l < s1.len() - 1 {
            lemma_colex_asymmetric(x, y);
        }
        assert(x == y);
        let t1 = s1.drop_last();
        let t2 = s2.drop_last();
        assert forall|f: Seq<u64>| t1.contains(f) <==> t2.contains(f) by {
            if t1.contains(f) {
                let i = choose|i: int| 0 <= i < t1.len() && t1[i] == f;
                assert(s1[i] == f);
                assert(s1.contains(f));
                let j = choose|j: int| 0 <= j < s2.len() && s2[j] == f;
                if j == s2.len() - 1 {
                    lemma_colex_asymmetric(s1[i], x);
                }
                assert(t2[j] == f);
            }
            if t2.contains(f) {
                let i = choose|i: int| 0 <= i < t2.len() && t2[i] == f;
                assert(s2[i] == f);
                assert(s2.contains(f));
                let j = choose|j: int| 0 <= j < s1.len() && s1[j] == f;
                if j == s1.len() - 1 {
                    lemma_colex_asymmetric(s2[i], y);
                }
                assert(t1[j] == f);
            }
        }
        lemma_sorted_lists_equal(t1, t2);
        assert(s1 =~= t1.push(x));
        assert(s2 =~= t2.push(y));
    }
}

/// What can stand last in a factorization of `n` into two or more atoms: an
/// atom below `n` whose cofactor is an element of the progression.
pub open spec fn splits_off(m: Monoid, n: nat, x: nat) -> bool {
    m.is_atom(x) && divides(x, n) && x < n && m.in_progression(n / x)
}

/// The last atom of a factorization of a divisor `u` of `n = u * v`, with `v`
/// in the progression, splits off `n`.
proof fn lemma_last_splits_off(m: Monoid, f: Seq<u64>, u: nat, v: nat)
    requires
        m.valid(),
        m.is_factorization(f, u),
        f.len() >= 1,
        v >= 2,
        m.in_progression(v),
    ensures
        splits_off(m, u * v, f.last() as nat),
{
    let x = f.last() as nat;
    let n = u * v;
    assert(m.is_atom(f[f.len() - 1] as nat));
    lemma_product_of_atoms(m, f);
    assert(divides(f[f.len() - 1] as nat, u));
    lemma_divides_product(x, u, v);
    lemma_quotient(x, u);
    let c = u / x;
    assert(n == x * (c * v) && x < n && c >= 1) by (nonlinear_arith)
        requires
            n == u * v,
            u == x * c,
            v >= 2,
            u >= 2,
            x >= 2,
    ;
    lemma_multiple(x, c * v);
    if f.len() == 1 {
        assert(f.drop_last() =~= Seq::<u64>::empty());
        assert(product(f.drop_last()) == 1);
        assert(1 * x == x) by (nonlinear_arith);
        assert(u == x);
        assert(c * v == v) by (nonlinear_arith)
            requires
                u == x * c,
                u == x,
                x >= 2,
        ;
    } else {
        lemma_factorization_splits(m, f, u);
        lemma_product_of_atoms(m, f.drop_last());
        lemma_closed(m, c, v);
    }
}

/// The greatest number up to `hi` that splits off `n`, given one that does.
proof fn lemma_greatest_split(m: Monoid, n: nat, lo: nat, hi: nat) -> (d: nat)
    requires
        splits_off(m, n, lo),
        lo <= hi,
    ensures
        splits_off(m, n, d),
        lo <= d <= hi,
        forall|y: nat| d < y <= hi ==> !splits_off(m, n, y),
    decreases hi - lo,
{
    if lo == hi || splits_off(m, n, hi) {
        hi
    } else {
        lemma_greatest_split(m, n, lo, (hi - 1) as nat)
    }
}

/// Every element above 1 of the progression has a factorization into atoms.
pub proof fn lemma_factorization_exists(m: Monoid, n: nat) -> (g: Seq<u64>)
    requires
        m.valid(),
        n >= 2,
        m.in_progression(n),
        n <= u64::MAX,
    ensures
        m.is_factorization(g, n),
    decreases n,
{
    if m.is_atom(n) {
        lemma_atom_factorization(m, n, Seq::empty());
        seq![n as u64]
    } else {
        let (u, v) = choose|u: nat, v: nat|
            #![trigger m.contains(u), m.contains(v)]
            u > 1 && v > 1 && m.contains(u) && m.contains(v) && u * v == n;
        assert(u < n && v < n) by (nonlinear_arith)
            requires
                u > 1,
                v > 1,
                u * v == n,
        ;
        let fu = lemma_factorization_exists(m, u);
        if fu.len() == 0 {
            assert(product(fu) == 1);
        }
        lemma_last_splits_off(m, fu, u, v);
        let d = lemma_greatest_split(m, n, fu.last() as nat, n);
        lemma_quotient(d, n);
        let q = n / d;
        assert(2 <= q < n) by (nonlinear_arith)
            requires
                n == d * q,
                2 <= d < n,
        ;
        let f = lemma_factorization_exists(m, q);
        if f.len() == 0 {
            assert(product(f) == 1);
        }
        lemma_last_splits_off(m, f, q, d);
        let y = f.last() as nat;
        assert(q * d == n) by (nonlinear_arith)
            requires
                n == d * q,
        ;
        lemma_quotient(y, n);
        lemma_factorization_extends(m, f, q, d as u64);
        f.push(d as u64)
    }
}

/// An atom's list of factorizations begins with the atom alone; a list that
/// begins with a single number is that of an atom.
pub proof fn lemma_atom_listed_first(m: Monoid, s: Seq<Seq<u64>>, d: nat)
    requires
        m.valid(),
        1 <= d <= u64::MAX,
        m.lists_factorizations(s, d),
    ensures
        m.is_atom(d) <==> s.len() >= 1 && s[0].len() == 1,
{
    if m.is_atom(d) {
        let single = seq![d as u64];
        lemma_atom_factorization(m, d, Seq::empty());
        assert(s.contains(single));
        let i = choose|i: int| 0 <= i < s.len() && s[i] == single;
        assert(m.is_factorization(s[0], d));
        lemma_atom_factorization(m, d, s[0]);
    }
    if s.len() >= 1 && s[0].len() == 1 {
        let f = s[0];
        assert(m.is_factorization(f, d));
        assert(f.drop_last() =~= Seq::<u64>::empty());
        assert(product(f.drop_last()) == 1);
        assert(1 * (f[0] as nat) == f[0] as nat) by (nonlinear_arith);
        assert(f[0] as nat == d);
        assert(m.is_atom(f[0] as nat));
    }
}

/// Every sequence of the list of `n` multiplies out to `n`.
pub proof fn lemma_listed_multiply_to(m: Monoid, s: Seq<Seq<u64>>, n: nat, i: int)
    requires
        m.lists_factorizations(s, n),
        0 <= i < s.len(),
    ensures
        product(s[i]) == n,
{
    if n == 0 {
        let f = seq![0u64];
        assert(s[i] == f);
        assert(f.drop_last() =~= Seq::<u64>::empty());
        assert(product(f.drop_last()) == 1);
        assert(1 * 0 == 0) by (nonlinear_arith);
    } else {
        assert(m.is_factorization(s[i], n));
    }
}

/// A number has one list of factorizations only.
pub proof fn lemma_list_unique(m: Monoid, n: nat, s1: Seq<Seq<u64>>, s2: Seq<Seq<u64>>)
    requires
        m.lists_factorizations(s1, n),
        m.lists_factorizations(s2, n),
    ensures
        s1 == s2,
{
    if n == 0 {
        assert(s1 =~= s2);
    } else {
        assert forall|f: Seq<u64>| s1.contains(f) <==> s2.contains(f) by {
            if s1.contains(f) {
                let i = choose|i: int| 0 <= i < s1.len() && s1[i] == f;
                assert(m.is_factorization(s1[i], n));
            }
            if s2.contains(f) {
                let i = choose|i: int| 0 <= i < s2.len() && s2[i] == f;
                assert(m.is_factorization(s2[i], n));
            }
        }
        lemma_sorted_lists_equal(s1, s2);
    }
}

/// The list of 1 holds the empty factorization alone; the list of a number
/// other than 1 outside the progression is empty.
pub proof fn lemma_list_of_one_and_of_strangers(m: Monoid, s: Seq<Seq<u64>>, n: nat)
    requires
        m.valid(),
        m.lists_factorizations(s, n),
    ensures
        n == 1 ==> s == seq![Seq::<u64>::empty()],
        n != 1 && !m.contains(n) ==> s.len() == 0,
{
    if n == 1 {
        let e = Seq::<u64>::empty();
        assert(m.is_factorization(e, 1));
        assert(s.contains(e));
        assert forall|i: int| 0 <= i < s.len() implies s[i] == e by {
            assert(m.is_factorization(s[i], 1));
            lemma_product_of_atoms(m, s[i]);
            assert(s[i] =~= e);
        }
        if s.len() >= 2 {
            assert(colex_lt(s[0], s[1]));
        }
        assert(s =~= seq![e]);
    } else if !m.contains(n) && n != 0 {
        if s.len() > 0 {
            assert(m.is_factorization(s[0], n));
            lemma_product_of_atoms(m, s[0]);
            if s[0].len() == 0 {
                assert(product(s[0]) == 1);
            }
        }
    }
}

impl Monoid {
    /// The greatest element of the progression that does not exceed `s`, or
    /// the least element `a` where `s` lies below it.
    pub open spec fn nearest(self, s: nat) -> nat {
        if s >= self.a {
            (s - (s - self.a) % (self.b as int)) as nat
        } else {
            self.a
        }
    }

    /// The element of the progression with index `i`, counted from zero.
    pub open spec fn ith(self, i: nat) -> nat {
        self.a + self.b * i
    }
}

/// The numbers `a + b * i` are the numbers of the progression.
pub proof fn lemma_progression(m: Monoid, x: nat)
    requires
        m.valid(),
    ensures
        m.in_progression(x) <==> exists|i: nat| x == #[trigger] m.ith(i),
        m.in_progression(x) ==> x >= m.a && x == m.ith(((x - m.a) / (m.b as int)) as nat),
{
    if m.in_progression(x) {
        vstd::arithmetic::div_mod::lemma_fundamental_div_mod(x as int, m.b as int);
        let k = x / m.b;
        assert(m.b * k >= 0) by (nonlinear_arith)
            requires
                m.b >= 0,
                k >= 0,
        ;
        vstd::arithmetic::div_mod::lemma_fundamental_div_mod_converse(
            x - m.a,
            m.b as int,
            k as int,
            0,
        );
        assert(x == m.ith(k));
    }
    if exists|i: nat| x == #[trigger] m.ith(i) {
        let i = choose|i: nat| x == #[trigger] m.ith(i);
        assert(m.b * i == i * m.b) by (nonlinear_arith);
        vstd::arithmetic::div_mod::lemma_fundamental_div_mod_converse(
            x as int,
            m.b as int,
            i as int,
            m.a as int,
        );
    }
}

/// `nearest(s)` is in the progression; from `a` on it is the greatest such
/// number up to `s`.
pub proof fn lemma_nearest(m: Monoid, s: nat)
    requires
        m.valid(),
    ensures
        m.in_progression(m.nearest(s)),
        s >= m.a ==> m.nearest(s) <= s < m.nearest(s) + m.b,
        s < m.a ==> m.nearest(s) == m.a,
        forall|x: nat| m.in_progression(x) && x <= s ==> x <= m.nearest(s),
{
    vstd::arithmetic::div_mod::lemma_small_mod(m.a, m.b);
    if s >= m.a {
        let c = s - m.a;
        let b = m.b as int;
        vstd::arithmetic::div_mod::lemma_fundamental_div_mod(c, b);
        vstd::arithmetic::div_mod::lemma_mod_bound(c, b);
        let k = c / b;
        assert(k >= 0 && b * k >= 0) by (nonlinear_arith)
            requires
                c == b * k + c % b,
                0 <= c % b < b,
                c >= 0,
        ;
        assert(m.nearest(s) == m.ith(k as nat));
        assert(m.ith(k as nat) == m.ith(k as nat));
        lemma_progression(m, m.nearest(s));
    }
    assert forall|x: nat| m.in_progression(x) && x <= s implies x <= m.nearest(s) by {
        lemma_progression(m, x);
        if x > m.nearest(s) {
            // two numbers of the progression differ by a multiple of b
            let y = m.nearest(s);
            lemma_progression(m, y);
            let i = ((x - m.a) / (m.b as int)) as nat;
            let j = ((y - m.a) / (m.b as int)) as nat;
            assert(x - y >= m.b) by (nonlinear_arith)
                requires
                    x == m.a + m.b * i,
                    y == m.a + m.b * j,
                    x > y,
                    m.b > 0,
            ;
        }
    }
}

/// `atomic` holds of `n` exactly if the list of `n` holds one sequence of at
/// most one number, unless `n` is 1 and is no element.
pub proof fn lemma_atomic_iff_single(m: Monoid, s: Seq<Seq<u64>>, n: nat)
    requires
        m.valid(),
        n <= u64::MAX,
        m.lists_factorizations(s, n),
        n != 1 || m.contains(1),
    ensures
        m.is_atomic(n) <==> s.len() == 1 && s[0].len() <= 1,
{
    lemma_list_of_one_and_of_strangers(m, s, n);
    if n >= 2 && m.contains(n) {
        lemma_atom_listed_first(m, s, n);
        if m.is_atom(n) {
            if s.len() >= 2 {
                lemma_atom_factorization(m, n, s[0]);
                lemma_atom_factorization(m, n, s[1]);
                assert(colex_lt(s[0], s[1]));
                lemma_colex_asymmetric(s[0], s[1]);
            }
        }
        if s.len() == 1 && s[0].len() == 0 {
            assert(m.is_factorization(s[0], n));
            assert(product(s[0]) == 1);
        }
    }
}

/// Asking twice for the factorizations of a number gives the same list.
pub proof fn lemma_factor_idempotent(m: Monoid, n: nat, first: Seq<Vec<u64>>, second: Seq<Vec<u64>>)
    requires
        m.lists_factorizations(views(first), n),
        m.lists_factorizations(views(second), n),
    ensures
        first.len() == second.len(),
        forall|i: int| 0 <= i < first.len() ==> first[i]@ == second[i]@,
{
    lemma_list_unique(m, n, views(first), views(second));
    assert forall|i: int| 0 <= i < first.len() implies first[i]@ == second[i]@ by {
        assert(views(first)[i] == views(second)[i]);
    }
}

/// Whether a number is an element depends on its residue modulo `b` alone,
/// and on whether it is the number 1.
pub proof fn lemma_contains_by_residue(m: Monoid, x: nat, y: nat)
    requires
        x % m.b == y % m.b,
        (x == 1) == (y == 1),
    ensures
        m.contains(x) == m.contains(y),
{
}

} // verus!

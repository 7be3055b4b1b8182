//! The positive divisors of an integer.

use vstd::prelude::*;
use vstd::arithmetic::power::pow;
use crate::factor::{factor, power, power_product, is_prime_factorization, powers, lemma_power_product_push, lemma_prefix_product, lemma_prime_power_bounds};
use crate::number_theory::{divides, prime, lemma_euclid, lemma_prime_divides_pow, lemma_quotient, lemma_split_divisor, lemma_split_unique, lemma_join_divisor};

verus! {

/// `s` lists every positive divisor of `n` exactly once, in some order.
pub open spec fn is_divisor_list(s: Seq<u64>, n: nat) -> bool {
    &&& s.no_duplicates()
    &&& forall|x: u64|
        #![trigger s.contains(x)]
        #![trigger divides(x as nat, n)]
        s.contains(x) <==> divides(x as nat, n)
}

/// A prime that differs from every prime of a list does not divide the
/// product of their powers.
pub proof fn lemma_prime_not_in_product(p: nat, g: Seq<(nat, nat)>)
    requires
        prime(p),
        forall|i: int| 0 <= i < g.len() ==> prime((#[trigger] g[i]).0) && g[i].0 != p,
    ensures
        power_product(g) >= 1,
        !divides(p, power_product(g) as nat),
    decreases g.len(),
{
    if g.len() == 0 {
        vstd::arithmetic::div_mod::lemma_small_mod(1, p);
    } else {
        let head = g.drop_last();
        let e = g.last();
        lemma_prime_not_in_product(p, head);
        assert(prime(e.0));
        vstd::arithmetic::power::lemma_pow_positive(e.0 as int, e.1);
        let a = power_product(head);
        let c = pow(e.0 as int, e.1);
        assert(a * c >= 1) by (nonlinear_arith)
            requires
                a >= 1,
                c >= 1,
        ;
        if divides(p, (a * c) as nat) {
            lemma_euclid(p, a as nat, c as nat);
            lemma_prime_divides_pow(p, e.0, e.1);
            lemma_quotient(p, e.0);
            assert(false);
        }
    }
}

/// Where the element at position `i` of a grown list comes from: the position
/// in the previous list, and the exponent of the new prime.
pub open spec fn slot(len: int, m: int, i: int) -> (int, nat) {
    if i < len {
        (i, 0)
    } else {
        ((i - len) / m, ((i - len) % m + 1) as nat)
    }
}

proof fn lemma_slot(len: int, m: int, i: int)
    requires
        0 <= i < len + len * m,
        m >= 1,
    ensures
        0 <= slot(len, m, i).0 < len,
        slot(len, m, i).1 <= m,
        i < len <==> slot(len, m, i).1 == 0,
        i >= len ==> i == len + slot(len, m, i).0 * m + slot(len, m, i).1 - 1,
{
    if i >= len {
        let idx = i - len;
        vstd::arithmetic::div_mod::lemma_fundamental_div_mod(idx, m);
        vstd::arithmetic::div_mod::lemma_mod_bound(idx, m);
        let t = idx / m;
        assert(0 <= t < len && t * m == m * t) by (nonlinear_arith)
            requires
                idx == m * t + idx % m,
                0 <= idx % m < m,
                0 <= idx < len * m,
        ;
    }
}

/// Multiplying each divisor of `base` by each power `p^1 .. p^m` of a prime
/// that does not divide `base`, and keeping the divisors themselves, lists
/// the divisors of `base * p^m`.
proof fn lemma_extend_divisors(prev: Seq<u64>, res: Seq<u64>, p: nat, m: nat, base: nat)
    requires
        is_divisor_list(prev, base),
        base > 0,
        prime(p),
        !divides(p, base),
        m >= 1,
        res.len() == prev.len() + prev.len() * m,
        forall|i: int|
            0 <= i < res.len() ==> (#[trigger] res[i]) as int == prev[slot(
                prev.len() as int,
                m as int,
                i,
            ).0] * pow(p as int, slot(prev.len() as int, m as int, i).1),
    ensures
        is_divisor_list(res, (base * pow(p as int, m)) as nat),
{
    let len = prev.len() as int;
    let mi = m as int;
    let whole = (base * pow(p as int, m)) as nat;
    vstd::arithmetic::power::lemma_pow_positive(p as int, m);
    assert forall|i: int, j: int| 0 <= i < res.len() && 0 <= j < res.len() && i != j implies res[i]
        != res[j] by {
        lemma_slot(len, mi, i);
        lemma_slot(len, mi, j);
        let (ti, ki) = slot(len, mi, i);
        let (tj, kj) = slot(len, mi, j);
        if res[i] == res[j] {
            assert(prev.contains(prev[ti]));
            assert(prev.contains(prev[tj]));
            lemma_split_unique(p, base, prev[ti] as nat, ki, prev[tj] as nat, kj);
            assert(ti == tj);
            assert(false);
        }
    }
    assert forall|x: u64| res.contains(x) implies divides(x as nat, whole) by {
        let i = choose|i: int| 0 <= i < res.len() && res[i] == x;
        lemma_slot(len, mi, i);
        let (t, k) = slot(len, mi, i);
        assert(prev.contains(prev[t]));
        lemma_join_divisor(p, base, m, prev[t] as nat, k);
    }
    assert forall|x: u64| divides(x as nat, whole) implies res.contains(x) by {
        let (d, k) = lemma_split_divisor(p, base, m, x as nat);
        vstd::arithmetic::power::lemma_pow_positive(p as int, k);
        assert(d <= x) by (nonlinear_arith)
            requires
                x == d * pow(p as int, k),
                pow(p as int, k) >= 1,
        ;
        let dd = d as u64;
        assert(prev.contains(dd));
        let t = choose|t: int| 0 <= t < prev.len() && prev[t] == dd;
        let i = if k == 0 {
            t
        } else {
            len + t * mi + k - 1
        };
        if k == 0 {
            assert(d * 1 == d) by (nonlinear_arith);
            reveal(pow);
        } else {
            assert(i < len + len * mi && t * mi >= 0) by (nonlinear_arith)
                requires
                    0 <= t < len,
                    1 <= k <= mi,
                    i == len + t * mi + k - 1,
            ;
            vstd::arithmetic::div_mod::lemma_fundamental_div_mod_converse(
                t * mi + k - 1,
                mi,
                t,
                k - 1,
            );
        }
        assert(slot(len, mi, i) == (t, k));
        assert(res[i] == x);
    }
}

/// Returns the positive divisors of `n`, each once, in no particular order.
/// Zero, which everything divides, yields the single divisor 1.
pub fn divisors(n: u64) -> (r: Vec<u64>)
    ensures
        n >= 1 ==> is_divisor_list(r@, n as nat),
        n == 0 ==> r@ == seq![1u64],
{
    let mut res: Vec<u64> = Vec::new();
    res.push(1);
    let pfs = match factor(n) {
        Ok(pfs) => pfs,
        Err(_) => {
            assert(res@ =~= seq![1u64]);
            return res;
        },
    };
    let ghost model = powers(pfs@);
    proof {
        assert(model.take(0) =~= Seq::empty());
        assert forall|x: u64| res@.contains(x) <==> divides(x as nat, 1) by {
            if divides(x as nat, 1) {
                lemma_quotient(x as nat, 1);
                assert(res@[0] == x);
            }
        }
        assert forall|t: int| 0 <= t < model.len() implies (#[trigger] model[t]).0 >= 1 by {
            assert(prime(model[t].0));
        }
    }
    let mut j: usize = 0;
    while j < pfs.len()
        invariant
            0 <= j <= pfs.len(),
            n >= 1,
            model == powers(pfs@),
            is_prime_factorization(model, n as nat),
            forall|t: int| 0 <= t < model.len() ==> (#[trigger] model[t]).0 >= 1,
            is_divisor_list(res@, power_product(model.take(j as int)) as nat),
        decreases pfs.len() - j,
    {
        let (p, m) = pfs[j];
        let ghost base = power_product(model.take(j as int)) as nat;
        let ghost prev = res@;
        let len = res.len();
        proof {
            assert(model[j as int] == (p as nat, m as nat));
            lemma_prime_power_bounds(model, n as nat, j as int);
            lemma_prefix_product(model, j as int, j + 1);
            lemma_prefix_product(model, j + 1, model.len() as int);
            assert(model.take(model.len() as int) =~= model);
            assert(model.take(j + 1) =~= model.take(j as int).push(model[j as int]));
            lemma_power_product_push(model.take(j as int), model[j as int]);
            assert forall|i: int| 0 <= i < model.take(j as int).len() implies prime(
                (#[trigger] model.take(j as int)[i]).0,
            ) && model.take(j as int)[i].0 != p by {
                assert(model[i].0 < model[j as int].0);
                assert(prime(model[i].0));
            }
            lemma_prime_not_in_product(p as nat, model.take(j as int));
        }
        proof {
            vstd::arithmetic::power::lemma_pow0(p as int);
            assert forall|i: int| 0 <= i < res.len() implies (#[trigger] res[i]) as int == prev[slot(
                len as int,
                m as int,
                i,
            ).0] * pow(p as int, slot(len as int, m as int, i).1) by {
                assert(prev[i] * 1 == prev[i]) by (nonlinear_arith);
            }
        }
        let mut t: usize = 0;
        while t < len
            invariant
                0 <= t <= len,
                len == prev.len(),
                1 <= m < 64,
                p >= 2,
                base >= 1,
                base * pow(p as int, m as nat) <= n,
                forall|x: u64| prev.contains(x) ==> divides(x as nat, base),
                res.len() == len + t * m,
                forall|i: int|
                    0 <= i < res.len() ==> (#[trigger] res[i]) as int == prev[slot(
                        len as int,
                        m as int,
                        i,
                    ).0] * pow(p as int, slot(len as int, m as int, i).1),
            decreases len - t,
        {
            proof {
                assert(t * m >= 0) by (nonlinear_arith)
                    requires
                        t >= 0,
                        m >= 0,
                ;
                assert(slot(len as int, m as int, t as int) == (t as int, 0nat));
                reveal(pow);
                assert(prev[t as int] * 1 == prev[t as int]) by (nonlinear_arith);
            }
            let d = res[t];
            assert(d == prev[t as int]);
            let mut k: usize = 1;
            while k <= m
                invariant
                    1 <= k <= m + 1,
                    0 <= t < len,
                    len == prev.len(),
                    1 <= m < 64,
                    p >= 2,
                    base >= 1,
                    d == prev[t as int],
                    divides(d as nat, base),
                    base * pow(p as int, m as nat) <= n,
                    res.len() == len + t * m + (k - 1),
                    forall|i: int|
                        0 <= i < res.len() ==> (#[trigger] res[i]) as int == prev[slot(
                            len as int,
                            m as int,
                            i,
                        ).0] * pow(p as int, slot(len as int, m as int, i).1),
                decreases m + 1 - k,
            {
                proof {
                    lemma_join_divisor(p as nat, base, m as nat, d as nat, k as nat);
                    assert(base * pow(p as int, m as nat) > 0) by (nonlinear_arith)
                        requires
                            base >= 1,
                            pow(p as int, m as nat) > 0,
                    ;
                    lemma_quotient(
                        (d * pow(p as int, k as nat)) as nat,
                        (base * pow(p as int, m as nat)) as nat,
                    );
                    assert(pow(p as int, k as nat) <= d * pow(p as int, k as nat)) by (nonlinear_arith)
                        requires
                            d >= 1,
                            pow(p as int, k as nat) > 0,
                    ;
                    assert(t * m >= 0) by (nonlinear_arith)
                        requires
                            t >= 0,
                            m >= 0,
                    ;
                    vstd::arithmetic::div_mod::lemma_fundamental_div_mod_converse(
                        t * m + (k - 1),
                        m as int,
                        t as int,
                        k - 1,
                    );
                    assert(slot(len as int, m as int, len + t * m + (k - 1)) == (
                        t as int,
                        k as nat,
                    ));
                }
                let x = d * power(p, k);
                res.push(x);
                k += 1;
            }
            proof {
                assert(len + t * m + m == len + (t + 1) * m) by (nonlinear_arith);
            }
            t += 1;
        }
        proof {
            assert(is_divisor_list(prev, base));
            lemma_extend_divisors(prev, res@, p as nat, m as nat, base);
        }
        j += 1;
    }
    proof {
        assert(model.take(pfs.len() as int) =~= model);
    }
    res
}

} // verus!

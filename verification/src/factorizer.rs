//! The memoized search for the factorizations of a number into atoms.

use vstd::prelude::*;
use std::collections::HashMap;
use crate::members::{element_divisors, increasing, is_element, is_element_divisor, sorted};
use crate::monoid::{colex_lt, colex_sorted, lemma_atom_factorization, lemma_atom_listed_first, lemma_colex_push, lemma_factorization_exists, lemma_factorization_extends, lemma_factorization_splits, lemma_product_of_atoms, product, views, Monoid};
use crate::number_theory::lemma_quotient;

verus! {

/// Every entry of the cache with a key below `bound` lists the factorizations
/// of its key.
pub open spec fn cache_valid_below(m: Monoid, cache: Map<u64, Vec<Vec<u64>>>, bound: int) -> bool {
    forall|k: u64|
        #![trigger cache.contains_key(k)]
        cache.contains_key(k) && k < bound ==> m.lists_factorizations(views(cache[k]@), k as nat)
}

/// The cache still holds what it held, and nothing has changed above `n`.
pub open spec fn cache_kept(
    before: Map<u64, Vec<Vec<u64>>>,
    after: Map<u64, Vec<Vec<u64>>>,
    n: nat,
) -> bool {
    &&& forall|k: u64| #![trigger before.contains_key(k)] before.contains_key(k) ==> after.contains_key(k)
    &&& forall|k: u64|
        #![trigger after.contains_key(k)]
        after.contains_key(k) && k > n ==> before.contains_key(k) && after[k] == before[k]
}

/// A factorization of the cofactor may take `d` as its last atom.
pub open spec fn admits(f: Seq<u64>, d: u64) -> bool {
    f.len() == 0 || f.last() <= d
}

/// What the search has found when it has gone through the first `i` element
/// divisors `ds` of `n`: the factorizations of `n` into two or more atoms
/// whose last atom is among these, in the listing order.
pub open spec fn found_through(m: Monoid, n: nat, ds: Seq<u64>, i: int, outs: Seq<Seq<u64>>) -> bool {
    &&& colex_sorted(outs)
    &&& forall|k: int|
        0 <= k < outs.len() ==> m.is_factorization(#[trigger] outs[k], n) && outs[k].len() >= 2
            && exists|t: int| 0 <= t < i && ds[t] == outs[k].last()
    &&& forall|g: Seq<u64>, t: int|
        #![trigger m.is_factorization(g, n), ds[t]]
        0 <= t < i && m.is_factorization(g, n) && g.len() >= 2 && g.last() == ds[t]
            ==> outs.contains(g)
}

/// Returns a copy of `f` with `d` appended.
fn extended(f: &Vec<u64>, d: u64) -> (r: Vec<u64>)
    ensures
        r@ == f@.push(d),
{
    let mut g: Vec<u64> = Vec::new();
    let mut i: usize = 0;
    while i < f.len()
        invariant
            0 <= i <= f.len(),
            g@ == f@.take(i as int),
        decreases f.len() - i,
    {
        g.push(f[i]);
        proof {
            assert(f@.take(i + 1) =~= f@.take(i as int).push(f@[i as int]));
        }
        i += 1;
    }
    proof {
        assert(f@.take(f.len() as int) =~= f@);
    }
    g.push(d);
    g
}

/// When the search has gone through every element divisor below `n`, what it
/// found, or `n` alone if it found nothing, is the list of factorizations of `n`.
proof fn lemma_search_complete(m: Monoid, n: nat, ds: Seq<u64>, outs: Seq<Seq<u64>>)
    requires
        m.valid(),
        2 <= n <= u64::MAX,
        m.contains(n),
        increasing(ds),
        forall|x: u64| #![trigger ds.contains(x)] ds.contains(x) <==> is_element_divisor(m, n, x as nat),
        ds.len() >= 1,
        found_through(m, n, ds, ds.len() - 1, outs),
    ensures
        outs.len() > 0 ==> m.lists_factorizations(outs, n),
        outs.len() == 0 ==> m.lists_factorizations(seq![seq![n as u64]], n),
{
    let single = seq![n as u64];
    // every factorization into two or more atoms has been found
    assert forall|g: Seq<u64>| m.is_factorization(g, n) && g.len() >= 2 implies outs.contains(g) by {
        lemma_factorization_splits(m, g, n);
        let d = g.last();
        assert(ds.contains(d));
        let t = choose|t: int| 0 <= t < ds.len() && ds[t] == d;
        vstd::arithmetic::div_mod::lemma_mod_self_0(n as int);
        assert(ds.contains(n as u64));
        let top = choose|top: int| 0 <= top < ds.len() && ds[top] == n as u64;
        if t == ds.len() - 1 && top != t {
            assert(ds[top] < ds[t]);
        }
        assert(t < ds.len() - 1);
    }
    if outs.len() > 0 {
        lemma_factorization_splits(m, outs[0], n);
        assert forall|f: Seq<u64>| m.is_factorization(f, n) implies outs.contains(f) by {
            if f.len() == 0 {
                assert(product(f) == 1);
            } else if f.len() == 1 {
                assert(f.drop_last() =~= Seq::<u64>::empty());
                assert(product(f.drop_last()) == 1);
                assert(1 * (f[0] as nat) == f[0] as nat) by (nonlinear_arith);
                assert(m.is_atom(f[0] as nat));
            }
        }
    } else {
        if !m.is_atom(n) {
            let g = lemma_factorization_exists(m, n);
            if g.len() == 0 {
                assert(product(g) == 1);
            } else if g.len() == 1 {
                assert(g.drop_last() =~= Seq::<u64>::empty());
                assert(product(g.drop_last()) == 1);
                assert(1 * (g[0] as nat) == g[0] as nat) by (nonlinear_arith);
                assert(m.is_atom(g[0] as nat));
            }
            assert(outs.contains(g));
        }
        lemma_atom_factorization(m, n, Seq::empty());
        let list = seq![single];
        assert forall|f: Seq<u64>| m.is_factorization(f, n) implies list.contains(f) by {
            lemma_atom_factorization(m, n, f);
            assert(list[0] == f);
        }
    }
}

/// What is listed for a number that needs no search: the empty factorization
/// for 1, nothing for a number that is no element, and zero itself for zero.
proof fn lemma_trivial_lists(m: Monoid, n: nat)
    requires
        m.valid(),
        n <= u64::MAX,
    ensures
        n == 1 ==> m.lists_factorizations(seq![Seq::<u64>::empty()], n),
        n != 1 && !m.contains(n) ==> m.lists_factorizations(Seq::<Seq<u64>>::empty(), n),
        n == 0 && m.contains(n) ==> m.lists_factorizations(seq![seq![0u64]], n),
{
    if n == 1 {
        let e = Seq::<u64>::empty();
        let list = seq![e];
        assert(m.is_factorization(e, 1));
        assert forall|f: Seq<u64>| m.is_factorization(f, 1) implies list.contains(f) by {
            lemma_product_of_atoms(m, f);
            assert(f =~= e);
            assert(list[0] == f);
        }
    } else if !m.contains(n) && n != 0 {
        assert forall|f: Seq<u64>| m.is_factorization(f, n) implies false by {
            lemma_product_of_atoms(m, f);
            if f.len() == 0 {
                assert(product(f) == 1);
            }
        }
    }
}

/// Makes sure that the cache holds the list of factorizations of `n`.
///
/// A number that is not in the cache gets an empty entry first, then the
/// entries of its element divisors are resolved, and the entry of `n` is
/// replaced by what they yield: each factorization of a cofactor `n / d`
/// with an atom `d` appended that does not fall below its last atom.
pub(crate) fn resolve(a: u64, b: u64, unit: bool, cache: &mut HashMap<u64, Vec<Vec<u64>>>, n: u64)
    requires
        (Monoid { a: a as nat, b: b as nat, unit }).valid(),
        cache_valid_below(Monoid { a: a as nat, b: b as nat, unit }, old(cache)@, n + 1),
    ensures
        final(cache)@.contains_key(n),
        cache_valid_below(Monoid { a: a as nat, b: b as nat, unit }, final(cache)@, n + 1),
        cache_kept(old(cache)@, final(cache)@, n as nat),
    decreases n,
{
    broadcast use vstd::std_specs::hash::group_hash_axioms;

    let ghost m = Monoid { a: a as nat, b: b as nat, unit };
    if cache.contains_key(&n) {
        return ;
    }
    cache.insert(n, Vec::new());
    let ghost reserved = cache@;
    let mut out: Vec<Vec<u64>> = Vec::new();
    proof {
        lemma_trivial_lists(m, n as nat);
    }
    if n == 1 {
        out.push(Vec::new());
        proof {
            assert(views(out@) =~= seq![Seq::<u64>::empty()]);
        }
    } else if is_element(a, b, unit, n) {
        let found = element_divisors(a, b, unit, n);
        let ds = sorted(&found);
        proof {
            assert forall|x: u64| #![trigger ds@.contains(x)] ds@.contains(x) <==> is_element_divisor(
                m,
                n as nat,
                x as nat,
            ) by {
                assert(ds@.contains(x) <==> found@.contains(x));
            }
            if n >= 2 {
                vstd::arithmetic::div_mod::lemma_mod_self_0(n as int);
                assert(ds@.contains(n));
            } else {
                // zero has at most the element divisor 1
                if ds@.len() >= 2 {
                    assert(ds@.contains(ds@[0]));
                    assert(ds@.contains(ds@[1]));
                    assert(ds@[0] < ds@[1]);
                }
            }
            assert(views(out@) =~= Seq::<Seq<u64>>::empty());
        }
        let mut i: usize = 0;
        while ds.len() > 0 && i < ds.len() - 1
            invariant
                m == (Monoid { a: a as nat, b: b as nat, unit }),
                m.valid(),
                b > 0,
                n != 1,
                m.contains(n as nat),
                n == 0 ==> ds@.len() <= 1,
                ds@.len() >= 1 ==> i < ds@.len(),
                i <= ds@.len(),
                increasing(ds@),
                forall|x: u64|
                    #![trigger ds@.contains(x)]
                    ds@.contains(x) <==> is_element_divisor(m, n as nat, x as nat),
                n >= 2 ==> ds@.contains(n),
                cache_valid_below(m, cache@, n as int),
                cache_kept(reserved, cache@, n as nat),
                found_through(m, n as nat, ds@, i as int, views(out@)),
            decreases ds.len() - i,
        {
            let d = ds[i];
            proof {
                assert(ds@.contains(d));
                assert(ds@.contains(ds@[i + 1]));
                assert(d < ds@[i + 1]);
                lemma_quotient(d as nat, n as nat);
                lemma_quotient(ds@[i + 1] as nat, n as nat);
            }
            let q = n / d;
            let ghost outs_before = views(out@);
            let ghost cache_before = cache@;
            resolve(a, b, unit, cache, d);
            let d_fs = cache.get(&d).unwrap();
            let atomic = d_fs.len() >= 1 && d_fs[0].len() == 1;
            proof {
                lemma_atom_listed_first(m, views(d_fs@), d as nat);
                assert(d_fs@.len() >= 1 ==> views(d_fs@)[0] == d_fs@[0]@);
                assert(atomic == m.is_atom(d as nat));
            }
            if atomic {
                proof {
                    assert(2 <= q < n) by (nonlinear_arith)
                        requires
                            n == d * q,
                            2 <= d < n,
                    ;
                }
                resolve(a, b, unit, cache, q);
                let q_fs = cache.get(&q).unwrap();
                let ghost qs = views(q_fs@);
                let ghost start = out@.len() as int;
                let ghost mut picked: Seq<int> = Seq::empty();
                let mut j: usize = 0;
                while j < q_fs.len()
                    invariant
                        0 <= j <= q_fs.len(),
                        m.valid(),
                        qs == views(q_fs@),
                        m.lists_factorizations(qs, q as nat),
                        m.is_atom(d as nat),
                        n == q * d,
                        2 <= q,
                        0 <= i < ds@.len(),
                        ds@[i as int] == d,
                        increasing(ds@),
                        start == outs_before.len(),
                        found_through(m, n as nat, ds@, i as int, outs_before),
                        views(out@).len() == start + picked.len(),
                        forall|k: int| 0 <= k < start ==> views(out@)[k] == outs_before[k],
                        forall|t: int|
                            0 <= t < picked.len() ==> 0 <= #[trigger] picked[t] < j && views(
                                out@,
                            )[start + t] == qs[picked[t]].push(d) && admits(qs[picked[t]], d),
                        forall|s: int, t: int| 0 <= s < t < picked.len() ==> picked[s] < picked[t],
                        forall|c: int|
                            0 <= c < j && admits(#[trigger] qs[c], d) ==> views(out@).contains(
                                qs[c].push(d),
                            ),
                    decreases q_fs.len() - j,
                {
                    let f = &q_fs[j];
                    let ghost outs_now = views(out@);
                    proof {
                        assert(qs[j as int] == f@);
                    }
                    if f.len() == 0 || d >= f[f.len() - 1] {
                        let g = extended(f, d);
                        out.push(g);
                        proof {
                            assert(views(out@) =~= outs_now.push(f@.push(d)));
                            picked = picked.push(j as int);
                            assert forall|c: int|
                                0 <= c < j + 1 && admits(#[trigger] qs[c], d) implies views(
                                out@,
                            ).contains(qs[c].push(d)) by {
                                if c < j {
                                    let k = choose|k: int|
                                        0 <= k < outs_now.len() && outs_now[k] == qs[c].push(d);
                                    assert(views(out@)[k] == qs[c].push(d));
                                } else {
                                    assert(views(out@)[outs_now.len() as int] == qs[c].push(d));
                                }
                            }
                        }
                    } else {
                        proof {
                            assert(!admits(qs[j as int], d));
                        }
                    }
                    j += 1;
                }
                proof {
                    lemma_step_with_atom(m, n as nat, ds@, i as int, q as nat, qs, outs_before, picked, views(out@));
                }
            } else {
                proof {
                    lemma_step_without_atom(m, n as nat, ds@, i as int, views(out@));
                }
            }
            i += 1;
        }
        if out.len() == 0 {
            let mut single: Vec<u64> = Vec::new();
            single.push(n);
            out.push(single);
            proof {
                assert(views(out@) =~= seq![seq![n]]);
                if n >= 2 {
                    lemma_search_complete(m, n as nat, ds@, Seq::empty());
                }
            }
        } else {
            proof {
                if n == 0 {
                    assert(views(out@)[0].len() >= 2);
                    assert(m.is_factorization(views(out@)[0], 0));
                    lemma_product_of_atoms(m, views(out@)[0]);
                } else {
                    lemma_search_complete(m, n as nat, ds@, views(out@));
                }
            }
        }
    } else {
        proof {
            assert(views(out@) =~= Seq::<Seq<u64>>::empty());
        }
    }
    let ghost searched = cache@;
    cache.insert(n, out);
    proof {
        assert(cache_kept(reserved, searched, n as nat));
        assert forall|k: u64| #![trigger cache@.contains_key(k)] cache@.contains_key(k) && k > n
            implies old(cache)@.contains_key(k) && cache@[k] == old(cache)@[k] by {
            assert(searched.contains_key(k));
            assert(reserved.contains_key(k));
        }
        assert forall|k: u64| #![trigger old(cache)@.contains_key(k)] old(cache)@.contains_key(k)
            implies cache@.contains_key(k) by {
            assert(reserved.contains_key(k));
            assert(searched.contains_key(k));
        }
        assert forall|k: u64| #![trigger cache@.contains_key(k)] cache@.contains_key(k) && k < n + 1
            implies m.lists_factorizations(views(cache@[k]@), k as nat) by {
            if k != n {
                assert(searched.contains_key(k));
            }
        }
    }
}

/// A divisor that is no atom ends no factorization.
proof fn lemma_step_without_atom(m: Monoid, n: nat, ds: Seq<u64>, i: int, outs: Seq<Seq<u64>>)
    requires
        0 <= i < ds.len(),
        !m.is_atom(ds[i] as nat),
        found_through(m, n, ds, i, outs),
    ensures
        found_through(m, n, ds, i + 1, outs),
{
    assert forall|k: int| 0 <= k < outs.len() implies exists|t: int|
        0 <= t < i + 1 && ds[t] == (#[trigger] outs[k]).last() by {
        let t = choose|t: int| 0 <= t < i && ds[t] == outs[k].last();
        assert(0 <= t < i + 1 && ds[t] == outs[k].last());
    }
    assert forall|g: Seq<u64>, t: int|
        #![trigger m.is_factorization(g, n), ds[t]]
        0 <= t < i + 1 && m.is_factorization(g, n) && g.len() >= 2 && g.last() == ds[t]
            implies outs.contains(g) by {
        if t == i {
            assert(m.is_atom(g[g.len() - 1] as nat));
        }
    }
}

/// Appending the atom `d = ds[i]` to the factorizations of the cofactor that
/// admit it yields the factorizations of `n` that end in `d`.
proof fn lemma_step_with_atom(
    m: Monoid,
    n: nat,
    ds: Seq<u64>,
    i: int,
    q: nat,
    qs: Seq<Seq<u64>>,
    before: Seq<Seq<u64>>,
    picked: Seq<int>,
    outs: Seq<Seq<u64>>,
)
    requires
        m.valid(),
        0 <= i < ds.len(),
        increasing(ds),
        m.is_atom(ds[i] as nat),
        n == q * ds[i],
        2 <= q,
        m.lists_factorizations(qs, q),
        found_through(m, n, ds, i, before),
        outs.len() == before.len() + picked.len(),
        forall|k: int| 0 <= k < before.len() ==> outs[k] == before[k],
        forall|t: int|
            0 <= t < picked.len() ==> 0 <= #[trigger] picked[t] < qs.len() && outs[before.len() + t]
                == qs[picked[t]].push(ds[i]) && admits(qs[picked[t]], ds[i]),
        forall|s: int, t: int| 0 <= s < t < picked.len() ==> picked[s] < picked[t],
        forall|c: int|
            0 <= c < qs.len() && admits(#[trigger] qs[c], ds[i]) ==> outs.contains(qs[c].push(ds[i])),
    ensures
        found_through(m, n, ds, i + 1, outs),
{
    let d = ds[i];
    let start = before.len() as int;
    assert forall|k: int| 0 <= k < outs.len() implies m.is_factorization(#[trigger] outs[k], n)
        && outs[k].len() >= 2 && exists|t: int| 0 <= t < i + 1 && ds[t] == outs[k].last() by {
        if k < start {
            assert(outs[k] == before[k]);
            let t = choose|t: int| 0 <= t < i && ds[t] == before[k].last();
            assert(0 <= t < i + 1 && ds[t] == outs[k].last());
        } else {
            let t = k - start;
            let f = qs[picked[t]];
            assert(outs[start + t] == f.push(d));
            assert(m.is_factorization(f, q));
            lemma_factorization_extends(m, f, q, d);
            if f.len() == 0 {
                assert(product(f) == 1);
            }
            assert(0 <= i < i + 1 && ds[i] == outs[k].last());
        }
    }
    assert forall|x: int, y: int| 0 <= x < y < outs.len() implies colex_lt(outs[x], outs[y]) by {
        if y < start {
            assert(colex_lt(before[x], before[y]));
        } else {
            let ty = y - start;
            let fy = qs[picked[ty]];
            assert(outs[start + ty] == fy.push(d));
            if x < start {
                let t = choose|t: int| 0 <= t < i && ds[t] == before[x].last();
                assert(ds[t] < ds[i]);
                assert(outs[x] == before[x]);
                assert(outs[y].last() == d);
            } else {
                let tx = x - start;
                let fx = qs[picked[tx]];
                assert(outs[start + tx] == fx.push(d));
                assert(colex_lt(fx, fy));
                lemma_colex_push(fx, d, fy, d);
            }
        }
    }
    assert forall|g: Seq<u64>, t: int|
        #![trigger m.is_factorization(g, n), ds[t]]
        0 <= t < i + 1 && m.is_factorization(g, n) && g.len() >= 2 && g.last() == ds[t]
            implies outs.contains(g) by {
        if t < i {
            assert(before.contains(g));
            let k = choose|k: int| 0 <= k < before.len() && before[k] == g;
            assert(outs[k] == g);
        } else {
            lemma_factorization_splits(m, g, n);
            let head = g.drop_last();
            vstd::arithmetic::div_mod::lemma_div_multiples_vanish(q as int, d as int);
            assert(n == d * q) by (nonlinear_arith)
                requires
                    n == q * d,
            ;
            assert(n / (d as nat) == q);
            assert(qs.contains(head));
            let c = choose|c: int| 0 <= c < qs.len() && qs[c] == head;
            assert(admits(qs[c], d));
            assert(head.push(d) =~= g);
        }
    }
}

} // verus!

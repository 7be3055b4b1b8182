//! Arithmetic congruence monoids and their elements.

use vstd::prelude::*;
use std::collections::HashMap;
use crate::error::ACMError;
use crate::factorizer::{cache_valid_below, resolve};
use crate::integers::{is_catalog, mod_classes, ModClass};
use crate::members::{element_divisors, is_element, is_element_divisor};
use crate::monoid::{lemma_atomic_iff_single, lemma_nearest, lemma_progression, views, Monoid};

verus! {

/// Walks through an arithmetic progression: `n`, `n + b`, `n + 2b`, ...
#[derive(Debug)]
pub struct ACMElementIterator {
    _a: u64,
    b: u64,
    n: u64,
    done: bool,
}

/// Where a walk through a progression stands.
pub struct Walk {
    /// The distance between two numbers of the progression.
    pub step: nat,
    /// The number that comes next, if one is left below 2^64.
    pub upcoming: Option<nat>,
}

impl View for ACMElementIterator {
    type V = Walk;

    closed spec fn view(&self) -> Walk {
        Walk {
            step: self.b as nat,
            upcoming: if self.done {
                None
            } else {
                Some(self.n as nat)
            },
        }
    }
}

impl ACMElementIterator {
    /// A walk that starts at `n` and advances by `b`. The first argument, the
    /// least element of the monoid, does not influence the walk.
    pub fn new(a: u64, b: u64, n: u64) -> (r: Self)
        ensures
            r@ == (Walk { step: b as nat, upcoming: Some(n as nat) }),
    {
        ACMElementIterator { _a: a, b, n, done: false }
    }

    /// Yields the upcoming number and advances by one step. The walk ends
    /// where the next number would not fit in 64 bits.
    pub fn next(&mut self) -> (r: Option<u64>)
        ensures
            final(self)@.step == old(self)@.step,
            match old(self)@.upcoming {
                Some(x) => r == Some(x as u64) && x <= u64::MAX && final(self)@.upcoming == (if x
                    + old(self)@.step <= u64::MAX {
                    Some(x + old(self)@.step)
                } else {
                    None
                }),
                None => r.is_none() && final(self)@.upcoming.is_none(),
            },
    {
        if self.done {
            return None;
        }
        let res = self.n;
        match res.checked_add(self.b) {
            Some(next) => {
                self.n = next;
            },
            None => {
                self.done = true;
            },
        }
        Some(res)
    }
}

/// An arithmetic congruence monoid: the numbers `a, a + b, a + 2b, ...` for
/// `a` congruent to its square modulo `b`, together with the factorizations
/// of its elements into atoms that have been computed so far.
///
/// By default 1 is an element only if it occurs in the progression. With
/// [`ArithmeticCongruenceMonoid::with_unit`] it can be adjoined as the
/// identity of the monoid whatever `a` and `b` are.
#[derive(Debug)]
pub struct ArithmeticCongruenceMonoid {
    a: u64,
    b: u64,
    unit: bool,
    factorizations: HashMap<u64, Vec<Vec<u64>>>,
    mod_classes: Vec<ModClass>,
}

impl View for ArithmeticCongruenceMonoid {
    type V = Monoid;

    closed spec fn view(&self) -> Monoid {
        Monoid { a: self.a as nat, b: self.b as nat, unit: self.unit }
    }
}

impl ArithmeticCongruenceMonoid {
    #[verifier::type_invariant]
    spec fn well_formed(self) -> bool {
        &&& self@.valid()
        &&& self.b <= u32::MAX
        &&& cache_valid_below(self@, self.factorizations@, u64::MAX + 1)
        &&& is_catalog(self.mod_classes@, self@.a, self@.b, u32::MAX as nat)
    }

    /// Constructs the monoid with components `a` and `b`, in which 1 is an
    /// element only if `a` is 1 modulo `b`.
    pub fn new(a: u32, b: u32) -> (r: Result<Self, ACMError>)
        ensures
            r is Ok <==> b != 0 && (a * a) % (b as int) == a % b,
            b == 0 <==> r == Err::<Self, ACMError>(ACMError::DivisionByZero),
            b != 0 && (a * a) % (b as int) != a % b <==> r == Err::<Self, ACMError>(
                ACMError::InvalidParameters(a, (a * a) as u64, b),
            ),
            r matches Ok(acm) ==> acm@ == (Monoid {
                a: (a % b) as nat,
                b: b as nat,
                unit: false,
            }) && acm@.valid(),
    {
        Self::with_unit(a, b, false)
    }

    /// Constructs the monoid with components `a` and `b`. With `unit` set, 1
    /// is an element of it whatever `a` and `b` are.
    pub fn with_unit(a: u32, b: u32, unit: bool) -> (r: Result<Self, ACMError>)
        ensures
            r is Ok <==> b != 0 && (a * a) % (b as int) == a % b,
            b == 0 <==> r == Err::<Self, ACMError>(ACMError::DivisionByZero),
            b != 0 && (a * a) % (b as int) != a % b <==> r == Err::<Self, ACMError>(
                ACMError::InvalidParameters(a, (a * a) as u64, b),
            ),
            r matches Ok(acm) ==> acm@ == (Monoid { a: (a % b) as nat, b: b as nat, unit })
                && acm@.valid(),
    {
        if b == 0 {
            return Err(ACMError::DivisionByZero);
        }
        proof {
            assert(0 <= a * a <= u64::MAX) by (nonlinear_arith)
                requires
                    0 <= a <= u32::MAX,
            ;
        }
        let square: u64 = (a as u64) * (a as u64);
        if square % (b as u64) != (a % b) as u64 {
            return Err(ACMError::InvalidParameters(a, square, b));
        }
        proof {
            vstd::arithmetic::div_mod::lemma_mul_mod_noop_general(a as int, a as int, b as int);
        }
        let mod_classes = mod_classes(a % b, b, u32::MAX);
        Ok(
            ArithmeticCongruenceMonoid {
                a: (a % b) as u64,
                b: b as u64,
                unit,
                factorizations: HashMap::new(),
                mod_classes,
            },
        )
    }

    /// Returns the `a` component of the monoid, reduced modulo `b`.
    pub fn a(&self) -> (r: u64)
        ensures
            r == self@.a,
    {
        self.a
    }

    /// Returns the `b` component of the monoid.
    pub fn b(&self) -> (r: u64)
        ensures
            r == self@.b,
    {
        self.b
    }

    /// Returns the catalog of the residue classes modulo `b` of the primes
    /// that can divide elements of the monoid, each with its least prime
    /// below 2^32.
    pub fn mod_classes(&self) -> (r: &Vec<ModClass>)
        ensures
            is_catalog(r@, self@.a, self@.b, u32::MAX as nat),
    {
        proof {
            use_type_invariant(self);
        }
        &self.mod_classes
    }

    /// Tells whether 1 has been adjoined as the identity.
    pub fn has_unit(&self) -> (r: bool)
        ensures
            r == self@.unit,
    {
        self.unit
    }

    /// Returns `true` if `x` is an element of the monoid.
    pub fn contains(&self, x: &u64) -> (r: bool)
        ensures
            r == self@.contains(*x as nat),
            self@.valid(),
    {
        proof {
            use_type_invariant(self);
        }
        is_element(self.a, self.b, self.unit, *x)
    }

    /// Returns the greatest element of the progression that is at most `s`,
    /// or `a` if `s` is smaller than `a`.
    pub fn nearest(&self, s: u64) -> (r: u64)
        ensures
            r == self@.nearest(s as nat),
            self@.in_progression(r as nat),
            s >= self@.a ==> r <= s < r + self@.b,
            s < self@.a ==> r == self@.a,
    {
        proof {
            use_type_invariant(self);
            lemma_nearest(self@, s as nat);
        }
        if s >= self.a {
            let c = s - self.a;
            proof {
                vstd::arithmetic::div_mod::lemma_mod_decreases(c as nat, self.b as nat);
            }
            s - c % self.b
        } else {
            self.a
        }
    }

    /// Returns the element of the progression with index `i`, counted from zero.
    pub fn ith(&self, i: u64) -> (r: u64)
        requires
            self@.ith(i as nat) <= u64::MAX,
        ensures
            r == self@.ith(i as nat),
    {
        proof {
            use_type_invariant(self);
            assert(self.b * i >= 0) by (nonlinear_arith)
                requires
                    self.b >= 0,
                    i >= 0,
            ;
        }
        self.a + self.b * i
    }

    /// Returns the index of `n` in the progression, counted from zero, or
    /// `None` if `n` is not in it.
    pub fn index(&self, n: u64) -> (r: Option<u64>)
        ensures
            match r {
                Some(i) => n == self@.ith(i as nat),
                None => forall|i: nat| n != #[trigger] self@.ith(i),
            },
    {
        proof {
            use_type_invariant(self);
            lemma_progression(self@, n as nat);
        }
        if n % self.b == self.a {
            Some((n - self.a) / self.b)
        } else {
            None
        }
    }

    /// Returns the divisors of `n` that are elements of the monoid, each
    /// once, in no particular order. For zero, which everything divides,
    /// only the number 1 is considered.
    pub fn divisors(&self, n: u64) -> (r: Vec<u64>)
        ensures
            r@.no_duplicates(),
            forall|x: u64|
                #![trigger r@.contains(x)]
                r@.contains(x) <==> is_element_divisor(self@, n as nat, x as nat),
    {
        proof {
            use_type_invariant(self);
        }
        element_divisors(self.a, self.b, self.unit, n)
    }

    /// Returns the factorizations of `n` into atoms of the monoid, each a
    /// non-decreasing sequence of atoms, ordered by their last atoms, then by
    /// the atoms before. The list is empty if `n` is neither an element nor 1.
    ///
    /// The result is kept, so that asking again costs a lookup.
    pub fn factor(&mut self, n: u64) -> (r: &Vec<Vec<u64>>)
        ensures
            final(self)@ == old(self)@,
            old(self)@.valid(),
            old(self)@.lists_factorizations(views(r@), n as nat),
    {
        broadcast use vstd::std_specs::hash::group_hash_axioms;

        proof {
            use_type_invariant(&*self);
        }
        let mut cache: HashMap<u64, Vec<Vec<u64>>> = HashMap::new();
        std::mem::swap(&mut self.factorizations, &mut cache);
        let ghost before = cache@;
        resolve(self.a, self.b, self.unit, &mut cache, n);
        proof {
            assert forall|k: u64| #![trigger cache@.contains_key(k)] cache@.contains_key(k)
                implies self@.lists_factorizations(views(cache@[k]@), k as nat) by {
                if k > n {
                    assert(before.contains_key(k));
                }
            }
        }
        self.factorizations = cache;
        self.factorizations.get(&n).unwrap()
    }

    /// Returns the factorizations of `n` into atoms, as [`Self::factor`] does.
    pub fn factorize(&mut self, n: u64) -> (r: &Vec<Vec<u64>>)
        ensures
            final(self)@ == old(self)@,
            old(self)@.valid(),
            old(self)@.lists_factorizations(views(r@), n as nat),
    {
        self.factor(n)
    }

    /// Returns `true` if `n` is an element of the monoid that is no product
    /// of two smaller elements.
    pub fn atomic(&mut self, n: &u64) -> (r: bool)
        ensures
            final(self)@ == old(self)@,
            r == old(self)@.is_atomic(*n as nat),
    {
        let ghost m = self@;
        if !self.contains(n) {
            return false;
        }
        let n_fs = self.factor(*n);
        proof {
            lemma_atomic_iff_single(m, views(n_fs@), *n as nat);
            assert(n_fs@.len() >= 1 ==> views(n_fs@)[0] == n_fs@[0]@);
        }
        n_fs.len() == 1 && n_fs[0].len() <= 1
    }

    /// Returns `count` elements of the progression, starting at the nearest
    /// one up to `s`.
    pub fn elements(&self, count: u32, s: u64) -> (r: Vec<u64>)
        requires
            count > 0 ==> self@.nearest(s as nat) + (count - 1) * self@.b <= u64::MAX,
        ensures
            r@.len() == count,
            forall|i: int| 0 <= i < count ==> r@[i] == self@.nearest(s as nat) + i * self@.b,
    {
        proof {
            use_type_invariant(self);
        }
        let start = self.nearest(s);
        let mut out: Vec<u64> = Vec::new();
        let mut i: u32 = 0;
        while i < count
            invariant
                0 <= i <= count,
                start == self@.nearest(s as nat),
                self.b == self@.b,
                count > 0 ==> start + (count - 1) * self.b <= u64::MAX,
                out@.len() == i,
                forall|k: int| 0 <= k < i ==> out@[k] == start + k * self.b,
            decreases count - i,
        {
            proof {
                assert(0 <= i * self.b <= (count - 1) * self.b) by (nonlinear_arith)
                    requires
                        0 <= i <= count - 1,
                        self.b >= 0,
                ;
            }
            out.push(start + (i as u64) * self.b);
            i += 1;
        }
        out
    }

    /// Returns a walk through the elements of the progression from `a` on.
    pub fn iter(&self) -> (r: ACMElementIterator)
        ensures
            r@ == (Walk { step: self@.b, upcoming: Some(self@.a) }),
    {
        proof {
            use_type_invariant(self);
            vstd::arithmetic::div_mod::lemma_small_mod(0, self.b as nat);
            assert(self@.nearest(self.a as nat) == self.a);
        }
        self.iter_from(self.a)
    }

    /// Returns a walk through the elements of the progression that starts at
    /// the nearest one up to `s`.
    pub fn iter_from(&self, s: u64) -> (r: ACMElementIterator)
        ensures
            r@ == (Walk { step: self@.b, upcoming: Some(self@.nearest(s as nat)) }),
    {
        ACMElementIterator::new(self.a, self.b, self.nearest(s))
    }
}

} // verus!

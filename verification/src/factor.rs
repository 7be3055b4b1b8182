//! Prime power factorization by trial division.

use vstd::prelude::*;
use vstd::arithmetic::power::pow;
use crate::error::ACMError;
use crate::number_theory::{divides, prime, lemma_divides_trans, lemma_multiple, lemma_quotient, lemma_pow_step};

verus! {

/// The number that a list of `(base, exponent)` pairs multiplies out to.
pub open spec fn power_product(f: Seq<(nat, nat)>) -> int
    decreases f.len(),
{
    if f.len() == 0 {
        1
    } else {
        power_product(f.drop_last()) * pow(f.last().0 as int, f.last().1)
    }
}

/// `f` is the prime factorization of `n`: primes in strictly ascending order,
/// each with its full, positive exponent.
pub open spec fn is_prime_factorization(f: Seq<(nat, nat)>, n: nat) -> bool {
    &&& forall|i: int| 0 <= i < f.len() ==> prime((#[trigger] f[i]).0) && f[i].1 >= 1
    &&& forall|i: int, j: int| 0 <= i < j < f.len() ==> (#[trigger] f[i]).0 < (#[trigger] f[j]).0
    &&& power_product(f) == n
}

/// The mathematical content of a list produced by [`factor`].
pub open spec fn powers(v: Seq<(u64, usize)>) -> Seq<(nat, nat)> {
    v.map_values(|e: (u64, usize)| (e.0 as nat, e.1 as nat))
}

/// Calls `num_traits::Pow::pow` on `&u64` and `usize`, which multiplies by
/// repeated squaring with the plain `*` of `u64`. No intermediate value
/// exceeds the result, so the call is safe whenever the result fits, and it
/// then returns `base` to the power `exp` (with `0^0 == 1`).
#[verifier::external_body]
pub(crate) fn power(base: u64, exp: usize) -> (r: u64)
    requires
        pow(base as int, exp as nat) <= u64::MAX,
    ensures
        r == pow(base as int, exp as nat),
{
    num_traits::Pow::pow(&base, exp)
}

/// Powers grow with the base.
pub proof fn lemma_pow_base_monotonic(a: nat, b: nat, e: nat)
    requires
        a <= b,
    ensures
        0 <= pow(a as int, e) <= pow(b as int, e),
    decreases e,
{
    reveal(pow);
    if e > 0 {
        lemma_pow_base_monotonic(a, b, (e - 1) as nat);
        let x = pow(a as int, (e - 1) as nat);
        let y = pow(b as int, (e - 1) as nat);
        assert(0 <= a * x <= b * y) by (nonlinear_arith)
            requires
                0 <= x <= y,
                0 <= a <= b,
        ;
    }
}

/// A power of a base of at least two that fits in 64 bits has an exponent below 64.
pub proof fn lemma_exponent_small(d: nat, e: nat)
    requires
        d >= 2,
        pow(d as int, e) <= u64::MAX,
    ensures
        e < 64,
{
    if e >= 64 {
        lemma_pow_base_monotonic(2, d, e);
        vstd::arithmetic::power::lemma_pow_increases(2, 64, e);
        vstd::arithmetic::power2::lemma_pow2(64);
        vstd::arithmetic::power2::lemma2_to64();
    }
}

/// Appending a pair multiplies the product by its power.
pub proof fn lemma_power_product_push(f: Seq<(nat, nat)>, e: (nat, nat))
    ensures
        power_product(f.push(e)) == power_product(f) * pow(e.0 as int, e.1),
{
    assert(f.push(e).drop_last() =~= f);
}

/// The product of the first `j` powers divides the product of the first `k`,
/// for `j <= k`, when every base is positive.
pub proof fn lemma_prefix_product(f: Seq<(nat, nat)>, j: int, k: int)
    requires
        0 <= j <= k <= f.len(),
        forall|i: int| 0 <= i < f.len() ==> (#[trigger] f[i]).0 >= 1,
    ensures
        1 <= power_product(f.take(j)) <= power_product(f.take(k)),
        divides(power_product(f.take(j)) as nat, power_product(f.take(k)) as nat),
    decreases k,
{
    if k == 0 {
        assert(f.take(0) =~= Seq::empty());
        lemma_multiple(1, 1);
    } else {
        let head = f.take(k - 1);
        let e = f[k - 1];
        assert(f.take(k) =~= head.push(e));
        lemma_power_product_push(head, e);
        vstd::arithmetic::power::lemma_pow_positive(e.0 as int, e.1);
        if j == k {
            lemma_prefix_product(f, 0, k - 1);
            assert(power_product(head) * pow(e.0 as int, e.1) >= 1) by (nonlinear_arith)
                requires
                    power_product(head) >= 1,
                    pow(e.0 as int, e.1) >= 1,
            ;
            let whole = power_product(f.take(k)) as nat;
            lemma_multiple(whole, 1);
            assert(whole * 1 == whole) by (nonlinear_arith);
        } else {
            lemma_prefix_product(f, j, k - 1);
            let a = power_product(f.take(j));
            let b = power_product(head);
            let c = pow(e.0 as int, e.1);
            assert(a <= b * c) by (nonlinear_arith)
                requires
                    1 <= a <= b,
                    c >= 1,
            ;
            lemma_multiple(b as nat, c as nat);
            lemma_divides_trans(a as nat, b as nat, (b * c) as nat);
        }
    }
}

/// In a prime factorization of `n`, every prime and every prime power is at
/// most `n`, and every exponent is below 64 when `n` fits in 64 bits.
pub proof fn lemma_prime_power_bounds(f: Seq<(nat, nat)>, n: nat, i: int)
    requires
        is_prime_factorization(f, n),
        0 <= i < f.len(),
    ensures
        n >= 1,
        2 <= f[i].0 <= pow(f[i].0 as int, f[i].1) <= n,
        divides(pow(f[i].0 as int, f[i].1) as nat, n),
        n <= u64::MAX ==> f[i].1 < 64,
{
    assert forall|t: int| 0 <= t < f.len() implies (#[trigger] f[t]).0 >= 1 by {
        assert(prime(f[t].0));
    }
    assert(prime(f[i].0));
    lemma_prefix_product(f, i, i + 1);
    lemma_prefix_product(f, i + 1, f.len() as int);
    assert(f.take(f.len() as int) =~= f);
    let head = f.take(i);
    let e = f[i];
    assert(f.take(i + 1) =~= head.push(e));
    lemma_power_product_push(head, e);
    let a = power_product(head);
    let c = pow(e.0 as int, e.1);
    lemma_pow_step(e.0, (e.1 - 1) as nat);
    assert(c >= e.0) by (nonlinear_arith)
        requires
            c == e.0 * pow(e.0 as int, (e.1 - 1) as nat),
            pow(e.0 as int, (e.1 - 1) as nat) > 0,
            e.0 >= 1,
    ;
    assert(c <= a * c) by (nonlinear_arith)
        requires
            a >= 1,
            c >= 1,
    ;
    lemma_multiple(c as nat, a as nat);
    lemma_divides_trans(c as nat, (a * c) as nat, n);
    if n <= u64::MAX {
        lemma_exponent_small(e.0, e.1);
    }
}

/// Returns the prime power factorization of `n`: the primes that divide `n`
/// in ascending order, each with its exponent. Zero has none and is refused.
pub fn factor(n: u64) -> (r: Result<Vec<(u64, usize)>, ACMError>)
    ensures
        n == 0 <==> r is Err,
        r matches Err(e) ==> e == ACMError::InvalidInput,
        r matches Ok(v) ==> is_prime_factorization(powers(v@), n as nat),
{
    if n == 0 {
        return Err(ACMError::InvalidInput);
    }
    let mut pfs: Vec<(u64, usize)> = Vec::new();
    let mut rest: u64 = n;
    let mut d: u64 = 2;
    while rest > 1
        invariant
            rest >= 1,
            d >= 2,
            power_product(powers(pfs@)) * rest == n,
            forall|i: int| 0 <= i < pfs.len() ==> prime((#[trigger] pfs[i]).0 as nat) && pfs[i].1 >= 1,
            forall|i: int, j: int|
                0 <= i < j < pfs.len() ==> (#[trigger] pfs[i]).0 < (#[trigger] pfs[j]).0,
            forall|i: int|
                0 <= i < pfs.len() ==> (#[trigger] pfs[i]).0 <= d && !divides(
                    pfs[i].0 as nat,
                    rest as nat,
                ),
            forall|k: nat| 2 <= k < d ==> !#[trigger] divides(k, rest as nat),
        decreases rest,
    {
        proof {
            if d > rest {
                lemma_multiple(rest as nat, 1);
                assert(rest as nat * 1 == rest as nat) by (nonlinear_arith);
            }
        }
        while rest % d != 0
            invariant
                rest > 1,
                2 <= d <= rest,
                forall|k: nat| 2 <= k < d ==> !#[trigger] divides(k, rest as nat),
            decreases rest - d,
        {
            proof {
                if d == rest {
                    lemma_multiple(rest as nat, 1);
                    assert(rest as nat * 1 == rest as nat) by (nonlinear_arith);
                }
            }
            d += 1;
        }
        let ghost before = rest as nat;
        assert(divides(d as nat, before));
        assert(prime(d as nat)) by {
            assert forall|k: nat| 2 <= k < d implies !#[trigger] divides(k, d as nat) by {
                if divides(k, d as nat) {
                    lemma_divides_trans(k, d as nat, before);
                }
            }
        }
        let mut q = rest / d;
        let mut i: usize = 1;
        proof {
            lemma_quotient(d as nat, before);
            vstd::arithmetic::power::lemma_pow1(d as int);
        }
        while q % d == 0
            invariant
                q * pow(d as int, i as nat) == rest,
                rest == before,
                i >= 1,
                q >= 1,
                d >= 2,
            decreases q,
        {
            proof {
                lemma_quotient(d as nat, q as nat);
                lemma_pow_step(d as nat, i as nat);
                lemma_pow_step(d as nat, (i + 1) as nat);
                let next = (q / d) as int;
                assert(next < q) by (nonlinear_arith)
                    requires
                        q == d * next,
                        q >= 1,
                        d >= 2,
                ;
                assert(next * pow(d as int, (i + 1) as nat) == rest) by (nonlinear_arith)
                    requires
                        q == d * next,
                        q * pow(d as int, i as nat) == rest,
                        pow(d as int, (i + 1) as nat) == d * pow(d as int, i as nat),
                ;
                assert(pow(d as int, (i + 1) as nat) <= rest) by (nonlinear_arith)
                    requires
                        next * pow(d as int, (i + 1) as nat) == rest,
                        next >= 1,
                        pow(d as int, (i + 1) as nat) > 0,
                ;
                lemma_exponent_small(d as nat, (i + 1) as nat);
            }
            q /= d;
            i += 1;
        }
        let ghost full = pow(d as int, i as nat);
        proof {
            lemma_pow_step(d as nat, (i - 1) as nat);
            assert(1 <= full <= rest && (full >= d)) by (nonlinear_arith)
                requires
                    q * full == rest,
                    q >= 1,
                    full == d * pow(d as int, (i - 1) as nat),
                    pow(d as int, (i - 1) as nat) > 0,
                    d >= 2,
            ;
            lemma_multiple(full as nat, q as nat);
            lemma_power_product_push(powers(pfs@), (d as nat, i as nat));
            assert(powers(pfs@.push((d, i))) =~= powers(pfs@).push((d as nat, i as nat)));
            assert(power_product(powers(pfs@)) * full * q == n) by (nonlinear_arith)
                requires
                    power_product(powers(pfs@)) * rest == n,
                    q * full == rest,
            ;
            assert(q < rest) by (nonlinear_arith)
                requires
                    q * full == rest,
                    full >= 2,
                    q >= 1,
            ;
            assert forall|k: nat| divides(k, q as nat) implies divides(k, before) by {
                lemma_multiple(q as nat, full as nat);
                lemma_divides_trans(k, q as nat, before);
            }
        }
        pfs.push((d, i));
        rest /= power(d, i);
    }
    proof {
        assert(power_product(powers(pfs@)) * 1 == power_product(powers(pfs@))) by (nonlinear_arith);
    }
    Ok(pfs)
}

} // verus!

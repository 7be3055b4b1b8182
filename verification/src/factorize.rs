//! Prime power factorization with 32-bit exponents.

use vstd::prelude::*;
use crate::error::ACMError;
use crate::factor::{factor, is_prime_factorization, powers, lemma_prime_power_bounds};

verus! {

/// The mathematical content of a list produced by [`factorize`].
pub open spec fn powers_u32(v: Seq<(u64, u32)>) -> Seq<(nat, nat)> {
    v.map_values(|e: (u64, u32)| (e.0 as nat, e.1 as nat))
}

/// Returns the prime power factorization of `n`: the primes that divide `n`
/// in ascending order, each with its exponent. Zero has none and is refused.
pub fn factorize(n: u64) -> (r: Result<Vec<(u64, u32)>, ACMError>)
    ensures
        n == 0 <==> r is Err,
        r matches Err(e) ==> e == ACMError::InvalidInput,
        r matches Ok(v) ==> is_prime_factorization(powers_u32(v@), n as nat),
{
    match factor(n) {
        Err(e) => Err(e),
        Ok(pfs) => {
            let mut out: Vec<(u64, u32)> = Vec::new();
            let mut i: usize = 0;
            while i < pfs.len()
                invariant
                    0 <= i <= pfs.len(),
                    is_prime_factorization(powers(pfs@), n as nat),
                    powers_u32(out@) == powers(pfs@).take(i as int),
                decreases pfs.len() - i,
            {
                let (p, e) = pfs[i];
                proof {
                    lemma_prime_power_bounds(powers(pfs@), n as nat, i as int);
                    let model = powers(pfs@);
                    assert(model[i as int] == (p as nat, e as nat));
                    assert(e < 64 && p <= n);
                    assert(powers_u32(out@.push((p, e as u32))) =~= powers_u32(out@).push(
                        (p as nat, e as nat),
                    ));
                    assert(model.take(i + 1) =~= model.take(i as int).push(model[i as int]));
                }
                out.push((p, e as u32));
                i += 1;
            }
            proof {
                assert(powers(pfs@).take(pfs.len() as int) =~= powers(pfs@));
            }
            Ok(out)
        },
    }
}

} // verus!

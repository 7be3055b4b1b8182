//! The errors the library reports.

use vstd::prelude::*;

verus! {

/// Why an operation was refused.
#[derive(Clone, Copy, Debug, PartialEq, Eq, Structural)]
pub enum ACMError {
    /// `a` and its square (the second field) are incongruent modulo `b`, so
    /// `a, a + b, a + 2b, ...` is not closed under multiplication.
    InvalidParameters(u32, u64, u32),
    /// The modulus is zero.
    DivisionByZero,
    /// Zero has no prime factorization.
    InvalidInput,
}

} // verus!

//! Arithmetic congruence monoids: membership, divisors and atomic factorizations.

pub mod acm;
pub mod divisors;
pub mod error;
pub mod factor;
pub mod factorize;
pub mod factorizer;
pub mod integers;
pub mod members;
pub mod monoid;
pub mod number_theory;
pub mod prime_factors;
pub mod traits;

pub use crate::acm::{ACMElementIterator, ArithmeticCongruenceMonoid};
pub use crate::divisors::divisors;
pub use crate::error::ACMError;
pub use crate::factorize::factorize;
pub use crate::integers::{ModClass, GCD};

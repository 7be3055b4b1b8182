//! The neutral elements of addition and multiplication as constants of a type.

use vstd::prelude::*;

verus! {

/// Types with a zero.
pub trait Zero {
    /// The neutral element of addition.
    const ZERO: Self;
}

impl Zero for i32 {
    const ZERO: i32 = 0;
}

/// Types with a one.
pub trait One {
    /// The neutral element of multiplication.
    const ONE: Self;
}

impl One for i32 {
    const ONE: i32 = 1;
}

} // verus!

//! The services that the server offers.

use vstd::prelude::*;

verus! {

/// Whether `v` is a value of `i32`.
pub open spec fn fits_i32(v: int) -> bool {
    i32::MIN <= v <= i32::MAX
}

/// The sum of `a` and `b`.
pub fn add(a: i32, b: i32) -> (res: i32)
    requires
        fits_i32(a + b),
    ensures
        res == a + b,
{
    a + b
}

/// The difference of `a` and `b`.
pub fn subtract(a: i32, b: i32) -> (res: i32)
    requires
        fits_i32(a - b),
    ensures
        res == a - b,
{
    a - b
}

} // verus!

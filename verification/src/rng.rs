//! The uniform random source that the simulation draws from.

use vstd::prelude::*;

verus! {

/// Draws an integer from the process-wide generator.
///
/// Calls `macroquad::rand::gen_range` at `i32`. That function maps a 32-bit
/// draw linearly onto the span between its two arguments and truncates, so for
/// `low <= high` the result lies between them, both ends included. Nothing is
/// claimed about which value in that span comes back.
#[verifier::external_body]
pub(crate) fn gen_range(low: i32, high: i32) -> (r: i32)
    requires
        low <= high,
    ensures
        low <= r <= high,
{
    macroquad::rand::gen_range(low, high)
}

} // verus!

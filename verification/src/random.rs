//! Pseudo-random index selection.
//!
//! A 64-bit xorshift-style mix maps a clock-derived seed to an index.  The
//! mix itself is a pure, fully specified function; only reading the clock is
//! trusted, and nothing is promised about the value it yields.

use vstd::prelude::*;

verus! {

/// The xorshift-style mix: three shift-and-xor steps followed by an odd
/// multiplicative constant, wrapping on overflow.
pub open spec fn mix(x0: u64) -> u64 {
    let x1 = x0 ^ (x0 >> 12);
    let x2 = x1 ^ (x1 << 25);
    let x3 = x2 ^ (x2 >> 27);
    x3.wrapping_mul(0x2545F4914F6CDD1D)
}

/// Compute the mix of a seed.
pub fn mix_exec(x0: u64) -> (r: u64)
    ensures
        r == mix(x0),
{
    let x1 = x0 ^ (x0 >> 12u64);
    let x2 = x1 ^ (x1 << 25u64);
    let x3 = x2 ^ (x2 >> 27u64);
    x3.wrapping_mul(0x2545F4914F6CDD1D)
}

/// Relies on `std::time::SystemTime`: nanoseconds since the epoch, truncated
/// to 64 bits, or zero if the clock sits before the epoch.  Nothing is
/// promised about the value; every caller must cope with any seed.
#[verifier::external_body]
pub(crate) fn time_seed() -> u64 {
    match std::time::SystemTime::now().duration_since(std::time::UNIX_EPOCH) {
        Ok(d) => d.as_nanos() as u64,
        Err(_) => 0,
    }
}

} // verus!

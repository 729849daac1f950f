//! Wiring points in space, joined shortest-distance-first into circuits.
//!
//! The distance ordering works on floating-point lengths, which the
//! verifier refuses, so the circuit building (the day's first part)
//! lives outside the verified library.  The second part of the day asks
//! for nothing yet.

use vstd::prelude::*;

use crate::Error;

verus! {

/// The second part has no assignment: the answer is zero for any input.
pub fn part2(_input: &str) -> (r: Result<u64, Error>)
    ensures
        r == Ok::<u64, Error>(0u64),
{
    Ok(0)
}

} // verus!

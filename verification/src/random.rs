//! The library's single source of randomness.
use vstd::prelude::*;

verus! {

/// Relies on rand::random_range over the inclusive range `1..=sides`: the
/// result is drawn uniformly from that range using the thread-local
/// generator, and the call panics only on an empty range, which the
/// precondition rules out. A die therefore covers the full inclusive range
/// `[1, sides]`; nothing more can be promised of a random value.
#[verifier::external_body]
pub(crate) fn roll_die(sides: i32) -> (r: i32)
    requires
        1 <= sides,
    ensures
        1 <= r <= sides,
{
    rand::random_range(1..=sides)
}

} // verus!

//! Trusted access to the process-wide random source.
//!
//! Tile spawning and the search agents draw from `fastrand`'s thread-local
//! generator.  Nothing is assumed about the values drawn beyond their range;
//! seeding makes the draws of a single-threaded run reproducible.

use vstd::prelude::*;

verus! {

/// Relies on fastrand::seed: resets the thread-local generator to a state
/// determined by `seed` alone, making subsequent draws reproducible.
#[verifier::external_body]
pub(crate) fn seed_rng(seed: u64) {
    fastrand::seed(seed);
}

/// Relies on fastrand::usize: a draw from the range `0 .. n`.  The range
/// must not be empty, since fastrand panics on an empty range.
#[verifier::external_body]
pub(crate) fn rand_below(n: usize) -> (r: usize)
    requires
        n > 0,
    ensures
        r < n,
{
    fastrand::usize(0..n)
}

/// Relies on fastrand::shuffle: a Fisher-Yates pass that permutes the
/// elements in place.
#[verifier::external_body]
pub(crate) fn shuffle_bytes(v: &mut Vec<u8>)
    ensures
        final(v)@.len() == old(v)@.len(),
        final(v)@.to_multiset() == old(v)@.to_multiset(),
        forall|i: int| 0 <= i < final(v)@.len() ==> old(v)@.contains(#[trigger] final(v)@[i]),
{
    fastrand::shuffle(v.as_mut_slice());
}

} // verus!

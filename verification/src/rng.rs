//! Randomness: the one place where the library calls into `rand`.
use vstd::prelude::*;

use rand::seq::SliceRandom;

verus! {

/// Relies on rand's `SliceRandom::shuffle` (a Fisher-Yates shuffle): it
/// permutes the slice in place, so the multiset of elements is unchanged,
/// whatever order comes out.
#[verifier::external_body]
pub(crate) fn shuffle<T>(v: &mut Vec<T>)
    ensures
        final(v)@.to_multiset() == old(v)@.to_multiset(),
{
    v.shuffle(&mut rand::thread_rng());
}

} // verus!

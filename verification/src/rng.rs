//! The shared random source.
//!
//! The core draws randomness for three things: the memberlist shuffle, the
//! insertion position of newly discovered peers, and the choice of indirect
//! ping recipients. Nothing can be promised of an individual draw beyond its
//! range, so every caller is verified for all admissible outcomes.

use rand::seq::SliceRandom;
use rand::Rng;
use vstd::prelude::*;

verus! {

/// Relies on `rand::Rng::gen_range` over `0..=bound`: the result lies in the
/// (never empty) range.
#[verifier::external_body]
pub(crate) fn random_index(bound: usize) -> (r: usize)
    ensures
        r <= bound,
{
    rand::thread_rng().gen_range(0..=bound)
}

/// Relies on `rand::seq::SliceRandom::shuffle`: an in-place uniform
/// permutation of the slice. A permutation keeps the length, the multiset of
/// elements (hence which elements occur), and freedom from duplicates.
#[verifier::external_body]
pub(crate) fn shuffle_ids(v: &mut Vec<u64>)
    ensures
        final(v)@.len() == old(v)@.len(),
        final(v)@.to_multiset() == old(v)@.to_multiset(),
        forall|x: u64| final(v)@.contains(x) <==> old(v)@.contains(x),
        old(v)@.no_duplicates() ==> final(v)@.no_duplicates(),
{
    v.shuffle(&mut rand::thread_rng());
}

} // verus!

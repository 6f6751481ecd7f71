//! The random number generator of `rand`, and what is asked of it.
//!
//! Nothing in this file is proved: each function makes one call into `rand`,
//! and its contract says what holds whatever numbers the generator gives.
use rand::rngs::StdRng;
use rand::seq::SliceRandom;
use rand::SeedableRng;
use vstd::prelude::*;

verus! {

/// The standard generator of `rand`.
#[verifier::external_type_specification]
#[verifier::external_body]
pub struct ExStdRng(StdRng);

/// `StdRng::seed_from_u64`: a generator started from the given seed. Nothing
/// is said of the numbers that it will give.
#[verifier::external_body]
pub(crate) fn seeded_rng(seed: u64) -> (rng: StdRng) {
    StdRng::seed_from_u64(seed)
}

/// `SliceRandom::shuffle`: the pairs are put in some other order by swapping,
/// so that afterwards the list holds the same pairs, each as often as before.
#[verifier::external_body]
pub(crate) fn shuffle_pairs(v: &mut Vec<(usize, usize)>, rng: &mut StdRng)
    ensures
        final(v)@.to_multiset() == old(v)@.to_multiset(),
{
    v.shuffle(rng);
}

} // verus!

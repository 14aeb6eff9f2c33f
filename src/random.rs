//! The random numbers the library draws, all from `rand`'s `SmallRng`.

use vstd::prelude::*;
use rand::rngs::SmallRng;
use rand::seq::IndexedRandom;
use rand::{RngCore, SeedableRng};
use crate::moves::Move;

verus! {

#[verifier::external_type_specification]
#[verifier::external_body]
pub struct ExSmallRng(SmallRng);

/// Relies on `SeedableRng::seed_from_u64` for `SmallRng`: a generator whose
/// stream is fixed by `seed`.
#[verifier::external_body]
pub(crate) fn seeded_rng(seed: u64) -> SmallRng {
    SmallRng::seed_from_u64(seed)
}

/// Relies on `SeedableRng::from_rng` for `SmallRng`, fed by `rand::rng()`: a
/// generator seeded from the thread's entropy source.
#[verifier::external_body]
pub(crate) fn entropy_rng() -> SmallRng {
    SmallRng::from_rng(&mut rand::rng())
}

/// Relies on `RngCore::next_u64` for `SmallRng`: the next number of the
/// stream; nothing is promised of its value.
#[verifier::external_body]
pub(crate) fn next_random(rng: &mut SmallRng) -> u64 {
    rng.next_u64()
}

/// Relies on `IndexedRandom::choose` on a slice: for a non-empty slice it
/// returns an element of it, picked with `rng`.
#[verifier::external_body]
pub(crate) fn choose_move(moves: &Vec<Move>, rng: &mut SmallRng) -> (r: Move)
    requires
        moves@.len() > 0,
    ensures
        moves@.contains(r),
{
    *moves.as_slice().choose(rng).unwrap()
}

} // verus!

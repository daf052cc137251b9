//! Chance, as the crates `rand` and `rand_chacha` give it.

use crate::pubkey::Pubkey;
use rand::distributions::Uniform;
use rand::seq::SliceRandom;
use rand::{Rng, SeedableRng};
use rand_chacha::ChaChaRng;
use vstd::prelude::*;

verus! {

/// Random bytes to seed a generator with.
///
/// Calls `Rng::fill` of `rand` on the generator of the thread. Nothing is claimed
/// of the bytes: any 32 bytes can come.
#[verifier::external_body]
pub(crate) fn random_seed() -> [u8; 32] {
    let mut seed = [0; 32];
    rand::thread_rng().fill(&mut seed[..]);
    seed
}

/// A random number.
///
/// Calls `Rng::gen` of `rand` on the generator of the thread. Nothing is claimed
/// of the number: any number can come.
#[verifier::external_body]
pub(crate) fn random_u64() -> u64 {
    rand::thread_rng().gen()
}

/// Tells yes in `numerator` of `denominator` cases.
///
/// Calls `Rng::gen_ratio` of `rand` on the generator of the thread, which panics
/// where the ratio is not one. It is always yes at a ratio of 1, always no at 0,
/// and either in between.
#[verifier::external_body]
pub(crate) fn random_ratio(numerator: u32, denominator: u32) -> (yes: bool)
    requires
        numerator <= denominator,
        0 < denominator,
    ensures
        numerator == denominator ==> yes,
        numerator == 0 ==> !yes,
{
    rand::thread_rng().gen_ratio(numerator, denominator)
}

/// Puts keys in a random order.
///
/// Calls `SliceRandom::shuffle` of `rand` with the generator of the thread: the
/// same keys are there afterwards, each as often as before, in any order.
#[verifier::external_body]
pub(crate) fn shuffle_keys(keys: &mut Vec<Pubkey>)
    ensures
        final(keys)@.to_multiset() == old(keys)@.to_multiset(),
{
    keys.shuffle(&mut rand::thread_rng())
}

/// The first `count` numbers of `low..high` that the ChaCha generator of
/// `rand_chacha`, seeded with `seed`, draws.
pub uninterp spec fn drawn(seed: Seq<u8>, low: u64, high: u64, count: nat) -> Seq<u64>;

/// Draws `count` numbers of `low..high` from a seeded generator.
///
/// Calls `Rng::sample_iter` of `rand` with the uniform distribution over
/// `low..high`, on `ChaChaRng::from_seed(seed)` of `rand_chacha`, a generator that gives
/// the same numbers on every machine. The numbers depend on the arguments alone, and each
/// is in the range. `Uniform::new` panics where the range is empty.
#[verifier::external_body]
pub(crate) fn draw_seeded(seed: &[u8; 32], low: u64, high: u64, count: usize) -> (draws: Vec<u64>)
    requires
        low < high,
    ensures
        draws@ == drawn(seed@, low, high, count as nat),
        draws@.len() == count,
        forall|i: int| 0 <= i < count ==> low <= #[trigger] draws@[i] < high,
{
    ChaChaRng::from_seed(*seed).sample_iter(Uniform::new(low, high)).take(count).collect()
}

} // verus!

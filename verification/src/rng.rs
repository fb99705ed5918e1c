//! The engine's only source of randomness: a caller-supplied `StdRng`,
//! reached through two trusted wrappers. Nothing is assumed of the values
//! drawn beyond their range, so every caller is verified for every outcome.

use rand::distr::Distribution;
use rand::Rng;
use vstd::prelude::*;

use crate::model::sum_entry_weights;
use crate::tile::Tile;

verus! {

/// The caller-supplied pseudo-random generator. Its state is opaque to the
/// library; the engine never seeds or reseeds it.
#[verifier::external_type_specification]
#[verifier::external_body]
pub struct ExStdRng(rand::rngs::StdRng);

/// Relies on rand's `Rng::random_range` over `0..n`: it panics only on an
/// empty range and returns a value of the range.
#[verifier::external_body]
pub(crate) fn rand_index(rng: &mut rand::rngs::StdRng, n: usize) -> (r: usize)
    requires
        n >= 1,
    ensures
        r < n,
{
    rng.random_range(0..n)
}

/// Relies on rand's `WeightedIndex::new` and `Distribution::sample`: `new`
/// succeeds on a non-empty `u32` weight list whose sum is neither zero nor
/// overflowing, and `sample` returns an index below the list's length.
#[verifier::external_body]
pub(crate) fn rand_weighted(rng: &mut rand::rngs::StdRng, entries: &Vec<(u32, Tile)>) -> (r: usize)
    requires
        entries@.len() >= 1,
        1 <= sum_entry_weights(entries@) <= u32::MAX,
    ensures
        r < entries@.len(),
{
    let weights = entries.iter().map(|(weight, _)| weight);
    let distribution = rand::distr::weighted::WeightedIndex::new(weights).unwrap();
    distribution.sample(rng)
}

} // verus!

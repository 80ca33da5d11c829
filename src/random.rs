use vstd::prelude::*;
use rand::rngs::StdRng;
use crate::ratio::sum;

verus! {

#[verifier::external_type_specification]
#[verifier::external_body]
pub struct ExStdRng(rand::rngs::StdRng);

/// Relies on rand's `SeedableRng::seed_from_u64`: builds a generator from a seed.
#[verifier::external_body]
pub(crate) fn seeded(seed: u64) -> (r: StdRng) {
    <StdRng as rand::SeedableRng>::seed_from_u64(seed)
}

/// Relies on rand's `Rng::gen_range` over `0..n`, which yields a value below `n`
/// (and panics on an empty range, which `requires` leaves out).
#[verifier::external_body]
pub(crate) fn draw_below(rng: &mut StdRng, n: u64) -> (r: u64)
    requires
        n > 0,
    ensures
        r < n,
{
    rand::Rng::gen_range(rng, 0..n)
}

/// Relies on rand's `WeightedIndex::new` and its `Distribution::sample`: `new`
/// fails exactly when there is no weight or the weights add up to 0; otherwise a
/// sample is the index of an item whose weight is positive (each item owns the
/// interval of its weight in the running total).
#[verifier::external_body]
pub(crate) fn draw_weighted(rng: &mut StdRng, weights: &Vec<u64>) -> (r: Option<usize>)
    requires
        sum(weights@) <= u64::MAX,
    ensures
        r is None <==> (weights@.len() == 0 || sum(weights@) == 0),
        r matches Some(i) ==> i < weights@.len() && weights@[i as int] > 0,
{
    match rand::distributions::WeightedIndex::new(weights) {
        Ok(d) => Some(rand::distributions::Distribution::sample(&d, rng)),
        Err(_) => None,
    }
}

} // verus!

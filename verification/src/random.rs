//! Random choices, drawn from a generator that the caller hands in.
//!
//! The draws themselves are `rand`'s. The wrappers here say of a draw only
//! what holds whatever number comes out.

use rand::distributions::Distribution;
use rand::distributions::WeightedIndex;
use rand::rngs::StdRng;
use rand::Rng;
use vstd::prelude::*;

verus! {

#[verifier::external_type_specification]
#[verifier::external_body]
pub struct ExStdRng(StdRng);

/// Whether some weight is above zero.
pub open spec fn some_positive(weights: Seq<u32>) -> bool {
    exists|i: int| 0 <= i < weights.len() && #[trigger] weights[i] > 0
}

/// `WeightedIndex::new` over the weights, then one `sample` from it.
///
/// `new` fails where there is no weight or where all are zero; then the
/// result is `None` and nothing is drawn. Otherwise the draw is an index
/// into the weights, and never one whose weight is zero. The weights are
/// summed as `u128`, so the sum cannot overflow.
#[verifier::external_body]
pub(crate) fn weighted_index(rng: &mut StdRng, weights: &Vec<u32>) -> (r: Option<usize>)
    ensures
        r.is_some() == some_positive(weights@),
        r matches Some(i) ==> i < weights.len() && weights[i as int] > 0,
{
    match WeightedIndex::new(weights.iter().map(|w| u128::from(*w))) {
        Ok(distribution) => Some(distribution.sample(rng)),
        Err(_) => None,
    }
}

/// `Rng::gen_range` over `0..n`: some index below `n`.
#[verifier::external_body]
pub(crate) fn uniform_index(rng: &mut StdRng, n: usize) -> (r: usize)
    requires
        n > 0,
    ensures
        r < n,
{
    rng.gen_range(0..n)
}

} // verus!

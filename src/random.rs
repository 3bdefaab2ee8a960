use vstd::prelude::*;

use crate::node::Node;

verus! {

/// Relies on rand's `Uniform::new(0, bound)`, sampled once with `thread_rng`:
/// the value lies in `[0, bound)`. `Uniform::new` panics when `bound == 0`.
#[verifier::external_body]
pub(crate) fn random_below(bound: u128) -> (r: u128)
    requires
        bound > 0,
    ensures
        r < bound,
{
    rand::distributions::Distribution::sample(
        &rand::distributions::Uniform::new(0u128, bound),
        &mut rand::thread_rng(),
    )
}

/// Relies on rand's `SliceRandom::shuffle` with `thread_rng`: the slice is
/// reordered in place by swaps, so it holds the same points as before.
#[verifier::external_body]
pub(crate) fn shuffle_nodes(v: &mut Vec<Node>)
    ensures
        final(v)@.to_multiset() == old(v)@.to_multiset(),
{
    rand::seq::SliceRandom::shuffle(v.as_mut_slice(), &mut rand::thread_rng());
}

} // verus!

//! Chance, as the protocol needs it: a number below a bound, and a shuffle.
//! Both come from the `rand` crate and are not verified here.

use rand::Rng;
use rand::seq::SliceRandom;
use vstd::prelude::*;
use crate::peer::Peer;

verus! {

/// Calls `Rng::gen_range` of `rand` on the thread's generator, with the
/// range from 0 to `bound`, `bound` left out. `gen_range` panics on an empty
/// range, hence the `requires`. The contract claims that the number drawn
/// lies in the range, and nothing on how it is spread.
#[verifier::external_body]
pub(crate) fn random_below(bound: u64) -> (drawn: u64)
    requires
        bound > 0,
    ensures
        drawn < bound,
{
    rand::thread_rng().gen_range(0..bound)
}

/// Calls `SliceRandom::shuffle` of `rand` on the thread's generator. The
/// shuffle swaps elements of the slice and does nothing else, so the
/// contract claims that the peers afterwards are the peers before, in some
/// order.
#[verifier::external_body]
pub(crate) fn shuffle(peers: &mut Vec<Peer>)
    ensures
        final(peers).deep_view().to_multiset() == old(peers).deep_view().to_multiset(),
{
    peers.shuffle(&mut rand::thread_rng());
}

} // verus!

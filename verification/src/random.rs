//! The source of chance for the mine placement.

use vstd::prelude::*;
use crate::layout::valid_draws;

verus! {

/// The generator type of `rand`'s thread-local generator, carried
/// through without a look inside.
#[verifier::external_type_specification]
#[verifier::external_body]
pub struct ExThreadRng(rand::rngs::ThreadRng);

/// `rand::thread_rng` hands out the calling thread's generator, which
/// the system seeds.  Nothing is claimed of it.
pub assume_specification[ rand::thread_rng ]() -> (rng: rand::rngs::ThreadRng);

/// Calls `rand::Rng::gen_range` on the range `0..bound`.  The claim is
/// the one of its documentation: the value lies in the range.  An empty
/// range makes it panic, so `bound` must not be zero.
#[verifier::external_body]
fn gen_below(rng: &mut rand::rngs::ThreadRng, bound: usize) -> (r: usize)
    requires
        bound > 0,
    ensures
        r < bound,
{
    rand::Rng::gen_range(rng, 0..bound)
}

/// Draws the places of `count` mines among `total` cells: the `k`-th
/// draw is below the number of cells that are left after `k` picks.
pub(crate) fn random_draws(count: usize, total: usize) -> (draws: Vec<usize>)
    requires
        count <= total,
    ensures
        valid_draws(total as nat, draws@, count as nat),
{
    let mut rng = rand::thread_rng();
    let mut draws: Vec<usize> = Vec::new();
    let mut k: usize = 0;
    while k < count
        invariant
            k <= count,
            count <= total,
            draws@.len() == k,
            forall|j: int| 0 <= j < k ==> (#[trigger] draws@[j]) < total - j,
        decreases count - k,
    {
        let d = gen_below(&mut rng, total - k);
        draws.push(d);
        k += 1;
    }
    draws
}

} // verus!

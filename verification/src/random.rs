//! The random source: the thread-local generator of the `rand` crate.
//!
//! Nothing in this file is proved.  Each contract states what holds of every
//! outcome of the call it describes.

use rand::rngs::ThreadRng;
use rand::seq::SliceRandom;
use rand::Rng;
use vstd::prelude::*;

verus! {

/// `rand::rngs::ThreadRng`, a handle to the generator of the current thread.
#[verifier::external_type_specification]
#[verifier::external_body]
pub struct ExThreadRng(ThreadRng);

/// `rand::rng`: hands out the generator of the current thread.  Nothing is
/// claimed of it.
#[verifier::external_body]
pub(crate) fn thread_rng() -> (rng: ThreadRng) {
    rand::rng()
}

/// `SliceRandom::shuffle` on a slice of cells: the cells are reordered in
/// place by swaps, so the same cells are there afterwards, each as often as
/// before.  Nothing is claimed of their order.
#[verifier::external_body]
pub(crate) fn shuffle_cells(cells: &mut Vec<(usize, usize)>, rng: &mut ThreadRng)
    ensures
        final(cells)@.to_multiset() == old(cells)@.to_multiset(),
{
    cells.shuffle(rng);
}

/// `Rng::random_range` on `0..bound`: some index below `bound`.  The call
/// panics on an empty range, which `bound > 0` leaves out.
#[verifier::external_body]
pub(crate) fn random_below(rng: &mut ThreadRng, bound: usize) -> (draw: usize)
    requires
        bound > 0,
    ensures
        draw < bound,
{
    rng.random_range(0..bound)
}

} // verus!

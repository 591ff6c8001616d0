//! The random choices of the sifters, drawn from `rand`'s thread-local
//! generator. Nothing here is proved: each contract states what the source
//! of the function called shows of every outcome.

use vstd::prelude::*;
use rand::Rng;
use rand::rngs::ThreadRng;
use rand::seq::SliceRandom;

verus! {

/// `rand::rngs::ThreadRng`, the handle on the generator of the calling
/// thread. Nothing is known of what is inside.
#[verifier::external_type_specification]
#[verifier::external_body]
pub struct ExThreadRng(ThreadRng);

/// `rand::thread_rng` hands out the generator of the calling thread. Nothing
/// is claimed of it. The call panics where the system has no randomness to
/// seed the generator with.
pub assume_specification[ rand::thread_rng ]() -> ThreadRng;

/// `SliceRandom::shuffle` on the slice of the vector: a sequence of swaps,
/// so the vector holds afterwards the entries that it held, each as often
/// as before.
#[verifier::external_body]
pub(crate) fn shuffle(v: &mut Vec<usize>, rng: &mut ThreadRng)
    ensures
        final(v)@.to_multiset() == old(v)@.to_multiset(),
{
    v.shuffle(rng);
}

/// `SliceRandom::choose` on the slice of the vector: `None` for an empty
/// slice, otherwise the entry at some index of it.
#[verifier::external_body]
pub(crate) fn choose_from(v: &Vec<usize>, rng: &mut ThreadRng) -> (picked: Option<usize>)
    ensures
        v@.len() == 0 ==> picked is None,
        v@.len() > 0 ==> picked is Some && v@.contains(picked->0),
{
    v.choose(rng).copied()
}

/// `Rng::gen_range` on the range `0..bound`: some value of that range. The
/// call panics on an empty range, which `requires` leaves out.
#[verifier::external_body]
pub(crate) fn random_below(rng: &mut ThreadRng, bound: usize) -> (r: usize)
    requires
        bound > 0,
    ensures
        r < bound,
{
    rng.gen_range(0..bound)
}

} // verus!

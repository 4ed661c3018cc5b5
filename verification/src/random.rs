//! The random draws that the search makes, each behind a contract that
//! holds of every outcome.

use rand::rngs::ThreadRng;
use rand::Rng;
use vstd::prelude::*;

verus! {

/// `rand::rngs::ThreadRng`, carried through as it is.
#[verifier::external_type_specification]
#[verifier::external_body]
pub struct ExThreadRng(rand::rngs::ThreadRng);

/// `rand::thread_rng`: the generator of the current thread. Nothing is
/// claimed of it.
#[verifier::external_body]
pub(crate) fn local_rng() -> ThreadRng {
    rand::thread_rng()
}

/// `Rng::gen_range` with a lower bound of zero: a number from zero up to,
/// not including, `n`. The outside function panics where the range is
/// empty, so `n` is positive.
#[verifier::external_body]
pub(crate) fn random_below(rng: &mut ThreadRng, n: usize) -> (r: usize)
    requires
        n > 0,
    ensures
        r < n,
{
    rng.gen_range(0, n)
}

/// `Rng::shuffle`: the items are exchanged among their places, so the
/// same items are there afterwards, each as often as before.
#[verifier::external_body]
pub(crate) fn shuffle<T>(rng: &mut ThreadRng, values: &mut Vec<T>)
    ensures
        final(values)@.to_multiset() == old(values)@.to_multiset(),
{
    rng.shuffle(values)
}

} // verus!

//! Random choices.
use vstd::prelude::*;
use rand::rngs::ThreadRng;
use rand::seq::SliceRandom;
use rand::Rng;

verus! {

/// The random number generator of the thread, of `rand`.
#[verifier::external_type_specification]
#[verifier::external_body]
pub struct ExThreadRng(ThreadRng);

/// `rand::thread_rng` hands out the generator of the thread; nothing is
/// known of its state.
#[verifier::external_body]
pub(crate) fn thread_rng() -> (rng: ThreadRng) {
    rand::thread_rng()
}

/// `Rng::gen_ratio` returns `true` with the chance `numerator` in
/// `denominator`; nothing is known of the outcome.
#[verifier::external_body]
pub(crate) fn coin(rng: &mut ThreadRng, numerator: u32, denominator: u32) -> (heads: bool)
    requires
        denominator > 0,
        numerator <= denominator,
{
    rng.gen_ratio(numerator, denominator)
}

/// `Rng::gen_range` over `0..bound` returns a number below `bound`.
#[verifier::external_body]
pub(crate) fn below(rng: &mut ThreadRng, bound: usize) -> (n: usize)
    requires
        bound > 0,
    ensures
        n < bound,
{
    rng.gen_range(0..bound)
}

/// `SliceRandom::choose` returns one of the elements of the slice, or none
/// if the slice is empty.
#[verifier::external_body]
pub(crate) fn pick(rng: &mut ThreadRng, from: &Vec<usize>) -> (chosen: Option<usize>)
    ensures
        from.len() == 0 ==> chosen is None,
        from.len() > 0 ==> chosen is Some && from@.contains(chosen->0),
{
    from.choose(rng).copied()
}

} // verus!

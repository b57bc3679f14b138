//! The random source that passphrases are drawn from.

use vstd::prelude::*;

verus! {

/// The generator of the `rand` crate that each thread owns. Nothing is known
/// of its state.
#[verifier::external_type_specification]
#[verifier::external_body]
pub struct ExThreadRng(rand::rngs::ThreadRng);

/// A handle to the calling thread's generator.
///
/// Trusted: stands for `rand::thread_rng`. Nothing is claimed of the handle.
#[verifier::external_body]
pub(crate) fn thread_source() -> rand::rngs::ThreadRng {
    rand::thread_rng()
}

/// A number drawn from `0..bound`.
///
/// Trusted: stands for `rand::Rng::gen_range` on a half-open range of
/// `usize`, which panics on an empty range and otherwise returns a member of
/// the range. Which member is not claimed: two draws may differ.
#[verifier::external_body]
pub(crate) fn draw_below(source: &mut rand::rngs::ThreadRng, bound: usize) -> (drawn: usize)
    requires
        bound > 0,
    ensures
        drawn < bound,
{
    rand::Rng::gen_range(source, 0..bound)
}

} // verus!

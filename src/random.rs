use rand::rngs::ThreadRng;
use rand::Rng;
use vstd::prelude::*;

verus! {

/// The random generator of the current thread, from the `rand` crate.
#[verifier::external_type_specification]
#[verifier::external_body]
pub struct ExThreadRng(ThreadRng);

/// Relies on rand::thread_rng, which hands out a handle on the thread's generator.
pub assume_specification[ rand::thread_rng ]() -> ThreadRng;

/// Relies on rand's Rng::gen_range: with a half-open range, a value inside
/// it; it panics only on an empty range.
#[verifier::external_body]
pub(crate) fn random_below(rng: &mut ThreadRng, bound: usize) -> (r: usize)
    requires
        bound > 0,
    ensures
        r < bound,
{
    rng.gen_range(0..bound)
}

/// Relies on rand's Rng::gen_range: with an inclusive range of characters,
/// a character between its two ends; it panics only on an empty range.
#[verifier::external_body]
pub(crate) fn random_char(rng: &mut ThreadRng, lo: char, hi: char) -> (r: char)
    requires
        lo <= hi,
    ensures
        lo <= r <= hi,
{
    rng.gen_range(lo..=hi)
}

} // verus!

//! The source of randomness: the thread-local generator of the `rand`
//! crate. Nothing in this file is proved. Each contract states what `rand`
//! documents, and the rest of the library rests on it.

use rand::Rng;
use vstd::prelude::*;

verus! {

/// `rand::rngs::ThreadRng`, a handle to the generator of the current
/// thread. What it holds is hidden from the verifier.
#[verifier::external_type_specification]
#[verifier::external_body]
pub struct ExThreadRng(rand::rngs::ThreadRng);

/// `rand::thread_rng`: the handle to the generator of the calling thread,
/// which the system seeds when the thread first asks for it. Nothing is
/// claimed of the handle. The call panics where the system has no seed to
/// give.
#[verifier::external_body]
pub(crate) fn thread_rng() -> (rng: rand::rngs::ThreadRng) {
    rand::thread_rng()
}

/// `rand::Rng::gen_ratio` on the thread's generator: a draw that is `true`
/// with a chance of `numerator` in `denominator`. The call panics on a
/// denominator of zero and on a numerator above the denominator, so both
/// are kept out. Of the draw only that is claimed which holds of every
/// draw: it is `false` when the numerator is zero, and `true` when
/// numerator and denominator are equal. How often it is `true` in between
/// is not said here.
#[verifier::external_body]
pub(crate) fn gen_ratio(
    rng: &mut rand::rngs::ThreadRng,
    numerator: u32,
    denominator: u32,
) -> (hit: bool)
    requires
        denominator > 0,
        numerator <= denominator,
    ensures
        numerator == 0 ==> !hit,
        numerator == denominator ==> hit,
{
    rng.gen_ratio(numerator, denominator)
}

} // verus!

//! The one place where chance enters: integers drawn from a seedable
//! generator.
use rand::rngs::StdRng;
use rand::Rng;
use vstd::prelude::*;

verus! {

/// `rand::rngs::StdRng`, declared so that a generator can be handed
/// through to where a number is drawn. Nothing is known of its state.
#[verifier::external_type_specification]
#[verifier::external_body]
pub struct ExStdRng(StdRng);

/// Draws one integer with `rand::Rng::gen_range` on the inclusive range
/// `low..=high`. That function panics on an empty range, which `requires`
/// leaves out, and returns a value of the range; which one depends on the
/// state of the generator, so nothing more is claimed of it.
#[verifier::external_body]
pub(crate) fn draw(rng: &mut StdRng, low: i64, high: i64) -> (r: i64)
    requires
        low <= high,
    ensures
        low <= r <= high,
{
    rng.gen_range(low..=high)
}

} // verus!

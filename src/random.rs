use vstd::prelude::*;
use rand::rngs::StdRng;
use rand::Rng;

verus! {

/// rand's seedable generator, carried through as an opaque value.
#[verifier::external_type_specification]
#[verifier::external_body]
pub struct ExStdRng(StdRng);

/// Relies on rand's `Rng::gen_range`: on a non-empty half-open range it
/// returns a value inside the range (it panics only on an empty one).
#[verifier::external_body]
pub(crate) fn random_in(rng: &mut StdRng, low: i64, high: i64) -> (r: i64)
    requires
        low < high,
    ensures
        low <= r < high,
{
    rng.gen_range(low..high)
}

} // verus!

use rand::Rng;
use vstd::prelude::*;

verus! {

/// Relies on rand's `thread_rng().gen_range(min..max)`: a value drawn from the
/// half-open range `[min, max)`, which must not be empty (it panics otherwise).
#[verifier::external_body]
pub(crate) fn generate_random_number(min: usize, max: usize) -> (r: usize)
    requires
        min < max,
    ensures
        min <= r < max,
{
    rand::thread_rng().gen_range(min..max)
}

} // verus!

use vstd::prelude::*;
use rand::Rng;

verus! {

#[verifier::external_type_specification]
#[verifier::external_body]
pub struct ExThreadRng(rand::rngs::ThreadRng);

/// Relies on rand's `Rng::gen_range`: a value drawn from `[lo, hi)`; it
/// panics when `lo >= hi`, which `requires` rules out.
#[verifier::external_body]
pub(crate) fn draw_between(rng: &mut rand::rngs::ThreadRng, lo: i32, hi: i32) -> (r: i32)
    requires
        lo < hi,
    ensures
        lo <= r < hi,
{
    rng.gen_range(lo, hi)
}

} // verus!

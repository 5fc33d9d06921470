use vstd::prelude::*;
use rand::Rng;
use rand::SeedableRng;
use rand_xorshift::XorShiftRng;

verus! {

/// The small-state generator that drives tree building, as the outside
/// crate defines it; its state is opaque here.
#[verifier::external_type_specification]
#[verifier::external_body]
pub struct ExXorShiftRng(XorShiftRng);

/// Relies on rand_core::SeedableRng::seed_from_u64 for
/// rand_xorshift::XorShiftRng: builds a generator from the seed.  Nothing is
/// claimed of the state.
#[verifier::external_body]
pub(crate) fn rng_from_seed(seed: u64) -> XorShiftRng {
    XorShiftRng::seed_from_u64(seed)
}

/// Relies on rand::Rng::gen_range over `0..n`: the draw lies below `n`, and
/// the call returns because the range is not empty.  The range is drawn at
/// 32-bit width where `n` fits, as rand's own slice chooser draws its
/// indices.  Which index comes back is not claimed; two calls on equal
/// arguments may differ.
#[verifier::external_body]
pub(crate) fn rand_below(rng: &mut XorShiftRng, n: usize) -> (r: usize)
    requires
        n > 0,
    ensures
        r < n,
{
    if n <= (u32::MAX as usize) {
        rng.gen_range(0..n as u32) as usize
    } else {
        rng.gen_range(0..n)
    }
}

} // verus!

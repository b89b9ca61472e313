use vstd::prelude::*;
use rand::rngs::StdRng;

verus! {

/// `rand::rngs::StdRng`, carried through verified code as an opaque value.
#[verifier::external_type_specification]
#[verifier::external_body]
pub struct ExStdRng(StdRng);

/// Calls `rand::SeedableRng::seed_from_u64`; nothing is claimed of the
/// generator's state.
#[verifier::external_body]
pub(crate) fn seeded_rng(seed: u64) -> StdRng {
    <StdRng as rand::SeedableRng>::seed_from_u64(seed)
}

/// Calls `rand::Rng::gen_ratio(rng, 1, 2)`, a fair coin; which side comes
/// up depends on the generator and is not stated.
#[verifier::external_body]
pub(crate) fn fair_coin(rng: &mut StdRng) -> bool {
    rand::Rng::gen_ratio(rng, 1, 2)
}

/// Calls `rand::Rng::gen_range(rng, 0..n)`, which panics on an empty range
/// and otherwise returns a value inside it.
#[verifier::external_body]
pub(crate) fn index_below(rng: &mut StdRng, n: usize) -> (r: usize)
    requires
        n > 0,
    ensures
        r < n,
{
    rand::Rng::gen_range(rng, 0..n)
}

} // verus!

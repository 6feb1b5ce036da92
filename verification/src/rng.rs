//! Trusted boundary to the `rand` crate: the standard random generator is
//! declared as an opaque type, and the few calls the planners make are
//! wrapped with exact range contracts.

use vstd::prelude::*;

verus! {

/// `rand::rngs::StdRng` declared opaquely, so that library types can hold a
/// seeded random generator and pass it by `&mut`.
#[verifier::external_type_specification]
#[verifier::external_body]
pub struct ExStdRng(rand::rngs::StdRng);

/// Relies on `rand::SeedableRng::seed_from_u64`: builds a deterministically
/// seeded generator. Nothing is assumed about the generator's state.
#[verifier::external_body]
pub(crate) fn rng_from_seed(seed: u64) -> rand::rngs::StdRng {
    <rand::rngs::StdRng as rand::SeedableRng>::seed_from_u64(seed)
}

/// Relies on `rand::Rng::gen_range` over `lo..hi`: it panics only on an
/// empty range (excluded by the precondition) and returns a member of the
/// range. Which member comes back is left open.
#[verifier::external_body]
pub(crate) fn rand_index(rng: &mut rand::rngs::StdRng, lo: usize, hi: usize) -> (r: usize)
    requires
        lo < hi,
    ensures
        lo <= r < hi,
{
    rand::Rng::gen_range(rng, lo..hi)
}

/// Relies on `rand::Rng::gen_range` over `lo..=hi`: it panics only on an
/// empty range (excluded by the precondition) and returns a member of the
/// inclusive range. Which member comes back is left open.
#[verifier::external_body]
pub(crate) fn rand_coord(rng: &mut rand::rngs::StdRng, lo: i64, hi: i64) -> (r: i64)
    requires
        lo <= hi,
    ensures
        lo <= r <= hi,
{
    rand::Rng::gen_range(rng, lo..=hi)
}

} // verus!

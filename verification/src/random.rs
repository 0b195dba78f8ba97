//! Random numbers for the picks that the programs make: a generator seeded
//! by the operating system, and a number drawn below a bound.
use vstd::prelude::*;
use rand::rngs::StdRng;

verus! {

#[verifier::external_type_specification]
#[verifier::external_body]
pub struct ExStdRng(StdRng);

/// `rand`'s `SeedableRng::from_rng` for `StdRng`, seeded from the
/// operating system's generator `OsRng`: `None` when the operating system
/// cannot supply a seed (`from_rng` returns the error rather than
/// panicking). Nothing is stated of the generator's state.
#[verifier::external_body]
fn os_seeded_rng() -> (r: Option<StdRng>) {
    <StdRng as rand::SeedableRng>::from_rng(rand::rngs::OsRng).ok()
}

/// `rand`'s `SeedableRng::seed_from_u64` for `StdRng`: a generator seeded
/// from `seed`, which cannot fail. Nothing is stated of its state.
#[verifier::external_body]
fn seeded_rng(seed: u64) -> StdRng {
    <StdRng as rand::SeedableRng>::seed_from_u64(seed)
}

/// The seed used when the operating system supplies none.
pub const FALLBACK_SEED: u64 = 0x5eed;

/// A generator seeded by the operating system, or from a fixed seed when
/// the operating system supplies none; never panics.
pub(crate) fn fresh_rng() -> StdRng {
    match os_seeded_rng() {
        Some(rng) => rng,
        None => seeded_rng(FALLBACK_SEED),
    }
}

/// `rand`'s `Rng::gen_range` over `0..bound`: a number drawn below `bound`.
/// `gen_range` panics on an empty range, hence `bound > 0`. Which number
/// comes back is left open.
#[verifier::external_body]
pub(crate) fn below(rng: &mut StdRng, bound: usize) -> (r: usize)
    requires
        bound > 0,
    ensures
        r < bound,
{
    rand::Rng::gen_range(rng, 0..bound)
}

} // verus!

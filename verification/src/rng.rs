//! Deterministic random draws for the turbine shuffle.
//!
//! Peer selection must be reproducible across validators: every node derives
//! the same ChaCha20 stream from the same 32-byte seed and therefore makes
//! the same sequence of bounded draws.  The stream cipher lives in an outside
//! crate; this module wraps it so that the rest of the library can reason
//! about each draw as a pure function of the seed and of the bounds drawn
//! before it.

use vstd::prelude::*;
use rand::Rng;
use rand::SeedableRng;

verus! {

#[verifier::external_type_specification]
#[verifier::external_body]
pub struct ExChaCha20Rng(rand_chacha::ChaCha20Rng);

/// The seed a `ChaCha20Rng` value was created from.  The stream state is
/// opaque; this and `rng_draws` say what it holds, the way a collection's
/// contents are named.
pub uninterp spec fn rng_seed(rng: rand_chacha::ChaCha20Rng) -> Seq<u8>;

/// The bounds of the draws already taken from a `ChaCha20Rng` value, oldest
/// first.
pub uninterp spec fn rng_draws(rng: rand_chacha::ChaCha20Rng) -> Seq<u64>;

/// What a fresh ChaCha20 stream seeded with `seed` yields for a draw bounded
/// by `bound` once the draws whose bounds are listed in `draws` have been
/// consumed.  ChaCha20 and the bounded-draw reduction are deterministic, so
/// this is a function of the three arguments alone.
pub uninterp spec fn chacha_below(seed: Seq<u8>, draws: Seq<u64>, bound: u64) -> u64;

/// Relies on `rand_chacha::ChaCha20Rng::from_seed`: seeding is deterministic
/// and consumes nothing from the stream.
#[verifier::external_body]
pub fn chacha_from_seed(seed: &[u8; 32]) -> (rng: rand_chacha::ChaCha20Rng)
    ensures
        rng_seed(rng) == seed@,
        rng_draws(rng) == Seq::<u64>::empty(),
{
    rand_chacha::ChaCha20Rng::from_seed(*seed)
}

/// Relies on `rand::Rng::gen_range(0..bound)`: the result lies below `bound`,
/// and on a ChaCha20 stream it is a deterministic function of the seed and of
/// the bounds drawn before, which `chacha_below` names.  An empty range
/// panics, hence the requirement on `bound`.
#[verifier::external_body]
pub fn chacha_gen_below(rng: &mut rand_chacha::ChaCha20Rng, bound: u64) -> (r: u64)
    requires
        bound >= 1,
    ensures
        r < bound,
        r == chacha_below(rng_seed(*old(rng)), rng_draws(*old(rng)), bound),
        rng_seed(*final(rng)) == rng_seed(*old(rng)),
        rng_draws(*final(rng)) == rng_draws(*old(rng)).push(bound),
{
    rng.gen_range(0..bound)
}

/// Relies on `rand::random::<u8>`: an arbitrary byte; nothing can be promised
/// of its value.
#[verifier::external_body]
pub fn random_u8() -> u8 {
    rand::random::<u8>()
}

} // verus!

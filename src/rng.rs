//! The random-number generator: ChaCha20, seeded either from a derived key (to build the
//! permutation deterministically) or from the operating system (to draw nonces).

use vstd::prelude::*;

verus! {

#[verifier::external_type_specification]
#[verifier::external_body]
pub struct ExChaCha20Rng(rand_chacha::ChaCha20Rng);

/// Relies on rand_core's `SeedableRng::from_seed` for rand_chacha's `ChaCha20Rng`: a generator
/// whose whole output stream is fixed by the 32-byte seed.
#[verifier::external_body]
pub(crate) fn seeded_rng(seed: &[u8]) -> (r: rand_chacha::ChaCha20Rng)
    requires
        seed@.len() == 32,
{
    let mut s = [0u8; 32];
    s.copy_from_slice(seed);
    <rand_chacha::ChaCha20Rng as rand::SeedableRng>::from_seed(s)
}

/// Relies on rand_core's `SeedableRng::from_rng` with rand's `OsRng`: a generator seeded from
/// system entropy, or `None` when the operating system could not provide any.
#[verifier::external_body]
pub(crate) fn entropy_rng() -> (r: Option<rand_chacha::ChaCha20Rng>) {
    <rand_chacha::ChaCha20Rng as rand::SeedableRng>::from_rng(rand::rngs::OsRng).ok()
}

/// The value that rand's `gen_range(0..w)` gives from a ChaCha20 generator seeded with `seed`
/// after `i` earlier draws of `gen_range(0..w)` from it.
pub uninterp spec fn chacha_draw(seed: Seq<u8>, w: u16, i: nat) -> u16;

/// A ChaCha20 generator seeded from 32 bytes and used only for draws from `[0, w)`, one `w` for
/// its whole life, together with its seed and the number of draws made so far.
pub struct BoundedDraws {
    /// The generator.
    rng: rand_chacha::ChaCha20Rng,
    /// The bound of every draw.
    bound: u16,
    /// The seed the generator was created from.
    seed: Ghost<Seq<u8>>,
    /// How many draws have been made.
    drawn: Ghost<nat>,
}

impl BoundedDraws {
    /// The seed the generator was created from.
    pub closed spec fn seed(&self) -> Seq<u8> {
        self.seed@
    }

    /// The bound of every draw.
    pub closed spec fn bound(&self) -> u16 {
        self.bound
    }

    /// How many draws have been made.
    pub closed spec fn drawn(&self) -> nat {
        self.drawn@
    }
}

/// Relies on rand_core's `SeedableRng::from_seed` for rand_chacha's `ChaCha20Rng`: a fresh
/// generator from the 32-byte seed, from which no draw has been made yet.
#[verifier::external_body]
pub(crate) fn start_draws(seed: &[u8], w: u16) -> (r: BoundedDraws)
    requires
        seed@.len() == 32,
    ensures
        r.seed() == seed@,
        r.bound() == w,
        r.drawn() == 0,
{
    let mut s = [0u8; 32];
    s.copy_from_slice(seed);
    let rng = <rand_chacha::ChaCha20Rng as rand::SeedableRng>::from_seed(s);
    BoundedDraws { rng, bound: w, seed: Ghost(seed@), drawn: Ghost(0) }
}

/// Relies on rand's `Rng::gen_range`: the next value drawn from `[0, w)`, which is fixed by the
/// seed and the number of earlier draws from `[0, w)`.
#[verifier::external_body]
pub(crate) fn next_draw(g: &mut BoundedDraws) -> (r: u16)
    requires
        old(g).bound() > 0,
    ensures
        r == chacha_draw(old(g).seed(), old(g).bound(), old(g).drawn()),
        r < old(g).bound(),
        final(g).seed() == old(g).seed(),
        final(g).bound() == old(g).bound(),
        final(g).drawn() == old(g).drawn() + 1,
{
    let r = rand::Rng::gen_range(&mut g.rng, 0..g.bound);
    g.drawn = Ghost(g.drawn@ + 1);
    r
}

/// Relies on rand_core's `RngCore::fill_bytes`: 16 bytes from the generator.
#[verifier::external_body]
pub(crate) fn draw_nonce(rng: &mut rand_chacha::ChaCha20Rng) -> (r: [u8; 16]) {
    let mut r = [0u8; 16];
    rand::RngCore::fill_bytes(rng, &mut r);
    r
}

} // verus!

//! Random bytes from the operating system.

use vstd::prelude::*;

verus! {

/// `N` random bytes.
#[derive(Debug, PartialEq, Eq, PartialOrd, Ord)]
pub struct Entropy<const N: usize>(pub [u8; N]);

/// Seeds `rand_chacha::ChaCha20Rng` from `rand_core::OsRng` and lets it
/// fill `N` bytes. Nothing is claimed of the bytes. `None` where the
/// operating system gives no seed.
#[verifier::external_body]
fn random_bytes<const N: usize>() -> (r: Option<[u8; N]>) {
    match <rand_chacha::ChaCha20Rng as rand_core::SeedableRng>::from_rng(rand_core::OsRng) {
        Ok(mut rng) => {
            let mut buffer = [0u8; N];
            rand_core::RngCore::fill_bytes(&mut rng, &mut buffer);
            Some(buffer)
        },
        Err(_) => None,
    }
}

impl<const N: usize> Entropy<N> {
    /// `N` bytes from a generator that is seeded by the operating system,
    /// or `None` where it gives no seed.
    pub fn generate() -> (r: Option<Self>)
        ensures
            r is Some ==> r->Some_0.0@.len() == N,
    {
        match random_bytes::<N>() {
            Some(buffer) => Some(Entropy(buffer)),
            None => None,
        }
    }
}

} // verus!

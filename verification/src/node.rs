//! A node of the network: it draws its own AES-256 key before announcing
//! itself to the directory authority.
use vstd::prelude::*;
use rand::{RngCore, SeedableRng};

verus! {

/// rand's standard generator, carried opaquely.
#[verifier::external_type_specification]
#[verifier::external_body]
pub struct ExStdRng(rand::rngs::StdRng);

/// `SeedableRng::from_entropy()` for `StdRng`: a generator seeded by the
/// operating system. Nothing is claimed of it; as its documentation says, it
/// panics when the operating system cannot provide entropy, which no
/// argument here can rule out.
#[verifier::external_body]
fn std_rng_from_entropy() -> rand::rngs::StdRng {
    rand::rngs::StdRng::from_entropy()
}

/// `RngCore::fill_bytes(rng, dest)`: overwrites `dest` with random bytes;
/// nothing is claimed of the bytes.
#[verifier::external_body]
fn fill_random(rng: &mut rand::rngs::StdRng, dest: &mut [u8; 32]) {
    rng.fill_bytes(dest)
}

/// Draws a fresh random 256-bit key for this node. Any 32 bytes may come.
pub fn generate_node_key() -> (key: [u8; 32]) {
    let mut rng = std_rng_from_entropy();
    let mut key = [0u8; 32];
    fill_random(&mut rng, &mut key);
    key
}

} // verus!

//! Fresh identifiers.

use vstd::prelude::*;
use rand::Rng;

verus! {

/// Draws 32 bytes from the generator of the running thread, with
/// `rand::thread_rng` and `Rng::gen`. Nothing is known of the bytes: each call
/// gives others.
#[verifier::external_body]
pub(crate) fn random_bytes() -> (bytes: [u8; 32]) {
    rand::thread_rng().gen::<[u8; 32]>()
}

} // verus!

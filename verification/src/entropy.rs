//! The source of random bytes: the thread-local generator of the `rand`
//! crate.
use rand::rngs::ThreadRng;
use rand::Rng;
use vstd::prelude::*;

verus! {

/// The thread-local generator `rand::rngs::ThreadRng`, of which the
/// verifier sees nothing but the name.
#[verifier::external_type_specification]
#[verifier::external_body]
pub struct ExThreadRng(ThreadRng);

/// Calls `Rng::gen::<u8>` on the generator: a byte drawn uniformly. Nothing
/// is claimed of its value.
#[verifier::external_body]
pub(crate) fn random_byte(rng: &mut ThreadRng) -> (byte: u8) {
    rng.gen::<u8>()
}

} // verus!

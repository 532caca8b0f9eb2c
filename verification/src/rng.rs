use vstd::prelude::*;
use rand::Rng;

verus! {

/// Relies on rand::thread_rng and rand::Rng::gen: draws one machine word
/// from the thread-local generator. Nothing is promised of the value;
/// every caller must cope with any result.
#[verifier::external_body]
pub(crate) fn random_usize() -> usize {
    let mut rng = rand::thread_rng();
    rng.gen()
}

} // verus!

//! Trusted boundary to the identifier generator.

use vstd::prelude::*;

verus! {

/// Relies on `uuid::Uuid::new_v4` and `Uuid::as_u128`: a randomly drawn
/// 128-bit identifier.  The draw is random, so nothing is assumed of the
/// value; the store checks freshness itself before adopting one.
#[verifier::external_body]
pub fn random_id() -> u128 {
    uuid::Uuid::new_v4().as_u128()
}

} // verus!

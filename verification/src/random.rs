//! Randomness drawn from `rand`.
use vstd::prelude::*;

verus! {

/// Calls `rand::random::<u32>()`. The word is random: nothing is promised of it.
#[verifier::external_body]
pub fn random_u32() -> u32 {
    rand::random::<u32>()
}

/// Calls `rand::random::<bool>()`. The flip is random: nothing is promised of it.
#[verifier::external_body]
pub fn random_bool() -> bool {
    rand::random::<bool>()
}

} // verus!

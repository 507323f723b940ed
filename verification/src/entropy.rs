//! The source of initial sequence numbers.

use vstd::prelude::*;

verus! {

/// Calls `rand::random::<u32>()`, which draws from the thread-local
/// generator. Nothing is promised of the number: any `u32` may come back.
#[verifier::external_body]
pub(crate) fn random_sequence_number() -> (seq: u32) {
    rand::random::<u32>()
}

} // verus!

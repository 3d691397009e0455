//! The one source of randomness of the library.

use vstd::prelude::*;

verus! {

/// Calls `rand::random::<u32>()`, which draws a word from the thread-local
/// generator. Any word may come back, so the contract promises nothing of it.
#[verifier::external_body]
pub(crate) fn random_u32() -> (word: u32) {
    rand::random::<u32>()
}

} // verus!

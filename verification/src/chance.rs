//! Random choices, drawn from the thread's generator.

use vstd::prelude::*;
use rand::seq::IteratorRandom;

verus! {

/// `IteratorRandom::choose` on the range `0..len`: nothing for an empty
/// range, else one of its numbers. Which one is left open.
#[verifier::external_body]
pub(crate) fn random_index(len: usize) -> (picked: Option<usize>)
    ensures
        len == 0 ==> picked is None,
        len > 0 ==> picked is Some && picked.unwrap() < len,
{
    (0..len).choose(&mut rand::rng())
}

} // verus!

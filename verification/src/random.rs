//! Random numbers.
use rand::Rng;
use vstd::prelude::*;

verus! {

/// Draws a number from `low` to `high`, both ends among them, with
/// `rand::Rng::random_range` on the generator of the thread. Which one is left
/// to chance, so only the range is claimed. The range must not be empty: the
/// call panics on one that is.
#[verifier::external_body]
pub(crate) fn random_in(low: i64, high: i64) -> (n: i64)
    requires
        low <= high,
    ensures
        low <= n <= high,
{
    rand::rng().random_range(low..=high)
}

/// Fills a buffer with random bytes, with `rand::Rng::fill` on the generator of
/// the thread. The bytes are left to chance, so only the length is claimed.
#[verifier::external_body]
pub(crate) fn fill_random(buf: &mut Vec<u8>)
    ensures
        final(buf)@.len() == old(buf)@.len(),
{
    rand::rng().fill(&mut buf[..])
}

} // verus!

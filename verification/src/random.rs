//! Chance, from the thread's random number generator.
use rand::seq::SliceRandom;
use rand::{Rng, RngCore};
use vstd::prelude::*;

verus! {

/// `Rng::gen` for `u64` on `rand::thread_rng()`: any number may come.
#[verifier::external_body]
pub(crate) fn random_number() -> (n: u64) {
    rand::thread_rng().gen()
}

/// `Rng::gen_range` for `u64` on `rand::thread_rng()`: a number from `low` on
/// and below `high`.
#[verifier::external_body]
pub(crate) fn random_between(low: u64, high: u64) -> (n: u64)
    requires
        low < high,
    ensures
        low <= n < high,
{
    rand::thread_rng().gen_range(low..high)
}

/// `RngCore::fill_bytes` on `rand::thread_rng()` for six bytes: any bytes may
/// come.
#[verifier::external_body]
pub(crate) fn random_bytes() -> (bytes: [u8; 6]) {
    let mut bytes = [0u8; 6];
    rand::thread_rng().fill_bytes(&mut bytes);
    bytes
}

/// `SliceRandom::shuffle` with `rand::thread_rng()`: the items are those
/// that were there, in any order.
#[verifier::external_body]
pub(crate) fn shuffle(items: &mut Vec<String>)
    ensures
        final(items)@.to_multiset() == old(items)@.to_multiset(),
{
    items.shuffle(&mut rand::thread_rng());
}

} // verus!

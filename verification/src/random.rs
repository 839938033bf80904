//! The random choices generators and mutators make, drawn from a seeded `SmallRng`.
//!
//! Each draw is one call into `rand`. What a contract states of a draw is only what holds of
//! every outcome: that it lies in the range asked for, or is one of the items offered.
use rand::rngs::SmallRng;
use rand::seq::{IndexedRandom, IteratorRandom, SliceRandom};
use rand::{RngExt, SeedableRng};
use vstd::prelude::*;

verus! {

#[verifier::external_type_specification]
#[verifier::external_body]
pub struct ExSmallRng(SmallRng);

/// `SeedableRng::seed_from_u64`: the generator a seed starts.
#[verifier::external_body]
pub fn seeded_rng(seed: u64) -> SmallRng {
    SmallRng::seed_from_u64(seed)
}

/// `RngExt::random::<u8>`: any byte.
#[verifier::external_body]
pub(crate) fn random_u8(rng: &mut SmallRng) -> u8 {
    rng.random()
}

/// `RngExt::random::<u16>`: any 16-bit value.
#[verifier::external_body]
pub(crate) fn random_u16(rng: &mut SmallRng) -> u16 {
    rng.random()
}

/// `RngExt::random::<u32>`: any 32-bit value.
#[verifier::external_body]
pub(crate) fn random_u32(rng: &mut SmallRng) -> u32 {
    rng.random()
}

/// `RngExt::random_ratio(1, 2)`: true one time in two, drawn as `random_bool(0.5)` draws it.
#[verifier::external_body]
pub(crate) fn random_bool(rng: &mut SmallRng) -> bool {
    rng.random_ratio(1, 2)
}

/// `RngExt::random_range(0..n)`: a value below `n`. The range must not be empty, or `rand`
/// panics.
#[verifier::external_body]
pub(crate) fn random_below(rng: &mut SmallRng, n: usize) -> (r: usize)
    requires
        n > 0,
    ensures
        r < n,
{
    rng.random_range(0..n)
}

/// `RngExt::random_range(0..n)` on `u128`: a value below `n`. The range must not be empty, or
/// `rand` panics.
#[verifier::external_body]
pub(crate) fn random_below_u128(rng: &mut SmallRng, n: u128) -> (r: u128)
    requires
        n > 0,
    ensures
        r < n,
{
    rng.random_range(0..n)
}

/// `RngExt::random_range(low..high)` on `u32`: a value in `low..high`, which must not be empty.
#[verifier::external_body]
pub(crate) fn random_range_u32(rng: &mut SmallRng, low: u32, high: u32) -> (r: u32)
    requires
        low < high,
    ensures
        low <= r < high,
{
    rng.random_range(low..high)
}

/// `RngExt::random_range(low..high)` on `u64`: a value in `low..high`, which must not be empty.
#[verifier::external_body]
pub(crate) fn random_range_u64(rng: &mut SmallRng, low: u64, high: u64) -> (r: u64)
    requires
        low < high,
    ensures
        low <= r < high,
{
    rng.random_range(low..high)
}

/// `RngExt::random_range(low..high)` on `u8`: a value in `low..high`, which must not be empty.
#[verifier::external_body]
pub(crate) fn random_range_u8(rng: &mut SmallRng, low: u8, high: u8) -> (r: u8)
    requires
        low < high,
    ensures
        low <= r < high,
{
    rng.random_range(low..high)
}

/// `IndexedRandom::choose` on a slice that is not empty: one of its items.
#[verifier::external_body]
pub(crate) fn pick<T: Copy>(rng: &mut SmallRng, items: &[T]) -> (r: T)
    requires
        items@.len() > 0,
    ensures
        items@.contains(r),
{
    *items.choose(rng).unwrap()
}

/// `IteratorRandom::choose` over the items of a vector: one of them, or none when there are
/// none.
#[verifier::external_body]
pub(crate) fn choose_from<T>(rng: &mut SmallRng, items: Vec<T>) -> (r: Option<T>)
    ensures
        r is None <==> items@.len() == 0,
        r matches Some(x) ==> items@.contains(x),
{
    items.into_iter().choose(rng)
}

/// `SliceRandom::shuffle`: the same items in some order.
#[verifier::external_body]
pub(crate) fn shuffle(rng: &mut SmallRng, items: &mut Vec<usize>)
    ensures
        final(items)@.to_multiset() == old(items)@.to_multiset(),
        final(items)@.len() == old(items)@.len(),
{
    items.shuffle(rng)
}

} // verus!

//! The random choices the maze generators make, drawn from a seeded
//! xorshift generator owned by the caller.

use vstd::prelude::*;
use rand::distr::{Distribution, Uniform};
use rand::seq::{IteratorRandom, SliceRandom};
use rand::Rng;
use rand_xorshift::XorShiftRng;

verus! {

#[verifier::external_type_specification]
#[verifier::external_body]
pub struct ExXorShiftRng(rand_xorshift::XorShiftRng);

/// Relies on rand's `Rng::random_ratio`: `true` with chance
/// `numerator / denominator`; always `true` when the two are equal and always
/// `false` when the numerator is zero. It panics on a zero denominator or a
/// numerator above it.
#[verifier::external_body]
pub(crate) fn random_ratio(rng: &mut XorShiftRng, numerator: u32, denominator: u32) -> (r: bool)
    requires
        0 < denominator,
        numerator <= denominator,
    ensures
        numerator == denominator ==> r,
        numerator == 0 ==> !r,
{
    rng.random_ratio(numerator, denominator)
}

/// Relies on rand's `Rng::random_range` on `lo..hi`: a value in that range; it
/// panics when the range is empty.
#[verifier::external_body]
pub(crate) fn random_range(rng: &mut XorShiftRng, lo: usize, hi: usize) -> (r: usize)
    requires
        lo < hi,
    ensures
        lo <= r < hi,
{
    rng.random_range(lo..hi)
}

/// Relies on rand's `IteratorRandom::choose` over the range `lo..hi`: `None`
/// for an empty range, else one of its values.
#[verifier::external_body]
pub(crate) fn choose_in_range(rng: &mut XorShiftRng, lo: usize, hi: usize) -> (r: Option<usize>)
    ensures
        r is None <==> lo >= hi,
        r matches Some(v) ==> lo <= v < hi,
{
    (lo..hi).choose(rng)
}

/// Relies on rand's `IteratorRandom::choose` over the items of a slice: `None`
/// for no items, else one of them.
#[verifier::external_body]
pub(crate) fn choose_item(rng: &mut XorShiftRng, items: &Vec<usize>) -> (r: Option<usize>)
    ensures
        r is None <==> items@.len() == 0,
        r matches Some(v) ==> items@.contains(v),
{
    items.iter().choose(rng).copied()
}

/// Relies on rand's `SliceRandom::shuffle`: the items are permuted in place.
#[verifier::external_body]
pub(crate) fn shuffle<T>(rng: &mut XorShiftRng, items: &mut Vec<T>)
    ensures
        final(items)@.len() == old(items)@.len(),
        final(items)@.to_multiset() == old(items)@.to_multiset(),
{
    items.shuffle(rng)
}

/// Relies on rand's `Uniform::new(low, high)` sampled once: a value in
/// `low..high`. Construction fails only when `low >= high`.
#[verifier::external_body]
pub(crate) fn sample_uniform_u8(rng: &mut XorShiftRng, low: u8, high: u8) -> (r: u8)
    requires
        low < high,
    ensures
        low <= r < high,
{
    Uniform::new(low, high).unwrap().sample(rng)
}

} // verus!

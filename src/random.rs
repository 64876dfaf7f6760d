//! The random source of a sequence.
//!
//! A random source is a plain `u64` state. Every draw seeds rand's `StdRng`
//! from the state, takes what it needs from the generator and then takes the
//! successor state from the same generator. A draw is therefore a function of
//! the state and of what is asked, which is what makes every run from one
//! master seed reproducible.

use rand::distributions::Distribution;
use rand::distributions::WeightedIndex;
use rand::rngs::StdRng;
use rand::seq::SliceRandom;
use rand::Rng;
use rand::RngCore;
use rand::SeedableRng;
use vstd::prelude::*;

verus! {

/// The value that a uniform draw of `lo..=hi` gives from `state`.
pub uninterp spec fn uniform_value(state: u64, lo: u32, hi: u32) -> u32;

/// The state that follows a uniform draw of `lo..=hi` from `state`.
pub uninterp spec fn uniform_state(state: u64, lo: u32, hi: u32) -> u64;

/// The index that a uniform draw of `0..n` gives from `state`.
pub uninterp spec fn index_value(state: u64, n: usize) -> usize;

/// The state that follows a uniform draw of `0..n` from `state`.
pub uninterp spec fn index_state(state: u64, n: usize) -> u64;

/// The order that shuffling `order` gives from `state`.
pub uninterp spec fn shuffle_value(order: Seq<usize>, state: u64) -> Seq<usize>;

/// The state that follows shuffling `order` from `state`.
pub uninterp spec fn shuffle_state(order: Seq<usize>, state: u64) -> u64;

/// The index that a draw weighted by `weights` gives from `state`.
pub uninterp spec fn weighted_value(weights: Seq<u32>, state: u64) -> usize;

/// The state that follows a draw weighted by `weights` from `state`.
pub uninterp spec fn weighted_state(weights: Seq<u32>, state: u64) -> u64;

/// The seed that `state` hands to a new random source.
pub uninterp spec fn fork_value(state: u64) -> u64;

/// The state that follows handing out a seed from `state`.
pub uninterp spec fn fork_state(state: u64) -> u64;

/// Relies on rand's `StdRng::seed_from_u64`, `Rng::gen_range` (which panics on
/// an empty range only) and `RngCore::next_u64`: a value of `lo..=hi`, then
/// the successor state, both fixed by the arguments.
#[verifier::external_body]
pub(crate) fn draw_uniform(state: u64, lo: u32, hi: u32) -> (r: (u32, u64))
    requires
        lo <= hi,
    ensures
        lo <= r.0 <= hi,
        r.0 == uniform_value(state, lo, hi),
        r.1 == uniform_state(state, lo, hi),
{
    let mut rng = StdRng::seed_from_u64(state);
    let value: u32 = rng.gen_range(lo..=hi);
    (value, rng.next_u64())
}

/// Relies on rand's `StdRng::seed_from_u64`, `Rng::gen_range` (which panics on
/// an empty range only) and `RngCore::next_u64`: an index below `n`, then the
/// successor state, both fixed by the arguments.
#[verifier::external_body]
pub(crate) fn draw_index(state: u64, n: usize) -> (r: (usize, u64))
    requires
        n > 0,
    ensures
        r.0 < n,
        r.0 == index_value(state, n),
        r.1 == index_state(state, n),
{
    let mut rng = StdRng::seed_from_u64(state);
    let value: usize = rng.gen_range(0..n);
    (value, rng.next_u64())
}

/// Relies on rand's `StdRng::seed_from_u64`, `SliceRandom::shuffle` (a
/// Fisher-Yates shuffle made of swaps) and `RngCore::next_u64`: a permutation
/// of `order`, then the successor state, both fixed by the arguments.
#[verifier::external_body]
pub(crate) fn shuffle(order: Vec<usize>, state: u64) -> (r: (Vec<usize>, u64))
    ensures
        r.0@.to_multiset() == order@.to_multiset(),
        r.0@ == shuffle_value(order@, state),
        r.1 == shuffle_state(order@, state),
{
    let mut order = order;
    let mut rng = StdRng::seed_from_u64(state);
    order.shuffle(&mut rng);
    (order, rng.next_u64())
}

/// Relies on rand's `StdRng::seed_from_u64`, `WeightedIndex::new` (which fails
/// only on no weights or a zero total, and sums in `u64`, here below
/// `2^32` weights of at most `2^32 - 1`), `WeightedIndex::sample` and
/// `RngCore::next_u64`: an index of `weights`, then the successor state, both
/// fixed by the arguments.
#[verifier::external_body]
pub(crate) fn draw_weighted(weights: &Vec<u32>, state: u64) -> (r: (usize, u64))
    requires
        0 < weights@.len() <= u32::MAX,
        exists|i: int| 0 <= i < weights@.len() && weights@[i] > 0,
    ensures
        r.0 < weights@.len(),
        r.0 == weighted_value(weights@, state),
        r.1 == weighted_state(weights@, state),
{
    let mut rng = StdRng::seed_from_u64(state);
    let distribution = WeightedIndex::new(weights.iter().map(|w| *w as u64)).unwrap();
    let value = distribution.sample(&mut rng);
    (value, rng.next_u64())
}

/// Relies on rand's `StdRng::seed_from_u64` and `RngCore::next_u64`: a seed for
/// a new random source, then the successor state, both fixed by `state`.
#[verifier::external_body]
pub(crate) fn fork(state: u64) -> (r: (u64, u64))
    ensures
        r.0 == fork_value(state),
        r.1 == fork_state(state),
{
    let mut rng = StdRng::seed_from_u64(state);
    let seed = rng.next_u64();
    (seed, rng.next_u64())
}

} // verus!

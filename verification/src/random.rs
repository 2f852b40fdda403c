//! The draws that the game leaves to chance, made with the thread's generator
//! of the `rand` crate.
//!
//! Nothing here is proved: each contract states what `rand` documents of every
//! outcome of the call, and the verified code around it holds for whatever
//! came back.

use crate::gamestate::players::name_views;
use rand::distributions::Uniform;
use rand::seq::SliceRandom;
use rand::Rng;
use vstd::prelude::*;

verus! {

/// One sample of `rand::distributions::Uniform::new(low, high)` over `i8`.
///
/// `rand` samples from the half-open range that starts at `low` and ends
/// before `high`, and panics where `low >= high`.
#[verifier::external_body]
pub(crate) fn sample_magnitude(low: i8, high: i8) -> (m: i8)
    requires
        low < high,
    ensures
        low <= m < high,
{
    rand::thread_rng().sample(Uniform::new(low, high))
}

/// One sample of `rand::distributions::Uniform::new(0, bound)` over `usize`.
///
/// `rand` samples from the half-open range that starts at `0` and ends before
/// `bound`, and panics where `bound` is `0`.
#[verifier::external_body]
pub(crate) fn sample_below(bound: usize) -> (i: usize)
    requires
        0 < bound,
    ensures
        i < bound,
{
    rand::thread_rng().sample(Uniform::new(0, bound))
}

/// `rand::seq::SliceRandom::choose` on the items of a vector.
///
/// `rand` returns a reference to one element of the slice, or `None` if the
/// slice is empty.
#[verifier::external_body]
pub(crate) fn choose_one<T>(items: &Vec<T>) -> (chosen: Option<&T>)
    ensures
        match chosen {
            Some(item) => items@.contains(*item),
            None => items@.len() == 0,
        },
{
    items.choose(&mut rand::thread_rng())
}

/// `rand::seq::SliceRandom::shuffle` on a vector of names.
///
/// `rand` shuffles the slice in place by swapping its elements: the names are
/// the same afterwards, each as often as before, in some order.
#[verifier::external_body]
pub(crate) fn shuffle(names: &mut Vec<String>)
    ensures
        name_views(final(names)@).to_multiset() == name_views(old(names)@).to_multiset(),
{
    names.shuffle(&mut rand::thread_rng());
}

} // verus!

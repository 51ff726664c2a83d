//! The random draws of the engine, all taken from one seedable generator
//! that the caller owns and threads through every operation.
use vstd::prelude::*;
use rand::rngs::StdRng;
use rand::seq::{IteratorRandom, SliceRandom};
use rand::Rng;
use crate::alphabet::Alphabet;

verus! {

#[verifier::external_type_specification]
#[verifier::external_body]
pub struct ExStdRng(StdRng);

/// Relies on `StdRng`'s derived `Clone`: the copy continues the same stream.
pub assume_specification[ <StdRng as Clone>::clone ](rng: &StdRng) -> StdRng;

/// Relies on `Rng::random_range` over `0..n`: a uniform index below `n`
/// (it panics on an empty range, hence `n > 0`).
#[verifier::external_body]
pub(crate) fn pick_index(rng: &mut StdRng, n: usize) -> (r: usize)
    requires
        n > 0,
    ensures
        r < n,
{
    rng.random_range(0..n)
}

/// Relies on `Rng::random_ratio`: true with probability `numerator /
/// denominator`; never for a zero numerator, always when the two are equal
/// (it panics unless `0 < denominator` and `numerator <= denominator`).
#[verifier::external_body]
pub(crate) fn chance(rng: &mut StdRng, numerator: u32, denominator: u32) -> (r: bool)
    requires
        0 < denominator,
        numerator <= denominator,
    ensures
        numerator == 0 ==> !r,
        numerator == denominator ==> r,
{
    rng.random_ratio(numerator, denominator)
}

/// Relies on `Rng::random_range` over a `char` range `first..=last`: a
/// uniform character of that range (it panics on an empty range).
#[verifier::external_body]
pub(crate) fn random_char(rng: &mut StdRng, alphabet: Alphabet) -> (r: char)
    requires
        alphabet.wf(),
    ensures
        alphabet.has(r),
{
    rng.random_range(alphabet.first..=alphabet.last)
}

/// Relies on `IteratorRandom::choose_multiple` over the range
/// `first..=last`: `amount` of its characters (all of them if it has fewer),
/// each taken at most once.
#[verifier::external_body]
pub(crate) fn sample_distinct(rng: &mut StdRng, alphabet: Alphabet, amount: usize) -> (r: Vec<char>)
    requires
        alphabet.wf(),
    ensures
        r@.len() == if amount <= alphabet.size() { amount as nat } else { alphabet.size() },
        r@.no_duplicates(),
        alphabet.covers(r@),
{
    (alphabet.first..=alphabet.last).choose_multiple(rng, amount)
}

/// Relies on `SliceRandom::shuffle`: the characters are put in a random
/// order, and none is added or lost.
#[verifier::external_body]
pub(crate) fn shuffle(rng: &mut StdRng, v: &mut Vec<char>)
    ensures
        final(v)@.len() == old(v)@.len(),
        final(v)@.to_multiset() == old(v)@.to_multiset(),
{
    v.shuffle(rng)
}

} // verus!

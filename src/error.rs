//! Why a run cannot start or cannot go on.
use vstd::prelude::*;

verus! {

/// The conditions under which the engine refuses to work.
#[derive(Clone, Copy, Debug, PartialEq, Eq, Structural)]
pub enum EvolveError {
    /// The target has no characters.
    EmptyTarget,
    /// The target holds a character outside the alphabet.
    TargetOutsideAlphabet,
    /// The target is longer than the alphabet, so no individual of its
    /// length can be made of distinct characters.
    TargetTooLong,
    /// Fewer than two individuals: no two parents can differ.
    PopulationTooSmall,
    /// A mating pool factor of zero leaves every pool empty.
    ZeroPoolFactor,
    /// The mutation rate is above certainty.
    RateOutOfRange,
    /// No individual matches the target anywhere, so the mating pool is
    /// empty.
    EmptyMatingPool,
    /// Every individual of the mating pool has the same value, so no second
    /// parent different from the first can be drawn.
    NoDistinctPartner,
    /// The generation counter is at its largest value and cannot count
    /// one more.
    GenerationLimit,
}

} // verus!

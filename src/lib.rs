//! String evolution: a population of random strings is driven toward a
//! target by fitness-proportionate selection, uniform crossover and
//! per-character mutation. Individuals are `Vec<char>`; every random draw
//! comes from a generator that the caller owns and threads through.

pub mod alphabet;
pub mod error;
pub mod fitness;
pub mod random;
pub mod ranking;
pub mod selection;
pub mod state;
pub mod variation;

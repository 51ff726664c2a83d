//! The generation driver: one state per generation, each made whole from
//! the one before.
use vstd::prelude::*;
use rand::rngs::StdRng;
use crate::alphabet::Alphabet;
use crate::error::EvolveError;
use crate::fitness::count_matches;
use crate::ranking::{average_absolute_fitness, best, is_best, top, top_spec, total_matches, Fraction};
use crate::selection::{
    all_unfit, bred_from_pool, generate_new_population, lemma_lone_individual, one_fit_value,
    population_fits, values,
};
use crate::variation::{generate, RATE_SCALE};

verus! {

/// How many distinct values a summary lists.
pub const TOP_COUNT: usize = 10;

/// The first configuration error of a run, if any, in the order in which
/// they are checked.
pub open spec fn config_error(
    target: Seq<char>,
    population_size: nat,
    mating_pool_size: nat,
    mutation_rate: u32,
    alphabet: Alphabet,
) -> Option<EvolveError> {
    if target.len() == 0 {
        Some(EvolveError::EmptyTarget)
    } else if !alphabet.covers(target) {
        Some(EvolveError::TargetOutsideAlphabet)
    } else if target.len() > alphabet.size() {
        Some(EvolveError::TargetTooLong)
    } else if population_size < 2 {
        Some(EvolveError::PopulationTooSmall)
    } else if mating_pool_size == 0 {
        Some(EvolveError::ZeroPoolFactor)
    } else if mutation_rate > RATE_SCALE {
        Some(EvolveError::RateOutOfRange)
    } else {
        None
    }
}

/// One generation of a run.
pub struct State {
    pub target: Vec<char>,
    pub population: Vec<Vec<char>>,
    /// The mating pool factor: a perfect individual gets this many copies.
    pub mating_pool_size: usize,
    /// Per-character mutation probability, in parts per `RATE_SCALE`.
    pub mutation_rate: u32,
    pub generation: usize,
    pub alphabet: Alphabet,
    pub rng: StdRng,
}

/// What a display needs of a state.
pub struct RenderState {
    pub top_word: Vec<char>,
    pub generation: usize,
    pub average_fitness: Fraction,
    pub total_population: usize,
    pub mutation_rate: u32,
    pub top_n: Vec<Vec<char>>,
}

impl State {
    /// Every parameter but the population's size is valid, and every
    /// individual is made of the alphabet, at the target's length.
    pub open spec fn ready(&self) -> bool {
        &&& self.target@.len() > 0
        &&& self.alphabet.covers(self.target@)
        &&& self.target@.len() <= self.alphabet.size()
        &&& self.mating_pool_size > 0
        &&& self.mutation_rate <= RATE_SCALE
        &&& population_fits(self.target@, self.population@, self.alphabet)
    }

    /// The configuration is valid, the population's size included, and
    /// every individual is made of the alphabet, at the target's length.
    pub open spec fn wf(&self) -> bool {
        &&& config_error(
            self.target@,
            self.population@.len(),
            self.mating_pool_size as nat,
            self.mutation_rate,
            self.alphabet,
        ) is None
        &&& population_fits(self.target@, self.population@, self.alphabet)
    }

    /// `r` is the summary of this state.
    pub open spec fn summarizes(&self, r: RenderState) -> bool {
        &&& exists|i: int| #[trigger] is_best(self.target@, values(self.population@), i)
            && r.top_word@ == self.population@[i]@
        &&& r.generation == self.generation
        &&& r.average_fitness.numerator == total_matches(self.target@, values(self.population@))
        &&& r.average_fitness.denominator == self.population@.len() * self.target@.len()
        &&& r.total_population == self.population@.len()
        &&& r.mutation_rate == self.mutation_rate
        &&& values(r.top_n@) == top_spec(self.target@, values(self.population@), TOP_COUNT as nat)
    }

    /// A first generation of `population_size` random individuals, each of
    /// the target's length and made of distinct characters of the alphabet.
    /// A configuration error is reported, never corrected.
    pub fn new(
        target: &Vec<char>,
        population_size: usize,
        mating_pool_size: usize,
        mutation_rate: u32,
        alphabet: Alphabet,
        rng: StdRng,
    ) -> (r: Result<State, EvolveError>)
        ensures
            match r {
                Ok(s) => {
                    &&& config_error(target@, population_size as nat, mating_pool_size as nat, mutation_rate, alphabet) is None
                    &&& s.wf()
                    &&& s.target@ == target@
                    &&& s.population@.len() == population_size
                    &&& s.mating_pool_size == mating_pool_size
                    &&& s.mutation_rate == mutation_rate
                    &&& s.generation == 0
                    &&& s.alphabet == alphabet
                    &&& forall|i: int| 0 <= i < s.population@.len() ==> (#[trigger] s.population@[i])@.no_duplicates()
                },
                Err(e) => config_error(target@, population_size as nat, mating_pool_size as nat, mutation_rate, alphabet) == Some(e),
            },
    {
        if target.len() == 0 {
            return Err(EvolveError::EmptyTarget);
        }
        if !alphabet.covers_all(target) {
            return Err(EvolveError::TargetOutsideAlphabet);
        }
        if target.len() > alphabet.len() {
            return Err(EvolveError::TargetTooLong);
        }
        if population_size < 2 {
            return Err(EvolveError::PopulationTooSmall);
        }
        if mating_pool_size == 0 {
            return Err(EvolveError::ZeroPoolFactor);
        }
        if mutation_rate > RATE_SCALE {
            return Err(EvolveError::RateOutOfRange);
        }
        let mut rng = rng;
        let mut population: Vec<Vec<char>> = Vec::new();
        let mut i: usize = 0;
        while i < population_size
            invariant
                i <= population_size,
                population@.len() == i,
                alphabet.wf(),
                target@.len() <= alphabet.size(),
                population_fits(target@, population@, alphabet),
                forall|j: int| 0 <= j < population@.len() ==> (#[trigger] population@[j])@.no_duplicates(),
            decreases population_size - i,
        {
            let e = generate(target.len(), alphabet, &mut rng);
            population.push(e);
            i = i + 1;
        }
        let target_copy = target.clone();
        proof {
            assert(target_copy@ =~= target@);
        }
        Ok(State {
            target: target_copy,
            population,
            mating_pool_size,
            mutation_rate,
            generation: 0,
            alphabet,
            rng,
        })
    }

    /// The next generation: the population is scored, a mating pool is built
    /// from the scores, and as many children as there are individuals are
    /// bred from it and mutated. The new state keeps the target and the
    /// parameters and counts one more generation; this state keeps its
    /// population and only its generator moves on. A population of fewer
    /// than two individuals is reported, as is a counter that cannot grow.
    pub fn update(&mut self) -> (r: Result<State, EvolveError>)
        requires
            old(self).ready(),
        ensures
            final(self).target == old(self).target,
            final(self).population == old(self).population,
            final(self).mating_pool_size == old(self).mating_pool_size,
            final(self).mutation_rate == old(self).mutation_rate,
            final(self).generation == old(self).generation,
            final(self).alphabet == old(self).alphabet,
            (r == Err::<State, EvolveError>(EvolveError::GenerationLimit)) <==> old(self).generation == usize::MAX,
            old(self).generation < usize::MAX ==> ((r == Err::<State, EvolveError>(EvolveError::EmptyMatingPool))
                <==> all_unfit(old(self).target@, old(self).population@)),
            old(self).generation < usize::MAX ==> ((r == Err::<State, EvolveError>(EvolveError::NoDistinctPartner))
                <==> (!all_unfit(old(self).target@, old(self).population@)
                && one_fit_value(old(self).target@, old(self).population@))),
            r is Ok || r == Err::<State, EvolveError>(EvolveError::EmptyMatingPool)
                || r == Err::<State, EvolveError>(EvolveError::NoDistinctPartner)
                || r == Err::<State, EvolveError>(EvolveError::GenerationLimit),
            old(self).population@.len() < 2 ==> r is Err,
            r matches Ok(s) ==> {
                &&& s.wf()
                &&& s.target@ == old(self).target@
                &&& s.population@.len() == old(self).population@.len()
                &&& s.mating_pool_size == old(self).mating_pool_size
                &&& s.mutation_rate == old(self).mutation_rate
                &&& s.generation == old(self).generation + 1
                &&& s.alphabet == old(self).alphabet
                &&& bred_from_pool(
                    old(self).target@,
                    old(self).population@,
                    old(self).mating_pool_size as nat,
                    old(self).mutation_rate,
                    old(self).alphabet,
                    values(s.population@),
                )
            },
    {
        if self.generation == usize::MAX {
            return Err(EvolveError::GenerationLimit);
        }
        proof {
            assert(self.alphabet.has(self.target@[0]));
            if self.population@.len() < 2 {
                lemma_lone_individual(self.target@, self.population@);
            }
        }
        let n = self.population.len();
        let next = generate_new_population(
            &mut self.rng,
            &self.target,
            &self.population,
            self.mating_pool_size,
            n,
            self.mutation_rate,
            self.alphabet,
        );
        match next {
            Err(e) => Err(e),
            Ok(population) => {
                let target_copy = self.target.clone();
                proof {
                    assert(target_copy@ =~= self.target@);
                }
                Ok(State {
                    target: target_copy,
                    population,
                    mating_pool_size: self.mating_pool_size,
                    mutation_rate: self.mutation_rate,
                    generation: self.generation + 1,
                    alphabet: self.alphabet,
                    rng: self.rng.clone(),
                })
            },
        }
    }

    /// The summary of this state: its best individual (the first of the
    /// highest score), its generation, its average fitness, its size, its
    /// mutation rate, and its `TOP_COUNT` fittest distinct values.
    pub fn get_render_state(&self) -> (r: RenderState)
        requires
            self.wf(),
        ensures
            self.summarizes(r),
    {
        RenderState {
            top_word: best(&self.target, &self.population),
            generation: self.generation,
            average_fitness: average_absolute_fitness(&self.target, &self.population),
            total_population: self.population.len(),
            mutation_rate: self.mutation_rate,
            top_n: top(&self.target, &self.population, TOP_COUNT),
        }
    }
}

/// The best individual is unique: no two indices are both the best.
proof fn lemma_best_unique(t: Seq<char>, vals: Seq<Seq<char>>, i: int, j: int)
    requires
        is_best(t, vals, i),
        is_best(t, vals, j),
    ensures
        i == j,
{
    if i < j {
        assert(count_matches(t, vals[i]) < count_matches(t, vals[j]));
    } else if j < i {
        assert(count_matches(t, vals[j]) < count_matches(t, vals[i]));
    }
}

/// Summarizing has no choice in it: two summaries of one state agree on
/// every field, the best individual and the average fitness included.
pub proof fn lemma_summary_deterministic(s: State, r1: RenderState, r2: RenderState)
    requires
        s.summarizes(r1),
        s.summarizes(r2),
    ensures
        r1.top_word@ == r2.top_word@,
        r1.average_fitness == r2.average_fitness,
        r1.generation == r2.generation,
        r1.total_population == r2.total_population,
        r1.mutation_rate == r2.mutation_rate,
        values(r1.top_n@) == values(r2.top_n@),
{
    let vals = values(s.population@);
    let i = choose|i: int| #[trigger] is_best(s.target@, vals, i) && r1.top_word@ == s.population@[i]@;
    let j = choose|j: int| #[trigger] is_best(s.target@, vals, j) && r2.top_word@ == s.population@[j]@;
    lemma_best_unique(s.target@, vals, i, j);
}

} // verus!

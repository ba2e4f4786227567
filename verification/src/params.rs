//! The configuration of a run.

use vstd::prelude::*;

verus! {

/// The denominator of the two probabilities of a run.
pub const MILLION: u32 = 1_000_000;

/// The in-place perturbations of a tour.
#[derive(Clone, Copy, Debug, PartialEq, Eq, Structural)]
pub enum MutationType {
    /// Reverse a random stretch of the tour.
    TwoOptSwap,
    /// Exchange the entries at two random positions.
    FourOptSwap,
    /// Reverse a stretch of fixed length.
    Reversion,
    /// Cut a stretch of fixed length out and put it back elsewhere.
    Insertion,
    /// Exchange entries at random positions, several times over.
    Scramble,
}

/// The recombinations of two tours.
#[derive(Clone, Copy, Debug, PartialEq, Eq, Structural)]
pub enum CrossoverType {
    /// Single-cut fill.
    PMX,
    /// Order crossover.
    OX,
    /// Cycle crossover.
    CX,
}

/// What a run is configured with. The two probabilities are given in
/// millionths.
#[derive(Clone, Copy, Debug)]
pub struct GAParameters {
    /// How many tours a generation holds.
    pub population_size: usize,
    /// The probability, in millionths, that a tour of the next generation is
    /// mutated.
    pub mutation_per_million: u32,
    /// The share, in millionths, of the next generation that crossover makes.
    pub crossover_per_million: u32,
    /// How many generations a run takes.
    pub max_generations: usize,
    /// The mutation of the run.
    pub mutation_type: MutationType,
    /// The crossover of the run.
    pub crossover_type: CrossoverType,
}

/// The number of children by crossover in a generation: the share of the
/// population, rounded down.
pub open spec fn pair_count(population_size: nat, crossover_per_million: nat) -> nat {
    population_size * crossover_per_million / 1_000_000
}

impl GAParameters {
    /// The configuration is one that a run can start with: at least two
    /// tours, at least one generation, and probabilities of at most one.
    pub open spec fn valid(&self) -> bool {
        &&& self.population_size >= 2
        &&& self.max_generations >= 1
        &&& self.mutation_per_million <= MILLION
        &&& self.crossover_per_million <= MILLION
    }

    /// Decides whether a run can start with this configuration.
    pub fn is_valid(&self) -> (ok: bool)
        ensures
            ok == self.valid(),
    {
        self.population_size >= 2 && self.max_generations >= 1 && self.mutation_per_million
            <= MILLION && self.crossover_per_million <= MILLION
    }

    /// The number of children by crossover in each generation.
    pub fn crossover_pair_count(&self) -> (count: usize)
        requires
            self.crossover_per_million <= MILLION,
        ensures
            count == pair_count(self.population_size as nat, self.crossover_per_million as nat),
            count <= self.population_size,
    {
        let size: u128 = self.population_size as u128;
        let share: u128 = self.crossover_per_million as u128;
        assert(size * share <= size * 1_000_000) by (nonlinear_arith)
            requires
                share <= 1_000_000,
                size >= 0,
        ;
        let count: u128 = size * share / 1_000_000;
        count as usize
    }
}

} // verus!

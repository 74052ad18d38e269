//! An implementation of NSGA-II, the elitist non-dominated sorting genetic
//! algorithm for multi-objective optimization.
//!
//! The engine searches a user-defined solution space for an approximation of
//! the Pareto-optimal frontier across two or more competing objectives.
//! Objective scores are integer-valued and lower is always better: a
//! maximization problem is expressed by negating its scores, and fractional
//! scores by scaling them to a fixed-point integer representation before they
//! reach the engine.

use vstd::prelude::*;

pub mod domination;
pub mod crowding;
pub mod evaluator;
pub mod optimizer;
mod rng;

verus! {

/// A simple ratio type: how many draws out of how many succeed.
#[derive(Clone, Copy)]
pub struct Ratio(pub u32, pub u32);

/// Identifier the engine assigns to every candidate solution it creates.
/// Identifiers grow monotonically within a run and are never reused.
pub type SolutionId = u64;

impl Ratio {
    /// A ratio is usable as a probability when the denominator is positive
    /// and the numerator does not exceed it.
    pub open spec fn valid(self) -> bool {
        self.1 > 0 && self.0 <= self.1
    }
}

/// A candidate solution: an opaque, cloneable genome.
///
/// The engine assigns each solution an identifier after construction and
/// after reproduction; the genome stores it but gives it no meaning of its
/// own.
pub trait Solution: Sized + Clone {
    /// Store the engine-assigned identifier.
    fn set_id(&mut self, id: SolutionId);

    /// Return the stored identifier.
    fn id(&self) -> SolutionId;

    /// Perform a crossover operation with another solution candidate.
    fn crossover(&mut self, other: &mut Self);

    /// Mutate a solution candidate.
    fn mutate(&mut self);
}

/// An optimization objective.
pub trait Objective<S: Solution> {
    /// An objective fitness function.
    ///
    /// Given a solution, it should return its fitness score.
    /// The optimizer always finds a minimum, so if your case requires finding
    /// the maximum instead, simply multiply the value by -1 before returning.
    fn value(&self, sol: &S) -> i64;

    /// A predicate used for early termination, when applicable.
    ///
    /// When in a particular objective the target value is known, the
    /// optimization process can be made significantly faster by not having to
    /// compute all the iteration steps.
    fn good_enough(&self, _val: i64) -> bool {
        false
    }
}

/// A rule that can alter a computed fitness score for a solution.
///
/// It is often used to exclude solutions, by returning `i64::MAX`, based on
/// some logic that is too cumbersome to include in [`Objective::value`].
pub trait Constraint<S: Solution> {
    /// Process a currently computed value for a given solution.
    fn value(&self, sol: &S, val: i64) -> i64;
}

/// A set of meta-parameters for one optimization run.
pub trait Meta<S: Solution> {
    /// The type of the optimization objectives for this run.  A run with
    /// several unlike objectives uses one enumeration type whose variants
    /// score differently.
    type Obj: Objective<S>;

    /// The type of the score constraints for this run.
    type Constr: Constraint<S>;

    /// Return a population size.
    /// This is used by the optimizer for a pool of solution candidates.
    fn population_size(&self) -> usize {
        20
    }

    /// A ratio to determine how often to perform a crossover operation.
    fn crossover_odds(&self) -> Ratio;

    /// A ratio to determine how often to perform a mutation operation.
    fn mutation_odds(&self) -> Ratio;

    /// Return a random solution carrying the given engine-assigned id.
    fn random_solution(&mut self, id: SolutionId) -> S;

    /// Return the list of objectives to use in the optimization.
    /// Cannot be empty, and must stay the same for the whole run.
    fn objectives(&self) -> &Vec<Self::Obj>;

    /// Return an optional list of optimization constraints.
    fn constraints(&self) -> &Vec<Self::Constr>;
}

/// The ways a [`Meta`] implementation can be malformed.  The engine checks
/// for all of them before it starts and refuses to run on any.
#[derive(Clone, Copy, Debug, PartialEq, Eq, Structural)]
pub enum ConfigError {
    /// The objectives list is empty.
    NoObjectives,
    /// The population size is zero.
    ZeroPopulationSize,
    /// The crossover ratio has a zero denominator or a numerator above it.
    BadCrossoverOdds,
    /// The mutation ratio has a zero denominator or a numerator above it.
    BadMutationOdds,
    /// The objectives list changed length in the middle of a run.
    ObjectivesChanged,
    /// The run would exhaust the 64-bit solution-identifier space before the
    /// first generation; practically unreachable.
    IdentifiersExhausted,
}

/// A plain snapshot of the meta-parameters that the engine validates before
/// a run.
#[derive(Clone, Copy)]
pub struct Config {
    pub population_size: usize,
    pub crossover_odds: Ratio,
    pub mutation_odds: Ratio,
    pub num_objectives: usize,
}

impl Config {
    /// What checking a configuration must report: the first failure in
    /// declaration order, or success.
    pub open spec fn check_spec(self) -> Result<(), ConfigError> {
        if self.num_objectives == 0 {
            Err(ConfigError::NoObjectives)
        } else if self.population_size == 0 {
            Err(ConfigError::ZeroPopulationSize)
        } else if !self.crossover_odds.valid() {
            Err(ConfigError::BadCrossoverOdds)
        } else if !self.mutation_odds.valid() {
            Err(ConfigError::BadMutationOdds)
        } else {
            Ok(())
        }
    }

    /// A configuration the engine accepts: at least one objective, a
    /// non-empty population, and both genetic-operator ratios usable as
    /// probabilities.
    pub open spec fn wf(self) -> bool {
        self.check_spec() is Ok
    }
}

/// Check a configuration snapshot, reporting the first defect found.
pub fn validate_config(c: &Config) -> (r: Result<(), ConfigError>)
    ensures
        r == c.check_spec(),
        r is Ok <==> c.wf(),
{
    if c.num_objectives == 0 {
        Err(ConfigError::NoObjectives)
    } else if c.population_size == 0 {
        Err(ConfigError::ZeroPopulationSize)
    } else if c.crossover_odds.1 == 0 || c.crossover_odds.0 > c.crossover_odds.1 {
        Err(ConfigError::BadCrossoverOdds)
    } else if c.mutation_odds.1 == 0 || c.mutation_odds.0 > c.mutation_odds.1 {
        Err(ConfigError::BadMutationOdds)
    } else {
        Ok(())
    }
}

} // verus!

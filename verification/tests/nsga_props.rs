use nsga::crowding::{crowding_distances, DISTANCE_SCALE, INFINITE_DISTANCE};
use nsga::domination::{assign_fronts, vals_dominate};
use nsga::evaluator::{DefaultEvaluator, Evaluator};
use nsga::optimizer::{
    clone_candidate, rank_population, select_next_population, sort_population, update_archive,
    Candidate, NSGAOptimizer,
};
use nsga::{validate_config, Config, ConfigError, Meta, Objective, Ratio, Solution, SolutionId};
use nsga::Constraint;
use std::cell::Cell;

#[derive(Clone, Debug, PartialEq)]
struct Tag {
    id: SolutionId,
}

impl Solution for Tag {
    fn set_id(&mut self, id: SolutionId) {
        self.id = id;
    }

    fn id(&self) -> SolutionId {
        self.id
    }

    fn crossover(&mut self, _other: &mut Self) {}

    fn mutate(&mut self) {}
}

fn cand(id: SolutionId, vals: Vec<i64>, front: usize, distance: u128) -> Candidate<Tag> {
    Candidate { sol: Tag { id }, vals, front, distance }
}

struct ConstObjective {
    score: i64,
    accept: bool,
}

impl Objective<Tag> for ConstObjective {
    fn value(&self, _sol: &Tag) -> i64 {
        self.score
    }

    fn good_enough(&self, val: i64) -> bool {
        self.accept && val <= self.score
    }
}

struct NoConstraint;

impl Constraint<Tag> for NoConstraint {
    fn value(&self, _sol: &Tag, val: i64) -> i64 {
        val
    }
}

struct PlainMeta {
    pop_size: usize,
    crossover: Ratio,
    mutation: Ratio,
    objectives: Vec<ConstObjective>,
    constraints: Vec<NoConstraint>,
}

impl Meta<Tag> for PlainMeta {
    type Obj = ConstObjective;
    type Constr = NoConstraint;

    fn population_size(&self) -> usize {
        self.pop_size
    }

    fn crossover_odds(&self) -> Ratio {
        self.crossover
    }

    fn mutation_odds(&self) -> Ratio {
        self.mutation
    }

    fn random_solution(&mut self, id: SolutionId) -> Tag {
        Tag { id }
    }

    fn objectives(&self) -> &Vec<ConstObjective> {
        &self.objectives
    }

    fn constraints(&self) -> &Vec<NoConstraint> {
        &self.constraints
    }
}

fn plain_meta() -> PlainMeta {
    PlainMeta {
        pop_size: 4,
        crossover: Ratio(6, 10),
        mutation: Ratio(3, 10),
        objectives: vec![ConstObjective { score: 0, accept: true }],
        constraints: vec![],
    }
}

// Domination is asymmetric, and equal vectors never dominate each other.
#[test]
fn domination_asymmetric() {
    let a = vec![1i64, 2];
    let b = vec![2i64, 2];
    assert!(vals_dominate(&a, &b));
    assert!(!vals_dominate(&b, &a));
    assert!(!vals_dominate(&a, &a));
    let c = vec![1i64, 2];
    assert!(!vals_dominate(&a, &c));
    assert!(!vals_dominate(&c, &a));
}

// Front indices follow dominance depth, and a member of front k is dominated
// by a member of front k - 1.
#[test]
fn fronts_follow_dominance_depth() {
    let vals = vec![vec![0i64, 0], vec![1, 1], vec![2, 2], vec![3, 0]];
    let fronts = assign_fronts(&vals);
    assert_eq!(fronts, vec![0, 1, 2, 1]);
    // every member of a positive front is dominated by one of the front before
    for (i, f) in fronts.iter().enumerate() {
        if *f > 0 {
            let witness = fronts
                .iter()
                .enumerate()
                .any(|(j, fj)| *fj + 1 == *f && vals_dominate(&vals[j], &vals[i]));
            assert!(witness);
        }
        // and by no member of its own front or later
        for (j, fj) in fronts.iter().enumerate() {
            if vals_dominate(&vals[j], &vals[i]) {
                assert!(*fj < *f);
            }
        }
    }
}

// Re-sorting an already-sorted population reproduces its front partition.
#[test]
fn resort_is_stable() {
    let pop = vec![
        cand(1, vec![0, 0], 7, 9),
        cand(2, vec![1, 1], 7, 9),
        cand(3, vec![0, 3], 7, 9),
    ];
    let once = rank_population(pop);
    let f1: Vec<usize> = once.iter().map(|c| c.front).collect();
    let again = rank_population(once);
    let f2: Vec<usize> = again.iter().map(|c| c.front).collect();
    assert_eq!(f1, f2);
    assert_eq!(f1, vec![0, 1, 1]);
}

// A front of two members has only boundary members: both get the sentinel.
#[test]
fn two_member_front_all_infinite() {
    let d = crowding_distances(&vec![vec![1i64, 2], vec![3, 0]]);
    assert_eq!(d, vec![INFINITE_DISTANCE, INFINITE_DISTANCE]);
}

// A degenerate front with identical scores divides by one, not by zero:
// boundary members get the sentinel and the interior stays at zero.
#[test]
fn identical_scores_no_division_by_zero() {
    let d = crowding_distances(&vec![vec![7i64], vec![7], vec![7], vec![7]]);
    assert_eq!(d, vec![INFINITE_DISTANCE, 0, 0, INFINITE_DISTANCE]);
}

// The interior member of an evenly spread front accumulates one whole
// normalized unit per objective.
#[test]
fn interior_distance_is_normalized_gap() {
    let d = crowding_distances(&vec![vec![0i64], vec![5], vec![10]]);
    assert_eq!(d, vec![INFINITE_DISTANCE, DISTANCE_SCALE, INFINITE_DISTANCE]);
}

#[test]
fn single_member_front_is_boundary() {
    let d = crowding_distances(&vec![vec![4i64, 5]]);
    assert_eq!(d, vec![INFINITE_DISTANCE]);
}

// Environmental selection returns exactly the configured population size,
// consuming fronts in order and truncating by descending crowding distance.
#[test]
fn selection_returns_exact_population_size() {
    let pop = vec![
        cand(1, vec![0], 0, INFINITE_DISTANCE),
        cand(2, vec![1], 0, 5),
        cand(3, vec![2], 1, INFINITE_DISTANCE),
        cand(4, vec![3], 1, 2),
        cand(5, vec![4], 2, INFINITE_DISTANCE),
    ];
    let picked = select_next_population(pop, 3);
    assert_eq!(picked.len(), 3);
    let ids: Vec<SolutionId> = picked.iter().map(|c| c.sol.id).collect();
    assert_eq!(ids, vec![1, 2, 3]);
}

#[test]
fn sorting_orders_fronts_then_distance() {
    let pop = vec![
        cand(1, vec![0], 1, 4),
        cand(2, vec![1], 0, 2),
        cand(3, vec![2], 1, 9),
        cand(4, vec![3], 0, INFINITE_DISTANCE),
    ];
    let sorted = sort_population(pop);
    let ids: Vec<SolutionId> = sorted.iter().map(|c| c.sol.id).collect();
    assert_eq!(ids, vec![4, 2, 3, 1]);
}

// Tournament selection prefers the lower front, then the higher distance.
#[test]
fn tournament_prefers_front_then_distance() {
    let opt = NSGAOptimizer::new(plain_meta());
    let w = opt.tournament(cand(1, vec![], 0, 0), cand(2, vec![], 1, INFINITE_DISTANCE));
    assert_eq!(w.sol.id, 1);
    let w = opt.tournament(cand(1, vec![], 2, 0), cand(2, vec![], 1, 0));
    assert_eq!(w.sol.id, 2);
    let w = opt.tournament(cand(1, vec![], 1, 3), cand(2, vec![], 1, 8));
    assert_eq!(w.sol.id, 2);
    let w = opt.tournament(cand(1, vec![], 1, 8), cand(2, vec![], 1, 3));
    assert_eq!(w.sol.id, 1);
    // an exact tie is resolved at random, but always to one of the two
    let w = opt.tournament(cand(1, vec![], 1, 3), cand(2, vec![], 1, 3));
    assert!(w.sol.id == 1 || w.sol.id == 2);
}

// Archive pruning keeps an old entry only when it is strictly better
// somewhere than the incoming score vector.
#[test]
fn archive_prunes_entries_without_merit() {
    let a = update_archive(Vec::new(), vec![5i64], Tag { id: 1 });
    assert_eq!(a.len(), 1);
    // the old entry [5] has no score strictly below [3]: it is dropped
    let a = update_archive(a, vec![3i64], Tag { id: 2 });
    assert_eq!(a.len(), 1);
    assert_eq!(a[0].0, vec![3]);
    assert_eq!(a[0].1.id, 2);
    // the old entry [3] is strictly better than [4] somewhere: it stays
    let a = update_archive(a, vec![4i64], Tag { id: 3 });
    assert_eq!(a.len(), 2);
    assert_eq!(a[0].0, vec![3]);
    assert_eq!(a[1].0, vec![4]);
}

#[test]
fn clone_candidate_copies_metadata() {
    let c = cand(9, vec![1, 2, 3], 4, 77);
    let d = clone_candidate(&c);
    assert_eq!(d.front, 4);
    assert_eq!(d.distance, 77);
    assert_eq!(d.vals, vec![1, 2, 3]);
}

// The default evaluator stops only after the configured number of
// generations without improvement.
#[test]
fn default_evaluator_counts_stale_generations() {
    let mut e = DefaultEvaluator::new(3);
    assert!(!e.can_terminate(0, vec![10]));
    assert!(!e.can_terminate(1, vec![10]));
    // a second call in the same generation does not lengthen the streak
    assert!(!e.can_terminate(1, vec![10]));
    assert!(!e.can_terminate(2, vec![10]));
    assert!(e.can_terminate(3, vec![10]));
}

#[test]
fn default_evaluator_improvement_resets_streak() {
    let mut e = DefaultEvaluator::new(2);
    assert!(!e.can_terminate(0, vec![10, 10]));
    assert!(!e.can_terminate(1, vec![10, 11]));  // worse somewhere: stale
    assert!(!e.can_terminate(2, vec![9, 10]));  // improvement: reset
    assert!(!e.can_terminate(3, vec![9, 10]));
    assert!(e.can_terminate(4, vec![9, 10]));
}

// Each malformed configuration is reported as its own error.
#[test]
fn config_errors_are_reported() {
    let ok = Config {
        population_size: 20,
        crossover_odds: Ratio(6, 10),
        mutation_odds: Ratio(3, 10),
        num_objectives: 2,
    };
    assert_eq!(validate_config(&ok), Ok(()));
    let mut c = ok;
    c.num_objectives = 0;
    assert_eq!(validate_config(&c), Err(ConfigError::NoObjectives));
    let mut c = ok;
    c.population_size = 0;
    assert_eq!(validate_config(&c), Err(ConfigError::ZeroPopulationSize));
    let mut c = ok;
    c.crossover_odds = Ratio(1, 0);
    assert_eq!(validate_config(&c), Err(ConfigError::BadCrossoverOdds));
    let mut c = ok;
    c.mutation_odds = Ratio(3, 2);
    assert_eq!(validate_config(&c), Err(ConfigError::BadMutationOdds));
}

#[test]
fn optimizer_rejects_malformed_configuration() {
    let mut meta = plain_meta();
    meta.pop_size = 0;
    let mut opt = NSGAOptimizer::new(meta);
    assert_eq!(
        opt.optimize(DefaultEvaluator::new(5)),
        Err(ConfigError::ZeroPopulationSize)
    );

    let mut meta = plain_meta();
    meta.objectives = vec![];
    let mut opt = NSGAOptimizer::new(meta);
    assert_eq!(opt.optimize(DefaultEvaluator::new(5)), Err(ConfigError::NoObjectives));

    let mut meta = plain_meta();
    meta.crossover = Ratio(2, 0);
    let mut opt = NSGAOptimizer::new(meta);
    assert_eq!(
        opt.optimize(DefaultEvaluator::new(5)),
        Err(ConfigError::BadCrossoverOdds)
    );

    let mut meta = plain_meta();
    meta.mutation = Ratio(2, 1);
    let mut opt = NSGAOptimizer::new(meta);
    assert_eq!(
        opt.optimize(DefaultEvaluator::new(5)),
        Err(ConfigError::BadMutationOdds)
    );
}

// A run whose every objective is immediately good enough stops at once with
// a non-empty archive.
#[test]
fn optimizer_stops_on_good_enough() {
    let mut opt = NSGAOptimizer::new(plain_meta());
    let res = opt.optimize(DefaultEvaluator::new(5)).expect("well-formed");
    assert!(res.len() >= 1);
}

struct FlickerMeta {
    few: Vec<ConstObjective>,
    many: Vec<ConstObjective>,
    nothing: Vec<NoConstraint>,
    calls: Cell<usize>,
}

impl Meta<Tag> for FlickerMeta {
    type Obj = ConstObjective;
    type Constr = NoConstraint;

    fn population_size(&self) -> usize {
        4
    }

    fn crossover_odds(&self) -> Ratio {
        Ratio(6, 10)
    }

    fn mutation_odds(&self) -> Ratio {
        Ratio(3, 10)
    }

    fn random_solution(&mut self, id: SolutionId) -> Tag {
        Tag { id }
    }

    fn objectives(&self) -> &Vec<ConstObjective> {
        let n = self.calls.get();
        self.calls.set(n + 1);
        if n == 0 {
            &self.few
        } else {
            &self.many
        }
    }

    fn constraints(&self) -> &Vec<NoConstraint> {
        &self.nothing
    }
}

// A meta whose objectives list changes length in mid-run is refused.
#[test]
fn optimizer_rejects_shifting_objectives() {
    let meta = FlickerMeta {
        few: vec![ConstObjective { score: 0, accept: false }],
        many: vec![
            ConstObjective { score: 0, accept: false },
            ConstObjective { score: 1, accept: false },
        ],
        nothing: vec![],
        calls: Cell::new(0),
    };
    let mut opt = NSGAOptimizer::new(meta);
    assert_eq!(
        opt.optimize(DefaultEvaluator::new(5)),
        Err(ConfigError::ObjectivesChanged)
    );
}

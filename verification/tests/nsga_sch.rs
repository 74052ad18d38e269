use nsga::evaluator::DefaultEvaluator;
use nsga::optimizer::NSGAOptimizer;
use nsga::{Constraint, Meta, Objective, Ratio, Solution, SolutionId};
use rand::{thread_rng, Rng};
use std::ops::Range;

/// The engine works on integer scores; the float fitness is mapped to a
/// fixed-point score that preserves the order of the values in play.
fn score(v: f64) -> i64 {
    (v * 1048576.0) as i64
}

#[derive(Clone, Debug)]
struct CandidateF64 {
    id: SolutionId,
    val: f64,
    range: Range<f64>,
}

impl Solution for CandidateF64 {
    fn set_id(&mut self, id: SolutionId) {
        self.id = id;
    }

    fn id(&self) -> SolutionId {
        self.id
    }

    // SBX crossover
    fn crossover(&mut self, other: &mut Self) {
        let crossover_param: f64 = 2.;
        let u: f64 = thread_rng().gen_range(0.0..1.0);

        let beta = if u <= 0.5 {
            (2. * u).powf(1. / (crossover_param + 1.))
        } else {
            (2. * (1. - u)).powf(-1. / (crossover_param + 1.))
        };

        let x1 = (self.val + other.val) / 2.;
        let x2 = ((self.val - other.val) / 2.).abs();

        self.val = x1 + beta * x2;
        other.val = x1 - beta * x2;
    }

    // Polynomial mutation
    fn mutate(&mut self) {
        let mutation_param: f64 = 5.;
        let u: f64 = thread_rng().gen_range(0.0..1.0);
        let r0: f64 = self.range.start;
        let r1: f64 = self.range.end;

        let delta = if u < 0.5 {
            (2. * u).powf(1. / (mutation_param + 1.)) - 1.
        } else {
            1. - (2. * (1. - u)).powf(-1. / (mutation_param + 1.))
        };

        if u < 0.5 {
            self.val += delta * (self.val - r0)
        } else {
            self.val += delta * (r1 - self.val)
        }

        if self.val < r0 {
            self.val = r0
        } else if self.val > r1 {
            self.val = r1
        }
    }
}

enum SchObjective {
    One,
    Two,
}

impl Objective<CandidateF64> for SchObjective {
    fn value(&self, candidate: &CandidateF64) -> i64 {
        match self {
            SchObjective::One => score(candidate.val * candidate.val),
            SchObjective::Two => {
                let x = candidate.val - 2.;
                score(x * x)
            }
        }
    }
}

struct NoConstraint;

impl Constraint<CandidateF64> for NoConstraint {
    fn value(&self, _sol: &CandidateF64, val: i64) -> i64 {
        val
    }
}

struct ParamsF64 {
    val_range: Range<f64>,
    objectives: Vec<SchObjective>,
    constraints: Vec<NoConstraint>,
}

impl Meta<CandidateF64> for ParamsF64 {
    type Obj = SchObjective;
    type Constr = NoConstraint;

    fn population_size(&self) -> usize {
        20
    }

    fn crossover_odds(&self) -> Ratio {
        Ratio(6, 10)
    }

    fn mutation_odds(&self) -> Ratio {
        Ratio(1, 1)
    }

    fn random_solution(&mut self, id: SolutionId) -> CandidateF64 {
        CandidateF64 {
            id,
            val: thread_rng().gen_range(self.val_range.clone()),
            range: self.val_range.clone(),
        }
    }

    fn objectives(&self) -> &Vec<SchObjective> {
        &self.objectives
    }

    fn constraints(&self) -> &Vec<NoConstraint> {
        &self.constraints
    }
}

#[test]
fn sch() {
    let meta = ParamsF64 {
        val_range: -55.0..56.0,
        objectives: vec![SchObjective::One, SchObjective::Two],
        constraints: vec![],
    };

    let mut optimizer = NSGAOptimizer::new(meta);
    let res = optimizer
        .optimize(DefaultEvaluator::new(100))
        .expect("a well-formed configuration");
    for x in res {
        println!("{}", x.val);
        assert!(x.val >= -0.1 && x.val <= 2.1)
    }
}

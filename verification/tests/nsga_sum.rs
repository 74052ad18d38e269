use nsga::evaluator::DefaultEvaluator;
use nsga::optimizer::NSGAOptimizer;
use nsga::{Constraint, Meta, Objective, Ratio, Solution, SolutionId};
use rand::{thread_rng, Rng};

#[derive(Clone, Debug)]
struct Candidate {
    id: SolutionId,
    indices: Vec<isize>,
}

impl Solution for Candidate {
    fn set_id(&mut self, id: SolutionId) {
        self.id = id;
    }

    fn id(&self) -> SolutionId {
        self.id
    }

    fn crossover(&mut self, other: &mut Self) {
        let mut a = &mut self.indices;
        let mut b = &mut other.indices;

        // Use `a` for the longer vector:
        if b.len() > a.len() {
            a = &mut other.indices;
            b = &mut self.indices;
        }

        let a_mid = a.len() / 2;
        let b_mid = b.len() / 2;

        let b_back = &mut b[b_mid..];
        let a_back = &mut a[a_mid..][..b_back.len()];

        a_back.swap_with_slice(b_back);

        let a_len = a_mid + a_back.len();
        b.extend(a.drain(a_len..));
    }

    fn mutate(&mut self) {
        let mut rng = thread_rng();

        for i in &mut self.indices {
            if rng.gen_ratio(3, 10) {
                *i = if *i == 0 { 1 } else { 0 }
            }
        }
    }
}

enum TestObjective {
    Sum {
        goal: i64,
        items: Vec<i64>,
        toleration: i64,
    },
    Ones,
}

impl Objective<Candidate> for TestObjective {
    fn value(&self, candidate: &Candidate) -> i64 {
        match self {
            TestObjective::Sum { goal, items, .. } => {
                let res: i64 = candidate
                    .indices
                    .iter()
                    .enumerate()
                    .map(|(i, rec)| if *rec == 1 { items[i] } else { 0 })
                    .sum();
                (goal - res).abs()
            }
            TestObjective::Ones => candidate.indices.iter().filter(|i| **i == 1).count() as i64,
        }
    }

    fn good_enough(&self, val: i64) -> bool {
        match self {
            TestObjective::Sum { toleration, .. } => val <= *toleration,
            TestObjective::Ones => false,
        }
    }
}

struct NoConstraint;

impl Constraint<Candidate> for NoConstraint {
    fn value(&self, _sol: &Candidate, val: i64) -> i64 {
        val
    }
}

struct Params {
    records_length: usize,
    objectives: Vec<TestObjective>,
    constraints: Vec<NoConstraint>,
}

impl Meta<Candidate> for Params {
    type Obj = TestObjective;
    type Constr = NoConstraint;

    fn population_size(&self) -> usize {
        20
    }

    fn crossover_odds(&self) -> Ratio {
        Ratio(6, 10)
    }

    fn mutation_odds(&self) -> Ratio {
        Ratio(1, 1)
    }

    fn random_solution(&mut self, id: SolutionId) -> Candidate {
        let indices: Vec<isize> = (0..self.records_length).map(|_| 0).collect();

        Candidate { id, indices }
    }

    fn objectives(&self) -> &Vec<TestObjective> {
        &self.objectives
    }

    fn constraints(&self) -> &Vec<NoConstraint> {
        &self.constraints
    }
}

struct TestCase {
    answer: Vec<isize>,
    goal: i64,
    items: Vec<i64>,
    objectives: Vec<TestObjective>,
    constraints: Vec<NoConstraint>,
}

fn selected_sum(genome: &[isize], items: &[i64]) -> i64 {
    genome
        .iter()
        .enumerate()
        .map(|(i, rec)| if *rec == 1 { items[i] } else { 0 })
        .sum()
}

#[test]
fn sum() {
    let cases = vec![
        TestCase {
            answer: vec![1, 0, 1, 1, 0, 1, 0, 1, 1],
            goal: 100,
            items: vec![90, 15, 1, 2, 20, 5, 30, 1, 1],
            objectives: vec![TestObjective::Sum {
                goal: 100,
                items: vec![90, 15, 1, 2, 20, 5, 30, 1, 1],
                toleration: 0,
            }],
            constraints: vec![],
        },
        TestCase {
            answer: vec![0, 0, 0, 0, 1, 0, 0, 0, 0, 1],
            goal: 100,
            items: vec![10, 20, 20, 10, 95, 10, 10, 10, 10, 5],
            objectives: vec![
                TestObjective::Sum {
                    goal: 100,
                    items: vec![10, 20, 20, 10, 95, 10, 10, 10, 10, 5],
                    toleration: 0,
                },
                TestObjective::Ones,
            ],
            constraints: vec![],
        },
        TestCase {
            answer: vec![0, 1, 1, 0, 1, 0],
            goal: 19,
            items: vec![1, 5, 8, 0, 6, 4],
            objectives: vec![
                TestObjective::Sum {
                    goal: 19,
                    items: vec![1, 5, 8, 0, 6, 4],
                    toleration: 0,
                },
                TestObjective::Ones,
            ],
            constraints: vec![],
        },
    ];

    for c in cases.into_iter() {
        let meta = Params {
            records_length: c.answer.len(),
            objectives: c.objectives,
            constraints: c.constraints,
        };

        let mut optimizer = NSGAOptimizer::new(meta);
        let res = optimizer
            .optimize(DefaultEvaluator::new(500))
            .expect("a well-formed configuration");
        let all: Vec<Vec<isize>> = res.iter().map(|s| s.indices.clone()).collect();

        // The run's history holds exactly one selection that reaches the goal
        // exactly, and it is the expected one.
        let exact: Vec<&Vec<isize>> = all
            .iter()
            .filter(|g| selected_sum(g, &c.items) == c.goal)
            .collect();
        assert_eq!(exact.len(), 1, "archive: {:?}", all);
        assert_eq!(c.answer, *exact[0], "archive: {:?}", all);
    }
}

//! The NSGA-II engine: candidate records, the per-generation sort pass,
//! environmental selection, tournament selection and the generational loop.

use peeking_take_while::PeekableExt;
use vstd::prelude::*;
use crate::crowding::crowding_distances;
use crate::domination::assign_fronts;
use crate::domination::valid_fronts;
use crate::evaluator::Evaluator;
use crate::rng::random_index;
use crate::rng::random_ratio;
use crate::Config;
use crate::ConfigError;
use crate::Meta;
use crate::Ratio;
use crate::Solution;
use crate::SolutionId;

verus! {

/// The engine's working unit: a solution together with the metadata one sort
/// pass assigns to it — its cached constraint-folded score vector, its Pareto
/// front index (0 is best) and its crowding distance.  Front and distance
/// carry no meaning outside a single sort pass.
pub struct Candidate<S: Solution> {
    pub sol: S,
    pub vals: Vec<i64>,
    pub front: usize,
    pub distance: u128,
}

/// Candidate `a` ranks no worse than `b`: a lower front, or the same front
/// and no smaller crowding distance.
pub open spec fn rank_le<S: Solution>(a: Candidate<S>, b: Candidate<S>) -> bool {
    a.front < b.front || (a.front == b.front && a.distance >= b.distance)
}

/// The population is ordered best first: fronts ascending, and inside a front
/// crowding distance descending.
pub open spec fn sorted_by_rank<S: Solution>(s: Seq<Candidate<S>>) -> bool {
    forall|p: int, q: int| 0 <= p < q < s.len() ==> rank_le(#[trigger] s[p], #[trigger] s[q])
}

/// The cached score vectors of a population, as mathematical sequences.
pub open spec fn rows_of<S: Solution>(s: Seq<Candidate<S>>) -> Seq<Seq<i64>> {
    s.map_values(|c: Candidate<S>| c.vals@)
}

/// The front indices of a population.
pub open spec fn fronts_of<S: Solution>(s: Seq<Candidate<S>>) -> Seq<usize> {
    s.map_values(|c: Candidate<S>| c.front)
}

/// Copy a score row.
fn row_copy(v: &Vec<i64>) -> (r: Vec<i64>)
    ensures
        r@ == v@,
{
    let mut out: Vec<i64> = Vec::new();
    let mut i: usize = 0;
    while i < v.len()
        invariant
            i <= v@.len(),
            out@ == v@.subrange(0, i as int),
        decreases v@.len() - i,
    {
        out.push(v[i]);
        i += 1;
    }
    proof {
        assert(out@ =~= v@);
    }
    out
}

/// Duplicate a candidate record: the metadata is copied exactly; the genome
/// is duplicated by its own `Clone`.
pub fn clone_candidate<S: Solution>(c: &Candidate<S>) -> (r: Candidate<S>)
    ensures
        r.front == c.front,
        r.distance == c.distance,
        r.vals@ == c.vals@,
{
    Candidate { sol: c.sol.clone(), vals: row_copy(&c.vals), front: c.front, distance: c.distance }
}

/// The candidate sits in front `f`.
pub fn candidate_has_front<S: Solution>(c: &Candidate<S>, f: usize) -> (r: bool)
    ensures
        r == (c.front == f),
{
    c.front == f
}

/// Relies on `peeking_take_while` of the crate of the same name: splits off
/// the longest prefix of members sitting in front `f` and leaves the rest,
/// including the first member of any other front, unconsumed.
#[verifier::external_body]
fn split_leading_front<S: Solution>(v: Vec<Candidate<S>>, f: usize) -> (r: (
    Vec<Candidate<S>>,
    Vec<Candidate<S>>,
))
    ensures
        v@ == r.0@ + r.1@,
        forall|p: int| 0 <= p < r.0@.len() ==> (#[trigger] r.0@[p]).front == f,
        r.1@.len() > 0 ==> r.1@[0].front != f,
{
    let mut it = v.into_iter().peekable();
    let first: Vec<Candidate<S>> = it
        .by_ref()
        .peeking_take_while(|c| candidate_has_front(c, f))
        .collect();
    let rest: Vec<Candidate<S>> = it.collect();
    (first, rest)
}

/// One sort pass over a population whose score vectors are already cached in
/// the records: assign every member its Pareto front by non-dominated sorting
/// and its crowding distance within that front.  Members keep their position;
/// their solution and score vector are untouched.
#[verifier::loop_isolation(false)]
#[verifier::rlimit(60)]
pub fn rank_population<S: Solution>(pop: Vec<Candidate<S>>) -> (r: Vec<Candidate<S>>)
    requires
        forall|i: int|
            0 <= i < pop@.len() ==> (#[trigger] pop@[i].vals)@.len() == pop@[0].vals@.len(),
    ensures
        r@.len() == pop@.len(),
        forall|i: int|
            0 <= i < pop@.len() ==> (#[trigger] r@[i]).sol == pop@[i].sol && r@[i].vals@
                == pop@[i].vals@,
        valid_fronts(rows_of(r@), fronts_of(r@)),
{
    let ghost pop0 = pop@;
    let n = pop.len();
    let mut vals: Vec<Vec<i64>> = Vec::new();
    let mut i: usize = 0;
    while i < n
        invariant
            i <= n,
            vals@.len() == i,
            forall|x: int| 0 <= x < i ==> (#[trigger] vals@[x])@ == pop@[x].vals@,
        decreases n - i,
    {
        vals.push(row_copy(&pop[i].vals));
        i += 1;
    }
    let fronts = assign_fronts(&vals);
    proof {
        assert forall|x: int| 0 <= x < n implies #[trigger] vals.deep_view()[x] == pop@[x].vals@
            by {
            assert(vals.deep_view()[x] =~= vals@[x]@);
        }
    }
    // crowding distances, one front at a time
    let mut dist: Vec<u128> = Vec::new();
    let mut z: usize = 0;
    while z < n
        invariant
            z <= n,
            dist@.len() == z,
        decreases n - z,
    {
        dist.push(0);
        z += 1;
    }
    let mut f: usize = 0;
    while f < n
        invariant
            dist@.len() == n,
            fronts@.len() == n,
            vals@.len() == n,
            forall|x: int| 0 <= x < n ==> (#[trigger] vals@[x])@ == pop@[x].vals@,
        decreases n - f,
    {
        let mut idxs: Vec<usize> = Vec::new();
        let mut x: usize = 0;
        while x < n
            invariant
                x <= n,
                fronts@.len() == n,
                forall|p: int| 0 <= p < idxs@.len() ==> (#[trigger] idxs@[p] as int) < n,
            decreases n - x,
        {
            if fronts[x] == f {
                idxs.push(x);
            }
            x += 1;
        }
        if idxs.len() > 0 {
            let mut sub: Vec<Vec<i64>> = Vec::new();
            let mut p: usize = 0;
            while p < idxs.len()
                invariant
                    p <= idxs@.len(),
                    sub@.len() == p,
                    vals@.len() == n,
                    forall|q: int| 0 <= q < idxs@.len() ==> (#[trigger] idxs@[q] as int) < n,
                    forall|q: int|
                        0 <= q < p ==> (#[trigger] sub@[q])@ == vals@[idxs@[q] as int]@,
                    forall|x2: int| 0 <= x2 < n ==> (#[trigger] vals@[x2])@ == pop@[x2].vals@,
                decreases idxs@.len() - p,
            {
                sub.push(row_copy(&vals[idxs[p]]));
                p += 1;
            }
            proof {
                assert forall|q: int|
                    0 <= q < sub@.len() implies (#[trigger] sub@[q])@.len() == sub@[0]@.len() by {
                    assert(sub@[q]@ == pop@[idxs@[q] as int].vals@);
                    assert(sub@[0]@ == pop@[idxs@[0] as int].vals@);
                }
            }
            let subd = crowding_distances(&sub);
            let mut p2: usize = 0;
            while p2 < idxs.len()
                invariant
                    p2 <= idxs@.len(),
                    subd@.len() == sub@.len() == idxs@.len(),
                    dist@.len() == n,
                    forall|q: int| 0 <= q < idxs@.len() ==> (#[trigger] idxs@[q] as int) < n,
                decreases idxs@.len() - p2,
            {
                let t = idxs[p2];
                dist[t] = subd[p2];
                p2 += 1;
            }
        }
        f += 1;
    }
    // rebuild the records in place with their front and distance
    let mut rest = pop;
    let mut out: Vec<Candidate<S>> = Vec::new();
    let mut k: usize = 0;
    while k < n
        invariant
            k <= n,
            out@.len() == k,
            rest@.len() == n - k,
            rest@ == pop0.subrange(k as int, n as int),
            fronts@.len() == n,
            dist@.len() == n,
            pop0.len() == n,
            forall|x: int|
                0 <= x < k ==> (#[trigger] out@[x]).sol == pop0[x].sol && out@[x].vals@
                    == pop0[x].vals@ && out@[x].front == fronts@[x] && out@[x].distance
                    == dist@[x],
        decreases n - k,
    {
        let c = rest.remove(0);
        proof {
            assert(rest@ =~= pop0.subrange(k + 1, n as int));
        }
        out.push(Candidate { sol: c.sol, vals: c.vals, front: fronts[k], distance: dist[k] });
        k += 1;
    }
    proof {
        assert forall|x: int| 0 <= x < n implies #[trigger] rows_of(out@)[x] == vals.deep_view()[x]
            by {
            assert(rows_of(out@)[x] == out@[x].vals@);
        }
        assert(rows_of(out@) =~= vals.deep_view());
        assert forall|x: int| 0 <= x < n implies #[trigger] fronts_of(out@)[x] == fronts@[x] by {}
        assert(fronts_of(out@) =~= fronts@);
    }
    out
}

/// Order a population best first: fronts ascending and, inside a front,
/// crowding distance descending.  The records themselves are unchanged: the
/// result is a permutation of the input.
#[verifier::loop_isolation(false)]
#[verifier::rlimit(60)]
pub fn sort_population<S: Solution>(pop: Vec<Candidate<S>>) -> (r: Vec<Candidate<S>>)
    ensures
        r@.len() == pop@.len(),
        r@.to_multiset() == pop@.to_multiset(),
        sorted_by_rank(r@),
{
    broadcast use vstd::seq_lib::group_seq_properties;

    let ghost pop0 = pop@;
    let mut rest = pop;
    let mut out: Vec<Candidate<S>> = Vec::new();
    while rest.len() > 0
        invariant
            out@.len() + rest@.len() == pop0.len(),
            out@.to_multiset().add(rest@.to_multiset()) == pop0.to_multiset(),
            sorted_by_rank(out@),
            forall|a: int, b: int|
                0 <= a < out@.len() && 0 <= b < rest@.len() ==> rank_le(
                    #[trigger] out@[a],
                    #[trigger] rest@[b],
                ),
        decreases rest@.len(),
    {
        let mut mi: usize = 0;
        let mut j: usize = 1;
        while j < rest.len()
            invariant
                (mi as int) < rest@.len(),
                j <= rest@.len(),
                forall|x: int| 0 <= x < j ==> rank_le(rest@[mi as int], #[trigger] rest@[x]),
            decreases rest@.len() - j,
        {
            if rest[j].front < rest[mi].front || (rest[j].front == rest[mi].front
                && rest[j].distance > rest[mi].distance) {
                mi = j;
            }
            j += 1;
        }
        let ghost rest_pre = rest@;
        let c = rest.remove(mi);
        let ghost out_pre = out@;
        out.push(c);
        proof {
            vstd::seq_lib::to_multiset_remove(rest_pre, mi as int);
            vstd::seq_lib::to_multiset_build(out_pre, c);
            assert(out@.to_multiset().add(rest@.to_multiset()) =~= pop0.to_multiset());
            assert forall|a: int, b: int|
                0 <= a < out@.len() && 0 <= b < rest@.len() implies rank_le(
                #[trigger] out@[a],
                #[trigger] rest@[b],
            ) by {
                if b < mi {
                    assert(rest@[b] == rest_pre[b]);
                } else {
                    assert(rest@[b] == rest_pre[b + 1]);
                }
                if a < out_pre.len() {
                    assert(out@[a] == out_pre[a]);
                } else {
                    assert(out@[a] == c);
                }
            }
            assert forall|p: int, q: int|
                0 <= p < q < out@.len() implies rank_le(#[trigger] out@[p], #[trigger] out@[q])
                by {
                if q < out_pre.len() {
                } else {
                    assert(out@[q] == c);
                    assert(rank_le(out_pre[p], rest_pre[mi as int]));
                }
            }
        }
    }
    out
}

/// Environmental selection: from a population ordered best first, keep
/// exactly `pop_size` records by consuming fronts in increasing order and
/// truncating the first front that does not fit by crowding distance
/// descending.  On such an ordering that is exactly the best-first prefix.
#[verifier::loop_isolation(false)]
pub fn select_next_population<S: Solution>(sorted: Vec<Candidate<S>>, pop_size: usize) -> (r: Vec<
    Candidate<S>,
>)
    requires
        sorted@.len() >= pop_size,
        sorted_by_rank(sorted@),
    ensures
        r@.len() == pop_size,
        r@ == sorted@.subrange(0, pop_size as int),
{
    let ghost s0 = sorted@;
    let total = sorted.len();
    let mut rest = sorted;
    let mut next_pop: Vec<Candidate<S>> = Vec::new();
    while next_pop.len() < pop_size
        invariant
            next_pop@.len() <= pop_size,
            s0 == next_pop@ + rest@,
            s0.len() >= pop_size,
            s0.len() == total,
        decreases pop_size - next_pop@.len(),
    {
        let f = rest[0].front;
        let ghost r_pre = rest@;
        let (mut front_items, rest2) = split_leading_front(rest, f);
        rest = rest2;
        if next_pop.len() + front_items.len() <= pop_size {
            let ghost fi = front_items@;
            next_pop.append(&mut front_items);
            proof {
                assert(s0 =~= next_pop@ + rest@);
                // progress: the front split off a non-empty prefix
                if fi.len() == 0 {
                    assert(r_pre =~= rest@);
                    assert(rest@[0].front == f);
                }
            }
        } else {
            let ghost fi0 = front_items@;
            let need = pop_size - next_pop.len();
            let mut taken: usize = 0;
            proof {
                assert(s0 =~= next_pop@ + front_items@ + rest@);
            }
            while taken < need
                invariant
                    taken <= need,
                    need <= fi0.len(),
                    front_items@.len() + taken == fi0.len(),
                    next_pop@.len() == pop_size - need + taken,
                    s0 == next_pop@ + front_items@ + rest@,
                decreases need - taken,
            {
                let c = front_items.remove(0);
                next_pop.push(c);
                proof {
                    assert(s0 =~= next_pop@ + front_items@ + rest@);
                }
                taken += 1;
            }
            proof {
                assert(next_pop@.len() == pop_size);
                assert(next_pop@ =~= s0.subrange(0, pop_size as int));
            }
            return next_pop;
        }
    }
    proof {
        assert(next_pop@ =~= s0.subrange(0, pop_size as int));
    }
    next_pop
}

/// An archived entry `old_vals` survives the arrival of a new front-0 score
/// vector `new_vals` when it is strictly better somewhere, comparing
/// positionwise over the shorter of the two.
pub open spec fn archive_keeps(old_vals: Seq<i64>, new_vals: Seq<i64>) -> bool {
    exists|o: int| 0 <= o < old_vals.len() && 0 <= o < new_vals.len() && old_vals[o] < new_vals[o]
}

/// Decide whether an archived score vector survives a new one.
fn vals_keep(old: &Vec<i64>, new: &Vec<i64>) -> (r: bool)
    ensures
        r == archive_keeps(old@, new@),
{
    let k = if old.len() < new.len() {
        old.len()
    } else {
        new.len()
    };
    let mut i: usize = 0;
    let mut found = false;
    while i < k
        invariant
            k <= old@.len(),
            k <= new@.len(),
            k == (if old@.len() < new@.len() {
                old@.len() as int
            } else {
                new@.len() as int
            }),
            i <= k,
            found == exists|o: int| 0 <= o < i && old@[o] < new@[o],
        decreases k - i,
    {
        if old[i] < new[i] {
            found = true;
        }
        i += 1;
    }
    found
}

/// Record one front-0 member in the best-solutions archive: drop every
/// archived entry that the incoming score vector leaves with no strictly
/// better score, then append the newcomer.
#[verifier::loop_isolation(false)]
pub fn update_archive<S: Solution>(archive: Vec<(Vec<i64>, S)>, vals: Vec<i64>, sol: S) -> (r: Vec<
    (Vec<i64>, S),
>)
    ensures
        r@ == archive@.filter(|e: (Vec<i64>, S)| archive_keeps(e.0@, vals@)).push((vals, sol)),
        r@.len() >= 1,
{
    let ghost a0 = archive@;
    let total = archive.len();
    let ghost pred = |e: (Vec<i64>, S)| archive_keeps(e.0@, vals@);
    let mut rest = archive;
    let mut out: Vec<(Vec<i64>, S)> = Vec::new();
    proof {
        let empty = Seq::<(Vec<i64>, S)>::empty();
        assert(a0.subrange(0, 0) =~= empty);
        empty.lemma_filter_len(pred);
        assert(empty.filter(pred) =~= empty);
    }
    let mut i: usize = 0;
    while rest.len() > 0
        invariant
            i + rest@.len() == a0.len(),
            a0.len() == total,
            rest@ == a0.subrange(i as int, a0.len() as int),
            out@ == a0.subrange(0, i as int).filter(pred),
        decreases rest@.len(),
    {
        let e = rest.remove(0);
        proof {
            assert(rest@ =~= a0.subrange(i + 1, a0.len() as int));
            assert(e == a0[i as int]);
        }
        let keep = vals_keep(&e.0, &vals);
        let ghost taken = a0.subrange(0, i as int);
        proof {
            assert(a0.subrange(0, i + 1) =~= taken.push(a0[i as int]));
            taken.lemma_filter_push(a0[i as int], pred);
        }
        if keep {
            out.push(e);
        }
        i += 1;
    }
    proof {
        assert(a0.subrange(0, a0.len() as int) =~= a0);
    }
    out.push((vals, sol));
    out
}

/// The NSGA-II optimizer: owns the meta-parameters, the identifier counter
/// and the best-solutions archive of one run.
pub struct NSGAOptimizer<S: Solution, M: Meta<S>> {
    meta: M,
    last_id: SolutionId,
    best_solutions: Vec<(Vec<i64>, S)>,
}

impl<S: Solution, M: Meta<S>> NSGAOptimizer<S, M> {
    /// Create an optimizer for the given meta-parameters, with a fresh
    /// identifier counter and an empty best-solutions archive.
    pub fn new(meta: M) -> (r: NSGAOptimizer<S, M>) {
        NSGAOptimizer { meta, last_id: 0, best_solutions: Vec::new() }
    }

    /// Allocate a fresh solution identifier: identifiers count up from one
    /// and are never reused within a run.
    fn next_id(&mut self) -> (id: SolutionId)
        requires
            old(self).last_id < u64::MAX,
        ensures
            final(self).last_id == old(self).last_id + 1,
            id == final(self).last_id,
            final(self).meta == old(self).meta,
            final(self).best_solutions == old(self).best_solutions,
    {
        self.last_id = self.last_id + 1;
        self.last_id
    }

    /// Draw a random event with the given odds.
    fn odds(&self, ratio: &Ratio) -> bool
        requires
            ratio.valid(),
    {
        random_ratio(ratio.0, ratio.1)
    }

    /// Tournament selection: the candidate in the lower front wins; on a
    /// front tie the higher crowding distance wins; on an exact tie the
    /// winner is drawn at random.
    pub fn tournament(&self, p1: Candidate<S>, p2: Candidate<S>) -> (r: Candidate<S>)
        ensures
            r == p1 || r == p2,
            p1.front < p2.front ==> r == p1,
            p2.front < p1.front ==> r == p2,
            p1.front == p2.front && p1.distance > p2.distance ==> r == p1,
            p1.front == p2.front && p2.distance > p1.distance ==> r == p2,
    {
        if p1.front < p2.front {
            p1
        } else if p2.front < p1.front {
            p2
        } else if p1.distance > p2.distance {
            p1
        } else if p2.distance > p1.distance {
            p2
        } else if random_index(2) == 0 {
            p1
        } else {
            p2
        }
    }

    /// The constraint-folded score of a solution under one objective: the
    /// objective's raw score, passed through every constraint in declaration
    /// order.
    fn value(&self, s: &S, obj: &M::Obj) -> i64 {
        let mut v = crate::Objective::value(obj, s);
        let cs = self.meta.constraints();
        let mut c: usize = 0;
        while c < cs.len()
            decreases cs@.len() - c,
        {
            v = crate::Constraint::value(&cs[c], s, v);
            c += 1;
        }
        v
    }

    /// The full constraint-folded score vector of a solution, or nothing when
    /// the meta-parameters no longer offer `m` objectives.
    fn values(&self, s: &S, m: usize) -> (r: Option<Vec<i64>>)
        ensures
            r matches Some(v) ==> v@.len() == m,
    {
        let objs = self.meta.objectives();
        if objs.len() != m {
            return None;
        }
        let mut out: Vec<i64> = Vec::new();
        let mut o: usize = 0;
        while o < m
            invariant
                o <= m,
                out@.len() == o,
                objs@.len() == m,
            decreases m - o,
        {
            let v = self.value(s, &objs[o]);
            out.push(v);
            o += 1;
        }
        Some(out)
    }

    /// Whether solution `s1` dominates solution `s2` under the current
    /// objectives and constraints.
    fn dominates(&self, s1: &S, s2: &S) -> bool {
        let m = self.meta.objectives().len();
        let v1 = self.values(s1, m);
        let v2 = self.values(s2, m);
        match (v1, v2) {
            (Some(a), Some(b)) => crate::domination::vals_dominate(&a, &b),
            _ => false,
        }
    }

    /// One full sort pass: refresh every member's score vector, assign Pareto
    /// fronts and crowding distances, and order the population best first.
    /// Fails only when the meta-parameters stop offering `m` objectives.
    fn sort(&self, pop: Vec<Candidate<S>>, m: usize) -> (r: Result<
        Vec<Candidate<S>>,
        ConfigError,
    >)
        ensures
            r matches Ok(v) ==> v@.len() == pop@.len() && sorted_by_rank(v@) && (forall|i: int|
                0 <= i < v@.len() ==> (#[trigger] v@[i].vals)@.len() == m) && (v@.len() > 0
                ==> v@[0].front == 0),
    {
        let ghost n = pop@.len();
        let mut scored: Vec<Candidate<S>> = Vec::new();
        let mut rest = pop;
        while rest.len() > 0
            invariant
                scored@.len() + rest@.len() == n,
                forall|i: int| 0 <= i < scored@.len() ==> (#[trigger] scored@[i].vals)@.len() == m,
            decreases rest@.len(),
        {
            let c = rest.remove(0);
            let v = self.values(&c.sol, m);
            match v {
                Some(vals) => {
                    scored.push(
                        Candidate { sol: c.sol, vals, front: c.front, distance: c.distance },
                    );
                },
                None => {
                    return Err(ConfigError::ObjectivesChanged);
                },
            }
        }
        let ranked = rank_population(scored);
        let ghost ranked0 = ranked@;
        let sorted = sort_population(ranked);
        proof {
            broadcast use vstd::seq_lib::group_seq_properties;

            assert forall|i: int|
                0 <= i < sorted@.len() implies (#[trigger] sorted@[i].vals)@.len() == m by {
                assert(sorted@.to_multiset().contains(sorted@[i]));
                assert(ranked0.to_multiset().contains(sorted@[i]));
                assert(ranked0.contains(sorted@[i]));
                let x = choose|x: int| 0 <= x < ranked0.len() && ranked0[x] == sorted@[i];
            }
            if sorted@.len() > 0 {
                crate::domination::lemma_some_front_zero(rows_of(ranked0), fronts_of(ranked0), 0);
                let j = choose|j: int|
                    0 <= j < fronts_of(ranked0).len() && fronts_of(ranked0)[j] == 0;
                assert(ranked0[j].front == 0);
                assert(ranked0.to_multiset().contains(ranked0[j]));
                assert(sorted@.to_multiset().contains(ranked0[j]));
                assert(sorted@.contains(ranked0[j]));
                let x = choose|x: int| 0 <= x < sorted@.len() && sorted@[x] == ranked0[j];
                if x > 0 {
                    assert(rank_le(sorted@[0], sorted@[x]));
                }
                assert(sorted@[0].front == 0);
            }
        }
        Ok(sorted)
    }

    /// Whether every objective's early-termination predicate accepts the
    /// candidate's cached score in that objective.
    fn all_good_enough(&self, c: &Candidate<S>, m: usize) -> (r: Result<bool, ConfigError>)
        requires
            c.vals@.len() == m,
    {
        let objs = self.meta.objectives();
        if objs.len() != m {
            return Err(ConfigError::ObjectivesChanged);
        }
        let mut o: usize = 0;
        let mut all = true;
        while o < m
            invariant
                o <= m,
                objs@.len() == m,
                c.vals@.len() == m,
            decreases m - o,
        {
            if !crate::Objective::good_enough(&objs[o], c.vals[o]) {
                all = false;
            }
            o += 1;
        }
        Ok(all)
    }

    /// Run the NSGA-II generational loop and return every accepted solution:
    /// the accumulated best-solutions archive of front-0 members observed
    /// across the whole run, not just the final generation's front.
    ///
    /// The engine stops when some population member's whole score vector
    /// satisfies every objective's early-termination predicate, or when the
    /// evaluator signals termination for the current generation and some
    /// member's score vector.  A configuration defect is reported before the
    /// first generation; a run whose evaluator never signals stop runs
    /// without bound, by design.  A population size that is odd is still
    /// honoured exactly: offspring are bred in pairs and the surplus
    /// offspring of the last pair is discarded.
    #[verifier::loop_isolation(false)]
    #[verifier::rlimit(60)]
    pub fn optimize<E: Evaluator>(&mut self, eval: E) -> (r: Result<Vec<S>, ConfigError>)
        ensures
            r matches Ok(v) ==> v@.len() >= 1,
    {
        let mut eval = eval;
        let pop_size = self.meta.population_size();
        let crossover_odds = self.meta.crossover_odds();
        let mutation_odds = self.meta.mutation_odds();
        let m = self.meta.objectives().len();
        let cfg = Config {
            population_size: pop_size,
            crossover_odds,
            mutation_odds,
            num_objectives: m,
        };
        match crate::validate_config(&cfg) {
            Err(e) => {
                return Err(e);
            },
            Ok(()) => {},
        }
        if ((u64::MAX - self.last_id) as u128) < (pop_size as u128) {
            return Err(ConfigError::IdentifiersExhausted);
        }
        // Initializing: create the starting population with fresh identifiers.
        let ghost id0 = self.last_id;
        let mut raw: Vec<Candidate<S>> = Vec::new();
        let mut i: usize = 0;
        while i < pop_size
            invariant
                i <= pop_size,
                raw@.len() == i,
                self.last_id as int == id0 as int + i,
            decreases pop_size - i,
        {
            let id = self.next_id();
            let sol = self.meta.random_solution(id);
            raw.push(Candidate { sol, vals: Vec::new(), front: 0, distance: 0 });
            i += 1;
        }
        let mut parent_pop = match self.sort(raw, m) {
            Ok(v) => v,
            Err(e) => {
                return Err(e);
            },
        };
        let mut archive: Vec<(Vec<i64>, S)> = Vec::new();
        let mut iter: usize = 0;
        #[verifier::loop_isolation(true)]
        loop
            invariant
                pop_size >= 1,
                crossover_odds.valid(),
                mutation_odds.valid(),
                parent_pop@.len() == pop_size,
                sorted_by_rank(parent_pop@),
                forall|x: int|
                    0 <= x < parent_pop@.len() ==> (#[trigger] parent_pop@[x].vals)@.len() == m,
                parent_pop@[0].front == 0,
            ensures
                archive@.len() >= 1,
            decreases usize::MAX - iter,
        {
            // Evaluating-generation: snapshot front 0 into the archive.
            let mut p: usize = 0;
            while p < pop_size && candidate_has_front(&parent_pop[p], 0)
                invariant
                    p <= pop_size,
                    p >= 1 ==> archive@.len() >= 1,
                decreases pop_size - p,
            {
                let vrow = row_copy(&parent_pop[p].vals);
                let sclone = parent_pop[p].sol.clone();
                archive = update_archive(archive, vrow, sclone);
                p += 1;
            }
            proof {
                if p == 0 {
                    assert(parent_pop@[0].front == 0);
                    assert(false);
                }
            }
            // Checking-termination: a good-enough member stops the search.
            let mut good = false;
            let mut q: usize = 0;
            while q < pop_size
                invariant
                    q <= pop_size,
                    archive@.len() >= 1,
                decreases pop_size - q,
            {
                match self.all_good_enough(&parent_pop[q], m) {
                    Ok(true) => {
                        good = true;
                    },
                    Ok(false) => {},
                    Err(e) => {
                        return Err(e);
                    },
                }
                q += 1;
            }
            if good {
                break;
            }
            // Checking-termination: ask the pluggable evaluator.
            let mut stop = false;
            let mut q2: usize = 0;
            while q2 < pop_size
                invariant
                    q2 <= pop_size,
                    archive@.len() >= 1,
                decreases pop_size - q2,
            {
                if eval.can_terminate(iter, row_copy(&parent_pop[q2].vals)) {
                    stop = true;
                }
                q2 += 1;
            }
            if stop {
                break;
            }
            // Stop before the iteration counter or the identifier space can
            // overflow; neither bound is reachable in practice.
            if iter == usize::MAX {
                break;
            }
            if ((u64::MAX - self.last_id) as u128) < 4 * (pop_size as u128) + 4 {
                break;
            }
            // Reproducing: breed offspring in pairs from tournament winners.
            let ghost gen_id0 = self.last_id;
            let mut child_pop: Vec<Candidate<S>> = Vec::new();
            while child_pop.len() < pop_size
                invariant
                    child_pop@.len() <= pop_size,
                    self.last_id as u128 <= gen_id0 as u128 + 2 * (child_pop@.len() as u128)
                        + 2,
                    (u64::MAX - gen_id0) as u128 >= 4 * (pop_size as u128) + 4,
                    forall|x: int|
                        0 <= x < child_pop@.len() ==> (#[trigger] child_pop@[x].vals)@.len()
                            == m,
                decreases pop_size - child_pop@.len(),
            {
                let i1 = random_index(pop_size);
                let i2 = random_index(pop_size);
                let i3 = random_index(pop_size);
                let i4 = random_index(pop_size);
                let p1 = clone_candidate(&parent_pop[i1]);
                let p2 = clone_candidate(&parent_pop[i2]);
                let p3 = clone_candidate(&parent_pop[i3]);
                let p4 = clone_candidate(&parent_pop[i4]);
                let mut c1 = self.tournament(p1, p2);
                let mut c2 = self.tournament(p3, p4);
                if self.odds(&crossover_odds) {
                    c1.sol.crossover(&mut c2.sol);
                }
                if self.odds(&mutation_odds) {
                    c1.sol.mutate();
                }
                if self.odds(&mutation_odds) {
                    c2.sol.mutate();
                }
                let id1 = self.next_id();
                c1.sol.set_id(id1);
                let id2 = self.next_id();
                c2.sol.set_id(id2);
                child_pop.push(c1);
                if child_pop.len() < pop_size {
                    child_pop.push(c2);
                }
            }
            // Selecting: sort the merged population and keep the best.
            let mut merged = parent_pop;
            merged.append(&mut child_pop);
            let sorted2 = match self.sort(merged, m) {
                Ok(v) => v,
                Err(e) => {
                    return Err(e);
                },
            };
            let selected = select_next_population(sorted2, pop_size);
            proof {
                assert forall|a: int, b: int|
                    0 <= a < b < selected@.len() implies rank_le(
                    #[trigger] selected@[a],
                    #[trigger] selected@[b],
                ) by {}
                assert forall|x: int|
                    0 <= x < selected@.len() implies (#[trigger] selected@[x].vals)@.len() == m
                    by {}
            }
            parent_pop = selected;
            iter += 1;
        }
        // Terminated: hand out the archived solutions, oldest first.
        let mut out: Vec<S> = Vec::new();
        while archive.len() > 0
            invariant
                out@.len() + archive@.len() >= 1,
            decreases archive@.len(),
        {
            let e = archive.remove(0);
            out.push(e.1);
        }
        Ok(out)
    }
}

} // verus!

//! Crowding distance: the density estimator NSGA-II uses within one Pareto
//! front to prefer boundary and sparsely placed members during truncation.

use vstd::prelude::*;

verus! {

/// The sentinel for an unbounded crowding distance.  The two boundary members
/// of a front per objective receive it, which guarantees that they survive
/// truncation before any interior member.
pub const INFINITE_DISTANCE: u128 = u128::MAX;

/// The fixed-point scale of one normalized objective gap: an interior
/// member's distance accumulates `gap * DISTANCE_SCALE / range` over the
/// objectives, so a whole normalized unit contributes this many steps.
pub const DISTANCE_SCALE: u128 = 0x1_0000_0000;

/// Member `a` comes no later than member `b` when front members are ordered
/// by objective `o`: strictly smaller score, or an equal score with the tie
/// broken by position.
pub open spec fn lex_le(vals: Seq<Seq<i64>>, o: int, a: int, b: int) -> bool {
    vals[a][o] < vals[b][o] || (vals[a][o] == vals[b][o] && a <= b)
}

/// Member `i` is the first or the last member of the front in the order of
/// objective `o`: it holds the minimal or the maximal score, with ties broken
/// by position.
pub open spec fn is_extreme(vals: Seq<Seq<i64>>, o: int, i: int) -> bool {
    (forall|j: int| 0 <= j < vals.len() ==> lex_le(vals, o, i, j)) || (forall|j: int|
        0 <= j < vals.len() ==> lex_le(vals, o, j, i))
}

/// Member `i` is a boundary member of the front: extreme in some objective.
pub open spec fn is_boundary(vals: Seq<Seq<i64>>, width: int, i: int) -> bool {
    exists|o: int| 0 <= o < width && is_extreme(vals, o, i)
}

/// Assign every member of one front its crowding distance.
///
/// `vals[i]` is the score vector of front member `i`; all vectors have the
/// same width.  Exactly the boundary members per objective — the minimal and
/// the maximal one, ties broken by position — receive the
/// [`INFINITE_DISTANCE`] sentinel; every other member accumulates, over the
/// objectives, its sorted neighbours' score gap normalized by the objective's
/// score range on this front, as a fixed-point count of
/// [`DISTANCE_SCALE`] steps.  A degenerate objective whose scores all agree
/// contributes zero, with the normalization denominator taken as one.
#[verifier::loop_isolation(false)]
#[verifier::rlimit(60)]
pub fn crowding_distances(vals: &Vec<Vec<i64>>) -> (dist: Vec<u128>)
    requires
        forall|i: int| 0 <= i < vals@.len() ==> #[trigger] vals@[i]@.len() == vals@[0]@.len(),
    ensures
        dist@.len() == vals@.len(),
        forall|i: int|
            0 <= i < vals@.len() ==> (#[trigger] dist@[i] == INFINITE_DISTANCE <==> is_boundary(
                vals.deep_view(),
                vals@[0]@.len() as int,
                i,
            )),
{
    let ghost g: Seq<Seq<i64>> = vals.deep_view();
    let n = vals.len();
    proof {
        assert(g.len() == n);
        assert forall|i: int| 0 <= i < n implies #[trigger] g[i] == vals@[i]@ by {
            assert(g[i] =~= vals@[i]@);
        }
    }
    let mut dist: Vec<u128> = Vec::new();
    let mut z: usize = 0;
    while z < n
        invariant
            z <= n,
            dist@.len() == z,
            forall|i: int| 0 <= i < z ==> #[trigger] dist@[i] == 0,
        decreases n - z,
    {
        dist.push(0);
        z += 1;
    }
    if n == 0 {
        return dist;
    }
    let m = vals[0].len();
    let mut o: usize = 0;
    while o < m
        invariant
            n >= 1,
            g.len() == n,
            m == g[0].len(),
            forall|i: int| 0 <= i < n ==> #[trigger] g[i].len() == m,
            o <= m,
            dist@.len() == n,
            forall|i: int|
                0 <= i < n ==> (#[trigger] dist@[i] == INFINITE_DISTANCE <==> exists|o2: int|
                    0 <= o2 < o && is_extreme(g, o2, i)),
            forall|i: int|
                0 <= i < n && dist@[i] != INFINITE_DISTANCE ==> #[trigger] dist@[i] <= o
                    * DISTANCE_SCALE,
        decreases m - o,
    {
        // Boundary scan: the first minimal and the last maximal member.
        let mut minv: i64 = vals[0][o];
        let mut maxv: i64 = vals[0][o];
        let mut argmin: usize = 0;
        let mut argmax: usize = 0;
        let mut j: usize = 1;
        while j < n
            invariant
                1 <= j <= n,
                (argmin as int) < j,
                (argmax as int) < j,
                minv == g[argmin as int][o as int],
                maxv == g[argmax as int][o as int],
                forall|x: int| 0 <= x < j ==> lex_le(g, o as int, argmin as int, x),
                forall|x: int| 0 <= x < j ==> lex_le(g, o as int, x, argmax as int),
            decreases n - j,
        {
            let vj = vals[j][o];
            let ghost am0 = argmin as int;
            let ghost ax0 = argmax as int;
            if vj < minv {
                minv = vj;
                argmin = j;
            }
            if vj >= maxv {
                maxv = vj;
                argmax = j;
            }
            proof {
                assert forall|x: int| 0 <= x < j + 1 implies lex_le(g, o as int, argmin as int, x)
                    by {
                    if x < j {
                        assert(lex_le(g, o as int, am0, x));
                    }
                }
                assert forall|x: int| 0 <= x < j + 1 implies lex_le(g, o as int, x, argmax as int)
                    by {
                    if x < j {
                        assert(lex_le(g, o as int, x, ax0));
                    }
                }
            }
            j += 1;
        }
        dist[argmin] = INFINITE_DISTANCE;
        dist[argmax] = INFINITE_DISTANCE;
        proof {
            assert(is_extreme(g, o as int, argmin as int));
            assert(is_extreme(g, o as int, argmax as int));
            assert forall|i: int|
                0 <= i < n implies (#[trigger] dist@[i] == INFINITE_DISTANCE <==> exists|o2: int|
                0 <= o2 < o + 1 && is_extreme(g, o2, i)) by {
                if dist@[i] == INFINITE_DISTANCE {
                    if i == argmin as int {
                        assert(is_extreme(g, o as int, i));
                    } else if i == argmax as int {
                        assert(is_extreme(g, o as int, i));
                    } else {
                        let o2 = choose|o2: int| 0 <= o2 < o && is_extreme(g, o2, i);
                        assert(0 <= o2 < o + 1 && is_extreme(g, o2, i));
                    }
                } else {
                    if exists|o2: int| 0 <= o2 < o + 1 && is_extreme(g, o2, i) {
                        let o2 = choose|o2: int| 0 <= o2 < o + 1 && is_extreme(g, o2, i);
                        if o2 == o {
                            // an extreme member for this objective is the
                            // scanned argmin or argmax, which was just marked
                            if forall|x: int| 0 <= x < n ==> lex_le(g, o as int, i, x) {
                                assert(lex_le(g, o as int, i, argmin as int));
                                assert(lex_le(g, o as int, argmin as int, i));
                                assert(i == argmin as int);
                            } else {
                                assert(forall|x: int| 0 <= x < n ==> lex_le(g, o as int, x, i));
                                assert(lex_le(g, o as int, argmax as int, i));
                                assert(lex_le(g, o as int, i, argmax as int));
                                assert(i == argmax as int);
                            }
                            assert(false);
                        }
                    }
                }
            }
        }
        // Normalization denominator: the score range, or one if degenerate.
        let dd: u128 = if maxv > minv {
            (maxv as i128 - minv as i128) as u128
        } else {
            1
        };
        // Interior members accumulate their sorted neighbours' gap.
        let mut i: usize = 0;
        while i < n
            invariant
                i <= n,
                dist@.len() == n,
                dd >= 1,
                minv == g[argmin as int][o as int],
                maxv == g[argmax as int][o as int],
                (argmin as int) < n,
                (argmax as int) < n,
                maxv > minv ==> dd == maxv - minv,
                maxv <= minv ==> dd == 1,
                forall|x: int| 0 <= x < n ==> lex_le(g, o as int, argmin as int, x),
                forall|x: int| 0 <= x < n ==> lex_le(g, o as int, x, argmax as int),
                forall|x: int|
                    0 <= x < n ==> (#[trigger] dist@[x] == INFINITE_DISTANCE <==> exists|o2: int|
                        0 <= o2 < o + 1 && is_extreme(g, o2, x)),
                forall|x: int|
                    0 <= x < n && dist@[x] != INFINITE_DISTANCE && x < i ==> #[trigger] dist@[x]
                        <= (o + 1) * DISTANCE_SCALE,
                forall|x: int|
                    0 <= x < n && dist@[x] != INFINITE_DISTANCE && x >= i ==> #[trigger] dist@[x]
                        <= o * DISTANCE_SCALE,
            decreases n - i,
        {
            if dist[i] != INFINITE_DISTANCE {
                // An interior member is neither the argmin nor the argmax, so
                // it has a predecessor and a successor in this objective's
                // order; scan for them.
                proof {
                    assert(i as int != argmin as int);
                    assert(i as int != argmax as int);
                    assert(lex_le(g, o as int, argmin as int, i as int));
                    assert(lex_le(g, o as int, i as int, argmax as int));
                }
                let mut pred: usize = argmin;
                let mut succ: usize = argmax;
                let mut x: usize = 0;
                while x < n
                    invariant
                        x <= n,
                        i < n,
                        (pred as int) < n,
                        (succ as int) < n,
                        (i as int) != argmin as int,
                        (i as int) != argmax as int,
                        lex_le(g, o as int, pred as int, i as int) && pred != i,
                        lex_le(g, o as int, i as int, succ as int) && succ != i,
                        forall|y: int| 0 <= y < n ==> lex_le(g, o as int, argmin as int, y),
                        forall|y: int| 0 <= y < n ==> lex_le(g, o as int, y, argmax as int),
                    decreases n - x,
                {
                    if x != i {
                        let vx = vals[x][o];
                        let vi = vals[i][o];
                        let vp = vals[pred][o];
                        let vs = vals[succ][o];
                        if (vx < vi || (vx == vi && x < i)) && (vx > vp || (vx == vp && x > pred))
                        {
                            pred = x;
                        }
                        if (vx > vi || (vx == vi && x > i)) && (vx < vs || (vx == vs && x < succ))
                        {
                            succ = x;
                        }
                    }
                    x += 1;
                }
                let vp = vals[pred][o];
                let vs = vals[succ][o];
                proof {
                    assert(lex_le(g, o as int, argmin as int, pred as int));
                    assert(lex_le(g, o as int, pred as int, argmax as int));
                    assert(lex_le(g, o as int, argmin as int, succ as int));
                    assert(lex_le(g, o as int, succ as int, argmax as int));
                    assert(minv <= vp <= maxv);
                    assert(minv <= vs <= maxv);
                    assert(g[pred as int][o as int] <= g[i as int][o as int]);
                    assert(g[i as int][o as int] <= g[succ as int][o as int]);
                }
                let gap: u128 = (vs as i128 - vp as i128) as u128;
                proof {
                    assert(gap <= dd);
                    assert((gap as int) * (DISTANCE_SCALE as int) / (dd as int) <= (
                    DISTANCE_SCALE as int)) by (nonlinear_arith)
                        requires
                            gap <= dd,
                            dd >= 1,
                    ;
                }
                let contribution: u128 = gap * DISTANCE_SCALE / dd;
                let di = dist[i];
                proof {
                    assert(di <= o * DISTANCE_SCALE);
                    assert((o + 1) * DISTANCE_SCALE == o * DISTANCE_SCALE + DISTANCE_SCALE)
                        by (nonlinear_arith);
                    assert(m * DISTANCE_SCALE <= 0x1_0000_0000_0000_0000 * DISTANCE_SCALE)
                        by (nonlinear_arith)
                        requires m <= 0x1_0000_0000_0000_0000;
                }
                dist[i] = di + contribution;
            }
            i += 1;
        }
        o += 1;
        proof {
            assert((o - 1) * DISTANCE_SCALE <= o * DISTANCE_SCALE) by (nonlinear_arith)
                requires o >= 1;
        }
    }
    dist
}

/// A front of at most two members consists of boundary members only: with
/// two members, one is the first and the other the last in any objective's
/// order, so both always receive the maximal distance sentinel.
pub proof fn lemma_small_front_all_boundary(vals: Seq<Seq<i64>>, width: int, i: int)
    requires
        1 <= vals.len() <= 2,
        0 <= i < vals.len(),
        width >= 1,
        forall|x: int| 0 <= x < vals.len() ==> #[trigger] vals[x].len() == width,
    ensures
        is_boundary(vals, width, i),
{
    if vals.len() == 1 {
        assert(lex_le(vals, 0, i, i));
        assert(forall|j: int| 0 <= j < vals.len() ==> lex_le(vals, 0, i, j));
        assert(is_extreme(vals, 0, i));
    } else {
        let other = 1 - i;
        if lex_le(vals, 0, i, other) {
            assert(lex_le(vals, 0, i, i));
            assert(forall|j: int| 0 <= j < vals.len() ==> lex_le(vals, 0, i, j));
        } else {
            assert(lex_le(vals, 0, other, i));
            assert(lex_le(vals, 0, i, i));
            assert(forall|j: int| 0 <= j < vals.len() ==> lex_le(vals, 0, j, i));
        }
        assert(is_extreme(vals, 0, i));
    }
}

} // verus!

//! The domination relation over objective-score vectors, and the assignment
//! of Pareto-front indices by the fast non-dominated sort.

use vstd::prelude::*;

verus! {

use vstd::set::axiom_set_choose_len;
use vstd::set::axiom_set_contains_len;
use vstd::set::axiom_set_remove_len;

/// Score vector `a` dominates score vector `b`: `a` is no worse in every
/// objective and strictly better in at least one.  Lower scores are better.
/// Vectors of unequal width never dominate each other.
pub open spec fn dominates(a: Seq<i64>, b: Seq<i64>) -> bool {
    &&& a.len() == b.len()
    &&& forall|o: int| 0 <= o < a.len() ==> a[o] <= b[o]
    &&& exists|o: int| 0 <= o < a.len() && a[o] < b[o]
}

/// Decide whether score vector `a` dominates score vector `b`.
pub fn vals_dominate(a: &Vec<i64>, b: &Vec<i64>) -> (r: bool)
    ensures
        r == dominates(a@, b@),
{
    if a.len() != b.len() {
        return false;
    }
    let n = a.len();
    let mut any_lt = false;
    let mut i: usize = 0;
    while i < n
        invariant
            n == a@.len() == b@.len(),
            i <= n,
            forall|o: int| 0 <= o < i ==> a@[o] <= b@[o],
            any_lt == exists|o: int| 0 <= o < i && a@[o] < b@[o],
        decreases n - i,
    {
        if a[i] > b[i] {
            return false;
        }
        if a[i] < b[i] {
            any_lt = true;
        }
        i += 1;
    }
    any_lt
}

/// Two score vectors never dominate each other both ways.
pub proof fn lemma_dominates_asymmetric(a: Seq<i64>, b: Seq<i64>)
    ensures
        !(dominates(a, b) && dominates(b, a)),
{
    if dominates(a, b) && dominates(b, a) {
        let o = choose|o: int| 0 <= o < a.len() && a[o] < b[o];
        assert(b[o] <= a[o]);
    }
}

/// No score vector dominates itself.
pub proof fn lemma_dominates_irreflexive(a: Seq<i64>)
    ensures
        !dominates(a, a),
{
}

/// Domination is transitive.
pub proof fn lemma_dominates_transitive(a: Seq<i64>, b: Seq<i64>, c: Seq<i64>)
    requires
        dominates(a, b),
        dominates(b, c),
    ensures
        dominates(a, c),
{
    let o = choose|o: int| 0 <= o < a.len() && a[o] < b[o];
    assert(a[o] < c[o]);
}

/// What a non-dominated sort must deliver: `fronts[i]` is the dominance depth
/// of member `i` of the population whose score vectors are `vals`.
///
/// A member's dominators all sit in strictly earlier fronts, and every member
/// of a front above zero is dominated by some member of the front directly
/// before its own.  These two conditions pin the assignment down completely:
/// front zero holds exactly the non-dominated members, and front `k` the
/// members dominated only by fronts below `k`.
pub open spec fn valid_fronts(vals: Seq<Seq<i64>>, fronts: Seq<usize>) -> bool {
    &&& fronts.len() == vals.len()
    &&& forall|i: int, j: int|
        0 <= i < vals.len() && 0 <= j < vals.len() && dominates(vals[j], vals[i])
            ==> #[trigger] fronts[j] < #[trigger] fronts[i]
    &&& forall|i: int|
        0 <= i < vals.len() && #[trigger] fronts[i] > 0 ==> exists|j: int|
            0 <= j < vals.len() && dominates(vals[j], vals[i]) && fronts[j] + 1 == fronts[i]
}

proof fn lemma_fronts_pointwise_le(vals: Seq<Seq<i64>>, f1: Seq<usize>, f2: Seq<usize>, k: nat)
    requires
        valid_fronts(vals, f1),
        valid_fronts(vals, f2),
    ensures
        forall|i: int| 0 <= i < vals.len() && f1[i] <= k ==> f2[i] <= f1[i],
    decreases k,
{
    if k > 0 {
        lemma_fronts_pointwise_le(vals, f1, f2, (k - 1) as nat);
    }
    assert forall|i: int| 0 <= i < vals.len() && f1[i] <= k implies f2[i] <= f1[i] by {
        if f2[i] > f1[i] {
            let j = choose|j: int|
                0 <= j < vals.len() && dominates(vals[j], vals[i]) && f2[j] + 1 == f2[i];
            assert(f1[j] < f1[i]);
            if k > 0 {
                assert(f1[j] <= k - 1);
                assert(f2[j] <= f1[j]);
            }
        }
    }
}

/// The front assignment of a population is unique: any two assignments that
/// both satisfy `valid_fronts` for the same score vectors agree everywhere.
/// Re-sorting an already-sorted population therefore reproduces its front
/// partition exactly, as long as the score vectors are unchanged.
pub proof fn lemma_fronts_unique(vals: Seq<Seq<i64>>, f1: Seq<usize>, f2: Seq<usize>)
    requires
        valid_fronts(vals, f1),
        valid_fronts(vals, f2),
    ensures
        f1 == f2,
{
    assert forall|i: int| 0 <= i < vals.len() implies f1[i] == f2[i] by {
        lemma_fronts_pointwise_le(vals, f1, f2, f1[i] as nat);
        lemma_fronts_pointwise_le(vals, f2, f1, f2[i] as nat);
    }
    assert(f1 =~= f2);
}

/// Every population with a valid front assignment has a member in front 0:
/// walking the witnesses of the second `valid_fronts` condition descends to
/// depth zero.
pub proof fn lemma_some_front_zero(vals: Seq<Seq<i64>>, fronts: Seq<usize>, i: int)
    requires
        valid_fronts(vals, fronts),
        0 <= i < fronts.len(),
    ensures
        exists|j: int| 0 <= j < fronts.len() && fronts[j] == 0,
    decreases fronts[i],
{
    if fronts[i] == 0 {
        assert(0 <= i < fronts.len() && fronts[i] == 0);
    } else {
        let j = choose|j: int|
            0 <= j < vals.len() && dominates(vals[j], vals[i]) && fronts[j] + 1 == fronts[i];
        lemma_some_front_zero(vals, fronts, j);
    }
}

/// The set of members that dominate `t` and are not yet marked processed.
pub(crate) open spec fn unproc_dom(g: Seq<Seq<i64>>, processed: Seq<bool>, t: int) -> Set<int> {
    Set::new(|j: int| 0 <= j < g.len() && dominates(g[j], g[t]) && !processed[j])
}

/// Index `t` occurs among the first `e` entries of `l`.
pub(crate) open spec fn in_prefix(l: Seq<usize>, e: int, t: int) -> bool {
    exists|p: int| 0 <= p < e && l[p] as int == t
}

/// A well-formed dominated-members list for member `i`: strictly increasing,
/// and holding exactly the members that `i` dominates.
pub(crate) open spec fn dl_ok(g: Seq<Seq<i64>>, l: Seq<usize>, i: int) -> bool {
    &&& forall|p: int, q: int| 0 <= p < q < l.len() ==> #[trigger] l[p] < #[trigger] l[q]
    &&& forall|p: int|
        0 <= p < l.len() ==> (#[trigger] l[p] as int) < g.len() && dominates(g[i], g[l[p] as int])
    &&& forall|t: int| 0 <= t < g.len() && dominates(g[i], g[t]) ==> in_prefix(l, l.len() as int, t)
}

proof fn lemma_unproc_finite(g: Seq<Seq<i64>>, processed: Seq<bool>, t: int)
    ensures
        unproc_dom(g, processed, t).finite(),
        unproc_dom(g, processed, t).len() <= g.len(),
{
    let s = unproc_dom(g, processed, t);
    let r = vstd::set_lib::set_int_range(0, g.len() as int);
    vstd::set_lib::lemma_int_range(0, g.len() as int);
    assert(s.subset_of(r));
    vstd::set_lib::lemma_len_subset(s, r);
}

/// Every finite, non-empty collection of members holds one that no other of
/// its members dominates: domination is irreflexive and transitive, so it has
/// no cycles.
proof fn lemma_exists_nondominated(g: Seq<Seq<i64>>, s: Set<int>)
    requires
        s.finite(),
        s.len() > 0,
    ensures
        exists|m: int|
            s.contains(m) && forall|j: int| s.contains(j) ==> !dominates(g[j], g[m]),
    decreases s.len(),
{
    broadcast use vstd::set::group_set_axioms;

    let x = s.choose();
    assert(s.contains(x));
    let s2 = s.remove(x);
    if s2.len() == 0 {
        vstd::set_lib::lemma_set_empty_equivalency_len(s2);
        assert forall|j: int| s.contains(j) implies !dominates(g[j], g[x]) by {
            if j != x {
                assert(s2.contains(j));
            }
        }
        assert(s.contains(x) && forall|j: int| s.contains(j) ==> !dominates(g[j], g[x]));
    } else {
        lemma_exists_nondominated(g, s2);
        let m = choose|m: int|
            s2.contains(m) && forall|j: int| s2.contains(j) ==> !dominates(g[j], g[m]);
        if !dominates(g[x], g[m]) {
            assert forall|j: int| s.contains(j) implies !dominates(g[j], g[m]) by {
                if j != x {
                    assert(s2.contains(j));
                }
            }
            assert(s.contains(m) && forall|j: int| s.contains(j) ==> !dominates(g[j], g[m]));
        } else {
            assert forall|j: int| s.contains(j) implies !dominates(g[j], g[x]) by {
                if j == x {
                    lemma_dominates_irreflexive(g[x]);
                } else if s2.contains(j) && dominates(g[j], g[x]) {
                    lemma_dominates_transitive(g[j], g[x], g[m]);
                }
            }
            assert(s.contains(x) && forall|j: int| s.contains(j) ==> !dominates(g[j], g[x]));
        }
    }
}

/// The set of dominators of member `t`.
pub(crate) open spec fn dom_set(g: Seq<Seq<i64>>, t: int) -> Set<int> {
    Set::new(|j: int| 0 <= j < g.len() && dominates(g[j], g[t]))
}

/// For every member, count its dominators and list the members it dominates.
#[verifier::loop_isolation(false)]
#[verifier::rlimit(60)]
fn dominance_structure(vals: &Vec<Vec<i64>>) -> (r: (Vec<usize>, Vec<Vec<usize>>))
    ensures
        r.0@.len() == vals@.len(),
        r.1@.len() == vals@.len(),
        forall|x: int|
            0 <= x < vals@.len() ==> #[trigger] r.0@[x] == dom_set(vals.deep_view(), x).len(),
        forall|x: int| 0 <= x < vals@.len() ==> dl_ok(vals.deep_view(), #[trigger] r.1@[x]@, x),
{
    broadcast use vstd::set::group_set_axioms;

    let ghost g: Seq<Seq<i64>> = vals.deep_view();
    let n = vals.len();
    proof {
        assert(g.len() == n);
        assert forall|i: int| 0 <= i < n implies #[trigger] g[i] == vals@[i]@ by {
            assert(g[i] =~= vals@[i]@);
        }
    }
    let mut count: Vec<usize> = Vec::new();
    let mut dlist: Vec<Vec<usize>> = Vec::new();
    let mut i: usize = 0;
    while i < n
        invariant
            i <= n,
            count@.len() == i,
            dlist@.len() == i,
            forall|x: int| 0 <= x < i ==> #[trigger] count@[x] == dom_set(g, x).len(),
            forall|x: int| 0 <= x < i ==> dl_ok(g, #[trigger] dlist@[x]@, x),
        decreases n - i,
    {
        let mut c: usize = 0;
        let mut l: Vec<usize> = Vec::new();
        let mut j: usize = 0;
        proof {
            assert(Set::new(|x: int| 0 <= x < 0 && dominates(g[x], g[i as int])) =~= Set::empty());
        }
        while j < n
            invariant
                i < n,
                j <= n,
                c == Set::new(|x: int| 0 <= x < j && dominates(g[x], g[i as int])).len(),
                c <= j,
                forall|p: int, q: int| 0 <= p < q < l@.len() ==> #[trigger] l@[p] < #[trigger] l@[q],
                forall|p: int|
                    0 <= p < l@.len() ==> (#[trigger] l@[p] as int) < j && dominates(
                        g[i as int],
                        g[l@[p] as int],
                    ),
                forall|t: int|
                    0 <= t < j && dominates(g[i as int], g[t]) ==> in_prefix(
                        l@,
                        l@.len() as int,
                        t,
                    ),
            decreases n - j,
        {
            let ghost cset = Set::new(|x: int| 0 <= x < j && dominates(g[x], g[i as int]));
            proof {
                let r = vstd::set_lib::set_int_range(0, j as int);
                vstd::set_lib::lemma_int_range(0, j as int);
                assert(cset.subset_of(r));
                vstd::set_lib::lemma_len_subset(cset, r);
            }
            if vals_dominate(&vals[j], &vals[i]) {
                proof {
                    assert(Set::new(
                        |x: int| 0 <= x < j + 1 && dominates(g[x], g[i as int]),
                    ) =~= cset.insert(j as int));
                }
                c += 1;
            } else {
                proof {
                    assert(Set::new(
                        |x: int| 0 <= x < j + 1 && dominates(g[x], g[i as int]),
                    ) =~= cset);
                }
            }
            if vals_dominate(&vals[i], &vals[j]) {
                let ghost lold = l@;
                l.push(j);
                proof {
                    assert forall|t: int|
                        0 <= t < j + 1 && dominates(g[i as int], g[t]) implies in_prefix(
                        l@,
                        l@.len() as int,
                        t,
                    ) by {
                        if t < j {
                            assert(in_prefix(lold, lold.len() as int, t));
                            let p = choose|p: int| 0 <= p < lold.len() && lold[p] as int == t;
                            assert(l@[p] as int == t);
                        } else {
                            assert(l@[l@.len() - 1] as int == t);
                        }
                    }
                }
            } else {
                proof {
                    assert forall|t: int|
                        0 <= t < j + 1 && dominates(g[i as int], g[t]) implies in_prefix(
                        l@,
                        l@.len() as int,
                        t,
                    ) by {
                        lemma_dominates_irreflexive(g[i as int]);
                    }
                }
            }
            j += 1;
        }
        proof {
            assert(Set::new(|x: int| 0 <= x < n && dominates(g[x], g[i as int])) =~= dom_set(
                g,
                i as int,
            ));
            assert(dl_ok(g, l@, i as int));
        }
        count.push(c);
        dlist.push(l);
        i += 1;
    }
    (count, dlist)
}

/// Collect front 0: every member with no dominators.
#[verifier::loop_isolation(false)]
#[verifier::rlimit(60)]
fn initial_front(count: &Vec<usize>, Ghost(g): Ghost<Seq<Seq<i64>>>) -> (r: (
    Vec<usize>,
    Vec<bool>,
    Vec<usize>,
    Ghost<Set<int>>,
))
    requires
        count@.len() == g.len(),
        forall|x: int| 0 <= x < g.len() ==> #[trigger] count@[x] == dom_set(g, x).len(),
    ensures
        r.0@.len() == g.len(),
        r.1@.len() == g.len(),
        forall|x: int| 0 <= x < g.len() ==> #[trigger] r.0@[x] == 0,
        forall|x: int| 0 <= x < g.len() ==> (#[trigger] r.1@[x] <==> count@[x] == 0),
        forall|p: int|
            0 <= p < r.2@.len() ==> (#[trigger] r.2@[p] as int) < g.len()
                && r.1@[r.2@[p] as int],
        forall|p: int, q: int| 0 <= p < q < r.2@.len() ==> #[trigger] r.2@[p] != #[trigger] r.2@[q],
        forall|x: int|
            0 <= x < g.len() && r.1@[x] ==> in_prefix(r.2@, r.2@.len() as int, x),
        forall|i: int, j: int|
            #![trigger r.1@[i], g[j]]
            0 <= i < g.len() && 0 <= j < g.len() && r.1@[i] ==> !dominates(g[j], g[i]),
        r.3@.finite(),
        r.3@.len() == r.2@.len(),
        forall|x: int| #[trigger] r.3@.contains(x) <==> 0 <= x < g.len() && r.1@[x],
{
    broadcast use vstd::set::group_set_axioms;

    let n = count.len();
    let mut front: Vec<usize> = Vec::new();
    let mut assigned: Vec<bool> = Vec::new();
    let mut i2: usize = 0;
    while i2 < n
        invariant
            i2 <= n,
            front@.len() == i2,
            assigned@.len() == i2,
            forall|x: int| 0 <= x < i2 ==> #[trigger] front@[x] == 0,
            forall|x: int| 0 <= x < i2 ==> (#[trigger] assigned@[x] <==> count@[x] == 0),
        decreases n - i2,
    {
        front.push(0);
        assigned.push(count[i2] == 0);
        i2 += 1;
    }
    let mut current: Vec<usize> = Vec::new();
    let ghost mut aset: Set<int> = Set::empty();
    let mut i3: usize = 0;
    while i3 < n
        invariant
            i3 <= n,
            forall|p: int|
                0 <= p < current@.len() ==> (#[trigger] current@[p] as int) < i3
                    && assigned@[current@[p] as int],
            forall|p: int, q: int|
                0 <= p < q < current@.len() ==> #[trigger] current@[p] < #[trigger] current@[q],
            forall|x: int|
                0 <= x < i3 && assigned@[x] ==> in_prefix(current@, current@.len() as int, x),
            aset.finite(),
            aset.len() == current@.len(),
            forall|x: int| #[trigger] aset.contains(x) <==> 0 <= x < n && assigned@[x] && x < i3,
        decreases n - i3,
    {
        if count[i3] == 0 {
            let ghost cold = current@;
            current.push(i3);
            proof {
                assert(!aset.contains(i3 as int));
                aset = aset.insert(i3 as int);
                assert forall|x: int|
                    0 <= x < i3 + 1 && assigned@[x] implies in_prefix(
                    current@,
                    current@.len() as int,
                    x,
                ) by {
                    if x < i3 {
                        assert(in_prefix(cold, cold.len() as int, x));
                        let p = choose|p: int| 0 <= p < cold.len() && cold[p] as int == x;
                        assert(current@[p] as int == x);
                    } else {
                        assert(current@[current@.len() - 1] as int == x);
                    }
                }
            }
        }
        i3 += 1;
    }
    proof {
        assert forall|i: int, j: int|
            #![trigger assigned@[i], g[j]]
            0 <= i < g.len() && 0 <= j < g.len() && assigned@[i] implies !dominates(g[j], g[i]) by {
            if dominates(g[j], g[i]) {
                lemma_unproc_finite(g, Seq::new(g.len(), |x: int| false), i);
                let r0 = vstd::set_lib::set_int_range(0, g.len() as int);
                vstd::set_lib::lemma_int_range(0, g.len() as int);
                assert(dom_set(g, i).subset_of(r0));
                vstd::set_lib::lemma_len_subset(dom_set(g, i), r0);
                assert(dom_set(g, i).contains(j));
                axiom_set_contains_len(dom_set(g, i), j);
            }
        }
    }
    (front, assigned, current, Ghost(aset))
}

/// Walk the dominated-members list of the member of the current front at
/// position `ci`: decrement each dominated member's dominator count, assign
/// the members whose count reaches zero to front `k + 1`, and mark the walked
/// member processed.
#[verifier::rlimit(100)]
fn relax_member(
    n: usize,
    k: usize,
    ci: usize,
    count: &mut Vec<usize>,
    front: &mut Vec<usize>,
    assigned: &mut Vec<bool>,
    next: &mut Vec<usize>,
    dlist: &Vec<Vec<usize>>,
    current: &Vec<usize>,
    Ghost(g): Ghost<Seq<Seq<i64>>>,
    Ghost(processed): Ghost<Seq<bool>>,
    Ghost(aset): Ghost<Set<int>>,
    Ghost(a0): Ghost<Set<int>>,
) -> (res: (Ghost<Seq<bool>>, Ghost<Set<int>>))
    requires
        g.len() == n,
        old(count)@.len() == n,
        old(front)@.len() == n,
        old(assigned)@.len() == n,
        processed.len() == n,
        dlist@.len() == n,
        forall|x: int| 0 <= x < n ==> dl_ok(g, #[trigger] dlist@[x]@, x),
        ci < current@.len(),
        forall|p: int, q: int|
            0 <= p < q < current@.len() ==> #[trigger] current@[p] != #[trigger] current@[q],
        forall|j: int|
            0 <= j < n && #[trigger] processed[j] ==> old(assigned)@[j] && old(front)@[j] <= k,
        forall|p: int|
            0 <= p < current@.len() ==> (#[trigger] current@[p] as int) < n
                && old(assigned)@[current@[p] as int] && old(front)@[current@[p] as int] == k,
        forall|p: int| 0 <= p < ci ==> processed[#[trigger] current@[p] as int],
        forall|p: int| ci <= p < current@.len() ==> !processed[#[trigger] current@[p] as int],
        forall|p: int|
            0 <= p < old(next)@.len() ==> (#[trigger] old(next)@[p] as int) < n
                && old(assigned)@[old(next)@[p] as int] && old(front)@[old(next)@[p] as int] == k
                + 1 && !processed[old(next)@[p] as int],
        forall|p: int, q: int|
            0 <= p < q < old(next)@.len() ==> #[trigger] old(next)@[p] != #[trigger] old(
                next,
            )@[q],
        forall|p: int, j: int|
            #![trigger old(next)@[p], g[j]]
            0 <= p < old(next)@.len() && 0 <= j < n && dominates(g[j], g[old(next)@[p] as int])
                ==> processed[j],
        forall|j: int|
            0 <= j < n ==> (#[trigger] old(assigned)@[j] <==> processed[j] || in_prefix(
                current@,
                current@.len() as int,
                j,
            ) || in_prefix(old(next)@, old(next)@.len() as int, j)),
        aset.finite(),
        aset.len() <= n,
        forall|x: int| #[trigger] aset.contains(x) <==> 0 <= x < n && old(assigned)@[x],
        k + current@.len() <= a0.len(),
        aset.len() == a0.len() + old(next)@.len(),
        forall|i: int, j: int|
            #![trigger dominates(g[j], g[i])]
            0 <= i < n && 0 <= j < n && old(assigned)@[i] && dominates(g[j], g[i])
                ==> old(assigned)@[j] && old(front)@[j] < old(front)@[i],
        forall|i: int|
            0 <= i < n && old(assigned)@[i] && #[trigger] old(front)@[i] > 0 ==> exists|j: int|
                0 <= j < n && dominates(g[j], g[i]) && old(assigned)@[j] && old(front)@[j] + 1
                    == old(front)@[i],
        forall|t: int|
            0 <= t < n && !old(assigned)@[t] ==> #[trigger] old(count)@[t] == unproc_dom(
                g,
                processed,
                t,
            ).len() && old(count)@[t] >= 1,
    ensures
        final(count)@.len() == n,
        final(front)@.len() == n,
        final(assigned)@.len() == n,
        res.0@ == processed.update(current@[ci as int] as int, true),
        res.0@.len() == n,
        forall|j: int|
            0 <= j < n && #[trigger] res.0@[j] ==> final(assigned)@[j] && final(front)@[j] <= k,
        forall|p: int|
            0 <= p < current@.len() ==> (#[trigger] current@[p] as int) < n
                && final(assigned)@[current@[p] as int] && final(front)@[current@[p] as int] == k,
        forall|p: int| 0 <= p < ci + 1 ==> res.0@[#[trigger] current@[p] as int],
        forall|p: int|
            ci + 1 <= p < current@.len() ==> !res.0@[#[trigger] current@[p] as int],
        forall|p: int|
            0 <= p < final(next)@.len() ==> (#[trigger] final(next)@[p] as int) < n
                && final(assigned)@[final(next)@[p] as int] && final(front)@[final(next)@[p] as int] == k + 1
                && !res.0@[final(next)@[p] as int],
        forall|p: int, q: int|
            0 <= p < q < final(next)@.len() ==> #[trigger] final(next)@[p] != #[trigger] final(next)@[q],
        forall|p: int, j: int|
            #![trigger final(next)@[p], g[j]]
            0 <= p < final(next)@.len() && 0 <= j < n && dominates(g[j], g[final(next)@[p] as int])
                ==> res.0@[j],
        forall|j: int|
            0 <= j < n ==> (#[trigger] final(assigned)@[j] <==> res.0@[j] || in_prefix(
                current@,
                current@.len() as int,
                j,
            ) || in_prefix(final(next)@, final(next)@.len() as int, j)),
        res.1@.finite(),
        res.1@.len() <= n,
        forall|x: int| #[trigger] res.1@.contains(x) <==> 0 <= x < n && final(assigned)@[x],
        res.1@.len() == a0.len() + final(next)@.len(),
        forall|i: int, j: int|
            #![trigger dominates(g[j], g[i])]
            0 <= i < n && 0 <= j < n && final(assigned)@[i] && dominates(g[j], g[i])
                ==> final(assigned)@[j] && final(front)@[j] < final(front)@[i],
        forall|i: int|
            0 <= i < n && final(assigned)@[i] && #[trigger] final(front)@[i] > 0 ==> exists|j: int|
                0 <= j < n && dominates(g[j], g[i]) && final(assigned)@[j] && final(front)@[j] + 1
                    == final(front)@[i],
        forall|t: int|
            0 <= t < n && !final(assigned)@[t] ==> #[trigger] final(count)@[t] == unproc_dom(
                g,
                res.0@,
                t,
            ).len() && final(count)@[t] >= 1,
{
    broadcast use vstd::set::group_set_axioms;

    let ghost mut processed = processed;
    let ghost mut aset = aset;
    let id = current[ci];
    let ghost lseq = dlist@[id as int]@;
    let llen = dlist[id].len();
    let mut e: usize = 0;
    while e < llen
        invariant
            e <= llen,
            ci < current@.len(),
            id == current@[ci as int],
            (id as int) < n,
            assigned@[id as int],
            front@[id as int] == k,
            !processed[id as int],
            lseq == dlist@[id as int]@,
            llen == lseq.len(),
            g.len() == n,
            dlist@.len() == n,
            dl_ok(g, lseq, id as int),
            k + current@.len() <= a0.len(),
            count@.len() == n,
            front@.len() == n,
            assigned@.len() == n,
            processed.len() == n,
            forall|j: int|
                0 <= j < n && #[trigger] processed[j] ==> assigned@[j] && front@[j] <= k,
            forall|p: int|
                0 <= p < current@.len() ==> (#[trigger] current@[p] as int) < n
                    && assigned@[current@[p] as int] && front@[current@[p] as int] == k,
            forall|p: int| 0 <= p < ci ==> processed[#[trigger] current@[p] as int],
            forall|p: int|
                ci <= p < current@.len() ==> !processed[#[trigger] current@[p] as int],
            forall|p: int|
                0 <= p < next@.len() ==> (#[trigger] next@[p] as int) < n
                    && assigned@[next@[p] as int] && front@[next@[p] as int] == k + 1
                    && !processed[next@[p] as int],
            forall|p: int, q: int|
                0 <= p < q < next@.len() ==> #[trigger] next@[p] != #[trigger] next@[q],
            // a next-front member's unprocessed dominator can only be
            // `id`, and then the member sits in the walked prefix
            forall|p: int, j: int|
                #![trigger next@[p], g[j]]
                0 <= p < next@.len() && 0 <= j < n && dominates(g[j], g[next@[p] as int])
                    && !processed[j] ==> j == id as int && in_prefix(
                    lseq,
                    e as int,
                    next@[p] as int,
                ),
            forall|j: int|
                0 <= j < n ==> (#[trigger] assigned@[j] <==> processed[j] || in_prefix(
                    current@,
                    current@.len() as int,
                    j,
                ) || in_prefix(next@, next@.len() as int, j)),
            aset.finite(),
            aset.len() <= n,
            forall|x: int| #[trigger] aset.contains(x) <==> 0 <= x < n && assigned@[x],
            aset.len() == a0.len() + next@.len(),
            forall|i: int, j: int|
                #![trigger dominates(g[j], g[i])]
                0 <= i < n && 0 <= j < n && assigned@[i] && dominates(g[j], g[i])
                    ==> assigned@[j] && front@[j] < front@[i],
            forall|i: int|
                0 <= i < n && assigned@[i] && #[trigger] front@[i] > 0 ==> exists|j: int|
                    0 <= j < n && dominates(g[j], g[i]) && assigned@[j] && front@[j] + 1
                        == front@[i],
            // counts of unassigned members: exact, shifted by one
            // inside the walked prefix
            forall|t: int|
                0 <= t < n && !assigned@[t] ==> #[trigger] count@[t] + (if in_prefix(
                    lseq,
                    e as int,
                    t,
                ) {
                    1int
                } else {
                    0int
                }) == unproc_dom(g, processed, t).len() && count@[t] >= 1,
        decreases llen - e,
    {
        let t = dlist[id][e];
        proof {
            broadcast use vstd::set::group_set_axioms;

            assert(dl_ok(g, lseq, id as int));
            assert(lseq[e as int] == t);
            assert((t as int) < n && dominates(g[id as int], g[t as int]));
            // t is not yet in the walked prefix: the list is strictly
            // increasing
            assert forall|p: int| 0 <= p < e implies lseq[p] as int != t as int by {
                assert(lseq[p] < lseq[e as int]);
            }
            // t is unassigned: a processed or current dominator would
            // break the front ordering, and a next-front member's only
            // unprocessed dominator would already sit in the prefix
            if assigned@[t as int] {
                assert(front@[id as int] < front@[t as int]);
                if processed[t as int] {
                    assert(front@[t as int] <= k);
                    assert(false);
                } else if in_prefix(current@, current@.len() as int, t as int) {
                    let p = choose|p: int|
                        0 <= p < current@.len() && current@[p] as int == t as int;
                    assert(front@[t as int] == k);
                    assert(false);
                } else {
                    assert(in_prefix(next@, next@.len() as int, t as int));
                    let p = choose|p: int|
                        0 <= p < next@.len() && next@[p] as int == t as int;
                    assert(dominates(g[id as int], g[next@[p] as int]));
                    assert(in_prefix(lseq, e as int, t as int));
                    assert(false);
                }
            }
        }
        let c = count[t];
        proof {
            assert(count@[t as int] >= 1);
        }
        count[t] = c - 1;
        let ghost prev_next = next@;
        if c - 1 == 0 && !assigned[t] {
            proof {
                broadcast use vstd::set::group_set_axioms;

                // the only unprocessed dominator of t is id itself
                lemma_unproc_finite(g, processed, t as int);
                assert(unproc_dom(g, processed, t as int).contains(id as int));
                assert(unproc_dom(g, processed, t as int).len() == 1);
                assert forall|j: int|
                    0 <= j < n && dominates(g[j], g[t as int]) && !processed[j]
                    implies j == id as int by {
                    if j != id as int {
                        let u = unproc_dom(g, processed, t as int);
                        assert(u.contains(j));
                        assert(u.remove(id as int).contains(j));
                        axiom_set_remove_len(u, id as int);
                        axiom_set_contains_len(u.remove(id as int), j);
                    }
                }
            }
            let ghost fold = front@;
            let ghost aold = assigned@;
            front[t] = k + 1;
            assigned[t] = true;
            next.push(t);
            proof {
                broadcast use vstd::set::group_set_axioms;

                assert forall|i: int|
                    0 <= i < n && assigned@[i] && #[trigger] front@[i] > 0 implies exists|j: int|
                    0 <= j < n && dominates(g[j], g[i]) && assigned@[j] && front@[j] + 1
                        == front@[i] by {
                    if i != t as int {
                        let j = choose|j: int|
                            0 <= j < n && dominates(g[j], g[i]) && aold[j] && fold[j] + 1
                                == fold[i];
                        assert(0 <= j < n && dominates(g[j], g[i]) && assigned@[j]
                            && front@[j] + 1 == front@[i]);
                    } else {
                        assert((id as int) < n && dominates(g[id as int], g[i])
                            && assigned@[id as int] && front@[id as int] + 1 == front@[i]);
                    }
                }
                assert forall|i2: int, j2: int|
                    #![trigger dominates(g[j2], g[i2])]
                    0 <= i2 < n && 0 <= j2 < n && assigned@[i2] && dominates(g[j2], g[i2])
                    implies assigned@[j2] && front@[j2] < front@[i2] by {
                    if i2 != t as int {
                        assert(aold[i2] && dominates(g[j2], g[i2]));
                        assert(aold[j2] && fold[j2] < fold[i2]);
                        assert(j2 != t as int);
                    } else {
                        if !processed[j2] {
                            assert(j2 == id as int);
                            assert(j2 != t as int);
                        } else {
                            assert(j2 != t as int);
                            assert(aold[j2] && fold[j2] <= k);
                        }
                    }
                }
                assert(!aset.contains(t as int));
                aset = aset.insert(t as int);
                vstd::set_lib::lemma_int_range(0, n as int);
                vstd::set_lib::lemma_len_subset(
                    aset,
                    vstd::set_lib::set_int_range(0, n as int),
                );
                // every dominator of t is assigned to an earlier front
                assert forall|j: int|
                    0 <= j < n && dominates(g[j], g[t as int]) implies assigned@[j]
                    && front@[j] < k + 1 by {
                    if !processed[j] {
                        assert(j == id as int);
                    }
                }
                // the witness one front down is id itself
                assert(dominates(g[id as int], g[t as int]) && assigned@[id as int]
                    && front@[id as int] + 1 == front@[t as int]);
                // membership in next now includes t
                assert forall|j: int|
                    0 <= j < n implies (#[trigger] assigned@[j] <==> processed[j]
                    || in_prefix(current@, current@.len() as int, j) || in_prefix(
                    next@,
                    next@.len() as int,
                    j,
                )) by {
                    if j == t as int {
                        assert(next@[next@.len() - 1] as int == j);
                    } else {
                        if in_prefix(prev_next, prev_next.len() as int, j) {
                            let p = choose|p: int|
                                0 <= p < prev_next.len() && prev_next[p] as int == j;
                            assert(next@[p] as int == j);
                        }
                        if in_prefix(next@, next@.len() as int, j) {
                            let p = choose|p: int|
                                0 <= p < next@.len() && next@[p] as int == j;
                            assert(p < prev_next.len());
                            assert(prev_next[p] as int == j);
                        }
                    }
                }
            }
        }
        e += 1;
        proof {
            broadcast use vstd::set::group_set_axioms;

            // counts stay exact: t moved into the walked prefix
            assert forall|t2: int|
                0 <= t2 < n && !assigned@[t2] implies #[trigger] count@[t2] + (if in_prefix(
                lseq,
                e as int,
                t2,
            ) {
                1int
            } else {
                0int
            }) == unproc_dom(g, processed, t2).len() && count@[t2] >= 1 by {
                if t2 == t as int {
                    assert(in_prefix(lseq, e as int, t2));
                } else {
                    assert(in_prefix(lseq, e as int, t2) == in_prefix(
                        lseq,
                        e as int - 1,
                        t2,
                    )) by {
                        if in_prefix(lseq, e as int, t2) {
                            let p = choose|p: int| 0 <= p < e && lseq[p] as int == t2;
                            assert(p != e - 1);
                        }
                    }
                }
            }
        }
    }
    // the whole list of id is walked: mark id processed
    let ghost pold = processed;
    proof {
        broadcast use vstd::set::group_set_axioms;

        processed = processed.update(id as int, true);
        assert forall|t: int|
            0 <= t < n && !assigned@[t] implies #[trigger] count@[t] == unproc_dom(
            g,
            processed,
            t,
        ).len() && count@[t] >= 1 by {
            let uold = unproc_dom(g, pold, t);
            let unew = unproc_dom(g, processed, t);
            lemma_unproc_finite(g, pold, t);
            assert(unew =~= uold.remove(id as int));
            axiom_set_remove_len(uold, id as int);
            if dominates(g[id as int], g[t]) {
                assert(dl_ok(g, lseq, id as int));
                assert(in_prefix(lseq, lseq.len() as int, t));
                assert(uold.contains(id as int));
            } else {
                assert(!uold.contains(id as int));
                if in_prefix(lseq, lseq.len() as int, t) {
                    let p = choose|p: int| 0 <= p < lseq.len() && lseq[p] as int == t;
                    assert(dominates(g[id as int], g[lseq[p] as int]));
                }
            }
        }
        // next-front members now have no unprocessed dominator at all
        assert forall|p: int, j: int|
            #![trigger next@[p], g[j]]
            0 <= p < next@.len() && 0 <= j < n && dominates(g[j], g[next@[p] as int])
                && !processed[j] implies ci + 1 < current@.len() && j == current@[ci
            as int + 1] as int by {
            assert(!pold[j]);
            assert(j == id as int);
            assert(false);
        }
        // assigned membership is unchanged; id moved from current to
        // processed
        assert forall|j: int|
            0 <= j < n implies (#[trigger] assigned@[j] <==> processed[j] || in_prefix(
            current@,
            current@.len() as int,
            j,
        ) || in_prefix(next@, next@.len() as int, j)) by {
            if pold[j] {
                assert(processed[j]);
            }
        }
    }
    proof {
        assert forall|p: int|
            ci + 1 <= p < current@.len() implies !processed[#[trigger] current@[p] as int] by {
            assert(current@[p] != current@[ci as int]);
        }
    }
    (Ghost(processed), Ghost(aset))
}


/// Partition a population into Pareto fronts by the fast non-dominated sort.
///
/// `vals[i]` is the constraint-folded objective-score vector of member `i`;
/// the result gives every member its dominance depth, front 0 being the
/// non-dominated members.  The algorithm records, for every member, the
/// members it dominates and a count of its dominators; front 0 collects the
/// members with no dominators, and each later front the members whose last
/// remaining dominators sit in the front before it.
#[verifier::loop_isolation(false)]
#[verifier::rlimit(100)]
pub fn assign_fronts(vals: &Vec<Vec<i64>>) -> (fronts: Vec<usize>)
    ensures
        fronts@.len() == vals@.len(),
        valid_fronts(vals.deep_view(), fronts@),
{
    broadcast use vstd::set::group_set_axioms;

    let ghost g: Seq<Seq<i64>> = vals.deep_view();
    let n = vals.len();
    let ghost proc0: Seq<bool> = Seq::new(n as nat, |x: int| false);
    let (count, dlist) = dominance_structure(vals);
    let mut count = count;
    let (front, assigned, current, Ghost(aset)) = initial_front(&count, Ghost(g));
    let mut front = front;
    let mut assigned = assigned;
    let mut current = current;
    let ghost mut aset = aset;
    let ghost mut processed: Seq<bool> = proc0;
    let mut k: usize = 0;

    proof {
        assert forall|t: int| 0 <= t < n implies unproc_dom(g, proc0, t) == dom_set(g, t) by {
            assert(unproc_dom(g, proc0, t) =~= dom_set(g, t));
        }
        assert forall|t: int| 0 <= t < n && !assigned@[t] implies count@[t] >= 1 by {}
    }

    // Walk the current front; every member it dominates whose last dominator
    // it is joins the next front.
    while current.len() > 0
        invariant
            count@.len() == n,
            front@.len() == n,
            assigned@.len() == n,
            processed.len() == n,
            // processed members sit in fronts before the current one
            forall|j: int|
                0 <= j < n && #[trigger] processed[j] ==> assigned@[j] && front@[j] < k,
            // the current front: assigned, depth k, not yet processed, distinct
            forall|p: int|
                0 <= p < current@.len() ==> (#[trigger] current@[p] as int) < n
                    && assigned@[current@[p] as int] && front@[current@[p] as int] == k
                    && !processed[current@[p] as int],
            forall|p: int, q: int|
                0 <= p < q < current@.len() ==> #[trigger] current@[p] != #[trigger] current@[q],
            // assigned = processed + current
            forall|j: int|
                0 <= j < n ==> (#[trigger] assigned@[j] <==> processed[j] || in_prefix(
                    current@,
                    current@.len() as int,
                    j,
                )),
            // the assigned set, for bounding k
            aset.finite(),
            forall|x: int| #[trigger] aset.contains(x) <==> 0 <= x < n && assigned@[x],
            k + current@.len() <= aset.len(),
            // dominators of assigned members are assigned, in earlier fronts
            forall|i: int, j: int|
                #![trigger dominates(g[j], g[i])]
                0 <= i < n && 0 <= j < n && assigned@[i] && dominates(g[j], g[i])
                    ==> assigned@[j] && front@[j] < front@[i],
            // members of positive fronts have a witness one front down
            forall|i: int|
                0 <= i < n && assigned@[i] && #[trigger] front@[i] > 0 ==> exists|j: int|
                    0 <= j < n && dominates(g[j], g[i]) && assigned@[j] && front@[j] + 1
                        == front@[i],
            // counts of unassigned members are exact
            forall|t: int|
                0 <= t < n && !assigned@[t] ==> #[trigger] count@[t] == unproc_dom(
                    g,
                    processed,
                    t,
                ).len() && count@[t] >= 1,
        decreases n - k,
    {
        let ghost a0 = aset;
        let mut next: Vec<usize> = Vec::new();
        let mut ci: usize = 0;
        proof {
            vstd::set_lib::lemma_int_range(0, n as int);
            vstd::set_lib::lemma_len_subset(
                aset,
                vstd::set_lib::set_int_range(0, n as int),
            );
        }
        while ci < current.len()
            invariant
                ci <= current@.len(),
                count@.len() == n,
                front@.len() == n,
                assigned@.len() == n,
                processed.len() == n,
                // processed members are assigned with depth at most k
                forall|j: int|
                    0 <= j < n && #[trigger] processed[j] ==> assigned@[j] && front@[j] <= k,
                // the walked prefix of the current front is processed, the
                // rest is not
                forall|p: int|
                    0 <= p < current@.len() ==> (#[trigger] current@[p] as int) < n
                        && assigned@[current@[p] as int] && front@[current@[p] as int] == k,
                forall|p: int| 0 <= p < ci ==> processed[#[trigger] current@[p] as int],
                forall|p: int|
                    ci <= p < current@.len() ==> !processed[#[trigger] current@[p] as int],
                // the next front: distinct, assigned, depth k + 1, unprocessed
                forall|p: int|
                    0 <= p < next@.len() ==> (#[trigger] next@[p] as int) < n
                        && assigned@[next@[p] as int] && front@[next@[p] as int] == k + 1
                        && !processed[next@[p] as int],
                forall|p: int, q: int|
                    0 <= p < q < next@.len() ==> #[trigger] next@[p] != #[trigger] next@[q],
                // every dominator of a next-front member is processed
                forall|p: int, j: int|
                    #![trigger next@[p], g[j]]
                    0 <= p < next@.len() && 0 <= j < n && dominates(g[j], g[next@[p] as int])
                        ==> processed[j],
                // assigned = processed + current + next
                forall|j: int|
                    0 <= j < n ==> (#[trigger] assigned@[j] <==> processed[j] || in_prefix(
                        current@,
                        current@.len() as int,
                        j,
                    ) || in_prefix(next@, next@.len() as int, j)),
                aset.finite(),
                aset.len() <= n,
                forall|x: int| #[trigger] aset.contains(x) <==> 0 <= x < n && assigned@[x],
                aset.len() == a0.len() + next@.len(),
                forall|i: int, j: int|
                    #![trigger dominates(g[j], g[i])]
                    0 <= i < n && 0 <= j < n && assigned@[i] && dominates(g[j], g[i])
                        ==> assigned@[j] && front@[j] < front@[i],
                forall|i: int|
                    0 <= i < n && assigned@[i] && #[trigger] front@[i] > 0 ==> exists|j: int|
                        0 <= j < n && dominates(g[j], g[i]) && assigned@[j] && front@[j] + 1
                            == front@[i],
                forall|t: int|
                    0 <= t < n && !assigned@[t] ==> #[trigger] count@[t] == unproc_dom(
                        g,
                        processed,
                        t,
                    ).len() && count@[t] >= 1,
            decreases current@.len() - ci,
        {
            let id = current[ci];
            let (Ghost(p2), Ghost(as2)) = relax_member(
                n,
                k,
                ci,
                &mut count,
                &mut front,
                &mut assigned,
                &mut next,
                &dlist,
                &current,
                Ghost(g),
                Ghost(processed),
                Ghost(aset),
                Ghost(a0),
            );
            proof {
                processed = p2;
                aset = as2;
            }

            ci += 1;
        }
        proof {
            // restore the outer invariant shape for the next round
            assert forall|j: int|
                0 <= j < n implies (#[trigger] assigned@[j] <==> processed[j] || in_prefix(
                next@,
                next@.len() as int,
                j,
            )) by {
                if !processed[j] && in_prefix(current@, current@.len() as int, j) {
                    let p = choose|p: int| 0 <= p < current@.len() && current@[p] as int == j;
                    assert(processed[current@[p] as int]);
                }
            }
        }
        current = next;
        k += 1;
    }

    // The current front is empty, so every member is assigned: an unassigned
    // member would have an unassigned dominator, and a least such member
    // cannot exist.
    proof {
        let uset = Set::new(|j: int| 0 <= j < n && !assigned@[j]);
        let r = vstd::set_lib::set_int_range(0, n as int);
        vstd::set_lib::lemma_int_range(0, n as int);
        assert(uset.subset_of(r));
        vstd::set_lib::lemma_len_subset(uset, r);
        if uset.len() > 0 {
            lemma_exists_nondominated(g, uset);
            let m = choose|m: int|
                uset.contains(m) && forall|j: int| uset.contains(j) ==> !dominates(g[j], g[m]);
            assert(count@[m] >= 1);
            lemma_unproc_finite(g, processed, m);
            let u = unproc_dom(g, processed, m);
            axiom_set_choose_len(u);
            let j = u.choose();
            assert(u.contains(j));
            assert(!assigned@[j]) by {
                if in_prefix(current@, current@.len() as int, j) {
                    let p = choose|p: int| 0 <= p < current@.len() && current@[p] as int == j;
                }
            }
            assert(uset.contains(j));
            assert(false);
        }
        assert forall|j: int| 0 <= j < n implies assigned@[j] by {
            if !assigned@[j] {
                assert(uset.contains(j));
                axiom_set_contains_len(uset, j);
            }
        }
        assert(valid_fronts(g, front@));
    }
    front
}

} // verus!

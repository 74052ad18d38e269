//! Termination evaluation: deciding, generation by generation, whether the
//! search should stop.

use vstd::prelude::*;

verus! {

/// Evaluate the termination condition.
///
/// An implementation may keep state across calls, such as the best score
/// vectors seen so far.
pub trait Evaluator {
    /// Returns true if the optimization process can be stopped.
    fn can_terminate(&mut self, iter: usize, values: Vec<i64>) -> bool;
}

/// Some score in `new` improves on `old`, comparing positionwise over the
/// shorter of the two.
pub open spec fn some_better(old: Seq<i64>, new: Seq<i64>) -> bool {
    exists|o: int| 0 <= o < old.len() && 0 <= o < new.len() && new[o] < old[o]
}

/// No score in `new` is worse than in `old`, comparing positionwise over the
/// shorter of the two.
pub open spec fn none_worse(old: Seq<i64>, new: Seq<i64>) -> bool {
    forall|o: int| 0 <= o < old.len() && 0 <= o < new.len() ==> new[o] <= old[o]
}

/// Implements a default termination condition.
///
/// It saves the best score vector seen so far and signals termination once
/// there has been no improvement for `terminate_early` consecutive
/// generations.
pub struct DefaultEvaluator {
    pub terminate_early: usize,
    pub iter: usize,
    pub values: Option<Vec<i64>>,
    pub no_improvements: usize,
}

impl DefaultEvaluator {
    /// Create an evaluator that stops after `terminate_early` generations
    /// without improvement.
    pub fn new(terminate_early: usize) -> (r: DefaultEvaluator)
        ensures
            r.terminate_early == terminate_early,
            r.iter == 0,
            r.values is None,
            r.no_improvements == 0,
    {
        DefaultEvaluator { terminate_early, iter: 0, values: None, no_improvements: 0 }
    }

    /// The decision [`Evaluator::can_terminate`] makes for this type.
    ///
    /// The first call only records its score vector.  A later call whose
    /// vector improves on the recorded one — better somewhere, worse nowhere —
    /// replaces it and resets the no-improvement streak; further calls within
    /// the same generation change nothing; a call that opens a new generation
    /// without improvement lengthens the streak, and termination is signalled
    /// once the streak reaches `terminate_early`.
    pub fn check_terminate(&mut self, iter: usize, values: Vec<i64>) -> (r: bool)
        ensures
            final(self).terminate_early == old(self).terminate_early,
            old(self).values is None ==> final(self).values == Some(values)
                && final(self).iter == iter
                && final(self).no_improvements == old(self).no_improvements
                && r == false,
            (old(self).values matches Some(best)
                && some_better(best@, values@) && none_worse(best@, values@))
                ==> final(self).values == Some(values)
                && final(self).iter == iter
                && final(self).no_improvements == 0
                && r == false,
            (old(self).values matches Some(best)
                && !(some_better(best@, values@) && none_worse(best@, values@)))
                && iter == old(self).iter
                ==> *final(self) == *old(self) && r == false,
            (old(self).values matches Some(best)
                && !(some_better(best@, values@) && none_worse(best@, values@)))
                && iter != old(self).iter
                ==> final(self).values == old(self).values
                && final(self).iter == iter
                && final(self).no_improvements == (
                    if old(self).no_improvements < usize::MAX {
                        old(self).no_improvements + 1
                    } else {
                        usize::MAX as int
                    })
                && r == (final(self).no_improvements >= final(self).terminate_early),
    {
        match &self.values {
            Option::None => {
                self.values = Some(values);
                self.iter = iter;
                false
            },
            Option::Some(old_best) => {
                let has_better = vals_some_better(old_best, &values);
                let no_worse = vals_none_worse(old_best, &values);
                if has_better && no_worse {
                    self.values = Some(values);
                    self.iter = iter;
                    self.no_improvements = 0;
                    false
                } else if iter == self.iter {
                    false
                } else {
                    self.iter = iter;
                    if self.no_improvements < usize::MAX {
                        self.no_improvements = self.no_improvements + 1;
                    }
                    self.no_improvements >= self.terminate_early
                }
            },
        }
    }
}

impl Evaluator for DefaultEvaluator {
    fn can_terminate(&mut self, iter: usize, values: Vec<i64>) -> bool {
        self.check_terminate(iter, values)
    }
}

/// Decide whether some score in `new` improves on `old`.
fn vals_some_better(old: &Vec<i64>, new: &Vec<i64>) -> (r: bool)
    ensures
        r == some_better(old@, new@),
{
    let k = if old.len() < new.len() {
        old.len()
    } else {
        new.len()
    };
    let mut i: usize = 0;
    let mut found = false;
    while i < k
        invariant
            k <= old@.len(),
            k <= new@.len(),
            k == (if old@.len() < new@.len() {
                old@.len() as int
            } else {
                new@.len() as int
            }),
            i <= k,
            found == exists|o: int| 0 <= o < i && new@[o] < old@[o],
        decreases k - i,
    {
        if new[i] < old[i] {
            found = true;
        }
        i += 1;
    }
    found
}

/// Decide whether no score in `new` is worse than in `old`.
fn vals_none_worse(old: &Vec<i64>, new: &Vec<i64>) -> (r: bool)
    ensures
        r == none_worse(old@, new@),
{
    let k = if old.len() < new.len() {
        old.len()
    } else {
        new.len()
    };
    let mut i: usize = 0;
    while i < k
        invariant
            k <= old@.len(),
            k <= new@.len(),
            k == (if old@.len() < new@.len() {
                old@.len() as int
            } else {
                new@.len() as int
            }),
            i <= k,
            forall|o: int| 0 <= o < i ==> new@[o] <= old@[o],
        decreases k - i,
    {
        if new[i] > old[i] {
            return false;
        }
        i += 1;
    }
    true
}

} // verus!

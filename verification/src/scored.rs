//! Scored items for a frontier that hands out the least score first.

use vstd::prelude::*;
use std::cmp::Ordering;
use crate::rational::Rational;

verus! {

/// A score and a scored item. `MinScored` compares in reverse order by the
/// score, so that the greatest of a set of them is the one with the least
/// score. The item takes no part in the comparison.
#[derive(Debug)]
pub struct MinScored<T>(pub Rational, pub T);

/// The order of two scores, reversed: the smaller score is the greater.
pub open spec fn reversed(a: real, b: real) -> Ordering {
    if a == b {
        Ordering::Equal
    } else if a < b {
        Ordering::Greater
    } else {
        Ordering::Less
    }
}

impl<T> MinScored<T> {
    /// The score as a number.
    pub open spec fn score(&self) -> real {
        self.0.value()
    }

    /// Whether the score is a well-formed rational.
    pub open spec fn wf(&self) -> bool {
        self.0.wf()
    }

    /// Whether the two scores are equal.
    pub fn eq(&self, other: &MinScored<T>) -> (b: bool)
        requires
            self.wf(),
            other.wf(),
        ensures
            b == (self.score() == other.score()),
            b == (reversed(self.score(), other.score()) == Ordering::Equal),
    {
        matches!(self.cmp(other), Ordering::Equal)
    }

    /// The reversed order of the two scores, which is total.
    pub fn partial_cmp(&self, other: &MinScored<T>) -> (o: Option<Ordering>)
        requires
            self.wf(),
            other.wf(),
        ensures
            o == Some(reversed(self.score(), other.score())),
    {
        Some(self.cmp(other))
    }

    /// The reversed order of the two scores: `Greater` where the score of
    /// `self` is the smaller one.
    pub fn cmp(&self, other: &MinScored<T>) -> (o: Ordering)
        requires
            self.wf(),
            other.wf(),
        ensures
            o == reversed(self.score(), other.score()),
    {
        let a = &self.0;
        let b = &other.0;
        if a.equals(b) {
            Ordering::Equal
        } else if a.less_than(b) {
            Ordering::Greater
        } else {
            Ordering::Less
        }
    }
}

/// The score of the entry at a place of a frontier.
pub open spec fn score_at<T>(frontier: Seq<MinScored<T>>, i: usize) -> real {
    frontier[i as int].score()
}

/// The place of the greatest entry of a frontier, which is one with the
/// least score; among several, the one that was put there first.
pub fn least_index<T>(frontier: &Vec<MinScored<T>>) -> (best: usize)
    requires
        frontier@.len() > 0,
        forall|i: int| 0 <= i < frontier@.len() ==> (#[trigger] frontier@[i]).wf(),
    ensures
        best < frontier@.len(),
        forall|i: int|
            0 <= i < frontier@.len() ==> score_at(frontier@, best) <= (#[trigger] frontier@[i]).score(),
        forall|i: int| 0 <= i < best ==> score_at(frontier@, best) < (#[trigger] frontier@[i]).score(),
{
    let mut best: usize = 0;
    let mut i: usize = 1;
    while i < frontier.len()
        invariant
            1 <= i <= frontier@.len(),
            best < i,
            forall|k: int| 0 <= k < frontier@.len() ==> (#[trigger] frontier@[k]).wf(),
            forall|k: int|
                0 <= k < i ==> score_at(frontier@, best) <= (#[trigger] frontier@[k]).score(),
            forall|k: int|
                0 <= k < best ==> score_at(frontier@, best) < (#[trigger] frontier@[k]).score(),
        decreases frontier@.len() - i,
    {
        let o = frontier[i].cmp(&frontier[best]);
        if matches!(o, Ordering::Greater) {
            best = i;
        }
        i = i + 1;
    }
    best
}

} // verus!

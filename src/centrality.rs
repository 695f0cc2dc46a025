//! Control of the power iteration that approximates eigenvector centrality,
//! and the mapping of the resulting vector back to participant ids. The
//! vector arithmetic itself is floating point and is done by the caller.
use vstd::prelude::*;
use crate::graph::{lemma_participants_are_ids, participant_set, participants, TrustGraph};

verus! {

/// What to do with the renormalised vector of one iteration.
#[derive(Clone, Copy, Debug, PartialEq, Eq, Structural)]
pub enum IterationStep {
    /// The product had norm zero: keep the current estimate and stop.
    Halt,
    /// The renormalised vector moved less than the tolerance: it becomes the
    /// final estimate and iteration stops.
    AcceptAndHalt,
    /// The renormalised vector becomes the estimate and iteration goes on.
    Accept,
}

/// The step owed to what one iteration found.
pub open spec fn step_for(norm_is_zero: bool, within_tolerance: bool) -> IterationStep {
    if norm_is_zero {
        IterationStep::Halt
    } else if within_tolerance {
        IterationStep::AcceptAndHalt
    } else {
        IterationStep::Accept
    }
}

/// The state of a power iteration over a graph's adjacency matrix, bounded by
/// a maximum number of iterations.
pub struct PowerIteration {
    max_iterations: usize,
    done: usize,
    halted: bool,
    converged: bool,
}

impl PowerIteration {
    /// The maximum number of iterations.
    pub closed spec fn max_spec(&self) -> nat {
        self.max_iterations as nat
    }

    /// The number of iterations performed so far.
    pub closed spec fn done_spec(&self) -> nat {
        self.done as nat
    }

    /// Whether a step has stopped the iteration.
    pub closed spec fn halted_spec(&self) -> bool {
        self.halted
    }

    /// Whether the iteration stopped because the estimate moved less than
    /// the tolerance.
    pub closed spec fn converged_spec(&self) -> bool {
        self.converged
    }

    /// Whether another iteration is due.
    pub open spec fn runs(&self) -> bool {
        !self.halted_spec() && self.done_spec() < self.max_spec()
    }

    pub closed spec fn wf(&self) -> bool {
        &&& self.done <= self.max_iterations
        &&& self.converged ==> self.halted
    }

    /// A new iteration over `node_count` nodes. With no nodes there is
    /// nothing to iterate on: it is halted from the start.
    pub fn new(node_count: usize, max_iterations: usize) -> (p: PowerIteration)
        ensures
            p.wf(),
            p.max_spec() == max_iterations,
            p.done_spec() == 0,
            p.halted_spec() == (node_count == 0),
            !p.converged_spec(),
    {
        PowerIteration { max_iterations, done: 0, halted: node_count == 0, converged: false }
    }

    /// Whether another iteration is due.
    pub fn should_continue(&self) -> (r: bool)
        ensures
            r == self.runs(),
    {
        !self.halted && self.done < self.max_iterations
    }

    /// Records one iteration: whether the product of matrix and estimate had
    /// norm zero, and whether the renormalised vector lies within the
    /// tolerance of the estimate. Returns what to do with that vector.
    pub fn record(&mut self, norm_is_zero: bool, within_tolerance: bool) -> (r: IterationStep)
        requires
            old(self).wf(),
            old(self).runs(),
        ensures
            final(self).wf(),
            r == step_for(norm_is_zero, within_tolerance),
            final(self).max_spec() == old(self).max_spec(),
            final(self).done_spec() == old(self).done_spec() + 1,
            final(self).halted_spec() == (r != IterationStep::Accept),
            final(self).converged_spec() == (r == IterationStep::AcceptAndHalt),
    {
        self.done = self.done + 1;
        if norm_is_zero {
            self.halted = true;
            IterationStep::Halt
        } else if within_tolerance {
            self.halted = true;
            self.converged = true;
            IterationStep::AcceptAndHalt
        } else {
            IterationStep::Accept
        }
    }

    /// The number of iterations performed so far.
    pub fn iterations(&self) -> (r: usize)
        ensures
            r == self.done_spec(),
    {
        self.done
    }

    /// Whether the iteration stopped because the estimate moved less than
    /// the tolerance.
    pub fn converged(&self) -> (r: bool)
        ensures
            r == self.converged_spec(),
    {
        self.converged
    }
}

impl TrustGraph {
    /// Pairs each participant with the score at its internal index: the
    /// centrality map, one entry per node and no other.
    pub fn scores_by_participant<T: Copy>(&self, scores: &Vec<T>) -> (r: Vec<(u32, T)>)
        requires
            self.wf(),
            scores@.len() == participants(self@).len(),
        ensures
            r@.len() == scores@.len(),
            forall|i: int| 0 <= i < r@.len() ==> #[trigger] r@[i] == (participants(self@)[i], scores@[i]),
            forall|x: u32| (exists|i: int| 0 <= i < r@.len() && (#[trigger] r@[i]).0 == x) <==> participant_set(self@).contains(x),
            forall|i: int, j: int| 0 <= i < j < r@.len() ==> (#[trigger] r@[i]).0 != (#[trigger] r@[j]).0,
    {
        let ids = self.participant_ids();
        let mut r: Vec<(u32, T)> = Vec::new();
        let mut i: usize = 0;
        while i < ids.len()
            invariant
                ids@ == participants(self@),
                scores@.len() == ids@.len(),
                i <= ids@.len(),
                r@.len() == i,
                forall|k: int| 0 <= k < i ==> #[trigger] r@[k] == (ids@[k], scores@[k]),
            decreases ids@.len() - i,
        {
            r.push((ids[i], scores[i]));
            i = i + 1;
        }
        proof {
            lemma_participants_are_ids(self@);
            assert forall|x: u32| (exists|i: int| 0 <= i < r@.len() && (#[trigger] r@[i]).0 == x) <==> participant_set(self@).contains(x) by {
                if participant_set(self@).contains(x) {
                    let k = choose|k: int| 0 <= k < ids@.len() && ids@[k] == x;
                    assert(r@[k].0 == x);
                }
                if exists|i: int| 0 <= i < r@.len() && (#[trigger] r@[i]).0 == x {
                    let k = choose|k: int| 0 <= k < r@.len() && (#[trigger] r@[k]).0 == x;
                    assert(ids@[k] == x);
                }
            }
            assert forall|i: int, j: int| 0 <= i < j < r@.len() implies (#[trigger] r@[i]).0 != (#[trigger] r@[j]).0 by {
                assert(ids@[i] != ids@[j]);
            }
        }
        r
    }
}

} // verus!

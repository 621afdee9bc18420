//! The discrete part of simulated annealing: the random neighbour of an
//! order, and what becomes of the search once it is known whether a
//! neighbour that is no better is accepted all the same.

use vstd::prelude::*;
use crate::permutation::{
    identity, is_permutation, lemma_rearranged_identity, lemma_swap_is_permutation, swapped,
};
use crate::random::{gen_range, shuffle};
use super::problem::{saturate, CoProblem, ProblemView};

verus! {

/// Exchanges the blocks at two different random positions of `s` and
/// returns the positions.
///
/// The first position is drawn among all, the second among all others.
pub fn random_swap(s: &mut Vec<usize>) -> (at: (usize, usize))
    requires
        old(s)@.len() >= 2,
    ensures
        at.0 < old(s)@.len(),
        at.1 < old(s)@.len(),
        at.0 != at.1,
        final(s)@ == swapped(old(s)@, at.0 as int, at.1 as int),
{
    let len = s.len();
    let i = gen_range(len);
    let drawn = gen_range(len - 1);
    let j = if drawn >= i {
        drawn + 1
    } else {
        drawn
    };
    let v = s[i];
    s[i] = s[j];
    s[j] = v;
    (i, j)
}

/// The state of an annealing search: the current order and the best order
/// seen, each with its fitness.
pub struct Annealing {
    pub solution: Vec<usize>,
    pub solution_f: u64,
    pub best_solution: Vec<usize>,
    pub best_solution_f: u64,
}

impl Annealing {
    /// Both orders are permutations of the blocks of `v`, each fitness is
    /// that of its order, and the best order is no worse than the current.
    pub open spec fn wf(&self, v: ProblemView) -> bool {
        &&& is_permutation(self.solution@, v.n)
        &&& is_permutation(self.best_solution@, v.n)
        &&& self.solution_f as int == saturate(v.fitness(self.solution@))
        &&& self.best_solution_f as int == saturate(v.fitness(self.best_solution@))
        &&& self.solution_f <= self.best_solution_f
    }

    /// Starts a search of `problem` at a random order.
    pub fn start(problem: &CoProblem) -> (state: Self)
        requires
            problem@.wf(),
        ensures
            state.wf(problem@),
            state.solution@ == state.best_solution@,
    {
        let mut best_solution = identity(problem.n);
        shuffle(&mut best_solution);
        proof {
            lemma_rearranged_identity(best_solution@, problem.n as nat);
        }
        let best_solution_f = problem.eval(best_solution.as_slice());
        let solution = best_solution.clone();
        Annealing { solution, solution_f: best_solution_f, best_solution, best_solution_f }
    }

    /// Proposes a neighbour of the current order, two random positions
    /// exchanged, and returns it with its fitness.
    pub fn propose(&self, problem: &CoProblem) -> (neighbor: (Vec<usize>, u64))
        requires
            problem@.wf(),
            self.wf(problem@),
            problem.n >= 2,
        ensures
            is_permutation(neighbor.0@, problem@.n),
            neighbor.1 as int == saturate(problem@.fitness(neighbor.0@)),
            exists|i: int, j: int|
                0 <= i < problem.n && 0 <= j < problem.n && i != j && neighbor.0@ == swapped(
                    self.solution@,
                    i,
                    j,
                ),
    {
        let mut neighbor = self.solution.clone();
        let (i, j) = random_swap(&mut neighbor);
        proof {
            lemma_swap_is_permutation(self.solution@, problem.n as nat, i as int, j as int);
        }
        let neighbor_f = problem.eval(neighbor.as_slice());
        (neighbor, neighbor_f)
    }

    /// By how much a neighbour of fitness `neighbor_f` is better than the
    /// current order; negative if it is worse.
    pub fn energy(&self, neighbor_f: u64) -> (delta: i128)
        ensures
            delta == neighbor_f - self.solution_f,
    {
        neighbor_f as i128 - self.solution_f as i128
    }

    /// Decides on the neighbour `neighbor` of fitness `neighbor_f`.
    ///
    /// A neighbour that is better than the current order is always
    /// accepted, and it also replaces the best order if it is better than
    /// that. Any other neighbour is accepted if and only if `accept_worse`
    /// says so. An accepted neighbour becomes the current order.
    pub fn step(&mut self, neighbor: Vec<usize>, neighbor_f: u64, accept_worse: bool)
        ensures
            stepped(*old(self), *final(self), neighbor@, neighbor_f, accept_worse),
    {
        if neighbor_f > self.solution_f {
            if neighbor_f > self.best_solution_f {
                self.best_solution_f = neighbor_f;
                self.best_solution = neighbor.clone();
            }
            self.solution_f = neighbor_f;
            self.solution = neighbor;
        } else if accept_worse {
            self.solution_f = neighbor_f;
            self.solution = neighbor;
        }
    }

    /// A neighbour that is better than the current order is accepted
    /// whatever `accept_worse` says.
    pub proof fn lemma_better_is_accepted(
        before: Self,
        after: Self,
        neighbor: Seq<usize>,
        neighbor_f: u64,
        accept_worse: bool,
    )
        requires
            stepped(before, after, neighbor, neighbor_f, accept_worse),
            neighbor_f > before.solution_f,
        ensures
            after.solution@ == neighbor,
            after.solution_f == neighbor_f,
    {
    }

    /// A step on a sound state, with a neighbour and its true fitness,
    /// leaves a sound state.
    pub proof fn lemma_step_keeps_wf(
        before: Self,
        after: Self,
        v: ProblemView,
        neighbor: Seq<usize>,
        neighbor_f: u64,
        accept_worse: bool,
    )
        requires
            before.wf(v),
            is_permutation(neighbor, v.n),
            neighbor_f as int == saturate(v.fitness(neighbor)),
            stepped(before, after, neighbor, neighbor_f, accept_worse),
        ensures
            after.wf(v),
    {
    }
}

/// `after` is what [`Annealing::step`] makes of `before`.
pub open spec fn stepped(
    before: Annealing,
    after: Annealing,
    neighbor: Seq<usize>,
    neighbor_f: u64,
    accept_worse: bool,
) -> bool {
    let better = neighbor_f > before.solution_f;
    let record = better && neighbor_f > before.best_solution_f;
    &&& after.solution@ == if better || accept_worse {
        neighbor
    } else {
        before.solution@
    }
    &&& after.solution_f == if better || accept_worse {
        neighbor_f
    } else {
        before.solution_f
    }
    &&& after.best_solution@ == if record {
        neighbor
    } else {
        before.best_solution@
    }
    &&& after.best_solution_f == if record {
        neighbor_f
    } else {
        before.best_solution_f
    }
}

} // verus!

//! Local search over pairwise swaps, taking the first swap that improves.

use vstd::prelude::*;
use std::time::Instant;
use crate::clock::out_of_time;
use crate::permutation::{
    identity, is_permutation, lemma_rearranged_identity, lemma_swap_is_permutation, swapped,
};
use crate::random::shuffle;
use super::problem::{saturate, CoProblem, ProblemView};

verus! {

/// No exchange of two positions of `p` gives a higher fitness.
pub open spec fn is_local_optimum(v: ProblemView, p: Seq<usize>) -> bool {
    forall|i: int, j: int|
        0 <= i < j < v.n ==> saturate(v.fitness(#[trigger] swapped(p, i, j))) <= saturate(
            v.fitness(p),
        )
}

/// The swaps `(a, b)` that a pass has tried when it stands at `(i, j)`.
pub open spec fn tried(a: int, b: int, i: int, j: int) -> bool {
    a < i || (a == i && b < j)
}

/// What a search found: the best order and its fitness, whether the search
/// ended by itself rather than by the clock, and how many passes it made.
#[derive(Debug)]
pub struct Found {
    pub order: Vec<usize>,
    pub fitness: u64,
    pub ended: bool,
    pub passes: u128,
}

/// Searches from the order `start`, with the time budget counted from `time`.
///
/// Each pass tries the swaps of two positions in order; the first one that
/// strictly raises the fitness is adopted and the pass starts over. The
/// search ends with a pass that finds no such swap, or when the time budget
/// is used up. If it ended by itself, the order found is a local optimum.
///
/// Every pass but the last raises the fitness, so there are at most as many
/// passes as the fitness rose, and one more: the search ends whatever the
/// clock says.
pub fn search_from(problem: &CoProblem, start: Vec<usize>, time: &Instant) -> (found: Found)
    requires
        problem@.wf(),
        is_permutation(start@, problem@.n),
    ensures
        is_permutation(found.order@, problem@.n),
        found.fitness as int == saturate(problem@.fitness(found.order@)),
        found.fitness as int >= saturate(problem@.fitness(start@)),
        found.ended ==> is_local_optimum(problem@, found.order@),
        found.passes <= found.fitness - saturate(problem@.fitness(start@)) + 1,
{
    let n = problem.n;
    let ghost v = problem@;
    let mut best_solution = start;
    let mut best_solution_f = problem.eval(best_solution.as_slice());
    let ghost first_f = best_solution_f;
    let mut update = true;
    let mut expired = false;
    let mut passes: u128 = 0;
    while update && !expired
        invariant
            n == problem.n,
            passes <= best_solution_f - first_f + (if update { 0int } else { 1int }),
            v == problem@,
            v.wf(),
            is_permutation(best_solution@, n as nat),
            best_solution_f as int == saturate(v.fitness(best_solution@)),
            best_solution_f >= first_f,
            !update && !expired ==> is_local_optimum(v, best_solution@),
        decreases u64::MAX - best_solution_f + (if update { 1int } else { 0int }),
    {
        let ghost pass_start = best_solution_f;
        update = false;
        let mut solution = best_solution.clone();
        let mut i: usize = 0;
        while i < n && !update && !expired
            invariant
                i <= n,
                n == problem.n,
                v == problem@,
                v.wf(),
                is_permutation(best_solution@, n as nat),
                is_permutation(solution@, n as nat),
                best_solution_f as int == saturate(v.fitness(best_solution@)),
                update ==> best_solution_f > pass_start,
                !update ==> best_solution_f == pass_start,
                !update && !expired ==> solution@ == best_solution@,
                !update && !expired ==> forall|a: int, b: int|
                    0 <= a < b < n && a < i ==> saturate(
                        v.fitness(#[trigger] swapped(best_solution@, a, b)),
                    ) <= best_solution_f,
            decreases n - i,
        {
            let mut j: usize = i + 1;
            while j < n && !update && !expired
                invariant
                    i < j <= n,
                    n == problem.n,
                    v == problem@,
                    v.wf(),
                    is_permutation(best_solution@, n as nat),
                    is_permutation(solution@, n as nat),
                    best_solution_f as int == saturate(v.fitness(best_solution@)),
                    update ==> best_solution_f > pass_start,
                    !update ==> best_solution_f == pass_start,
                    !update && !expired ==> solution@ == best_solution@,
                    !update && !expired ==> forall|a: int, b: int|
                        0 <= a < b < n && tried(a, b, i as int, j as int) ==> saturate(
                            v.fitness(#[trigger] swapped(best_solution@, a, b)),
                        ) <= best_solution_f,
                decreases n - j,
            {
                let ghost unswapped = solution@;
                let left = solution[i];
                let right = solution[j];
                solution[i] = right;
                solution[j] = left;
                proof {
                    lemma_swap_is_permutation(unswapped, n as nat, i as int, j as int);
                }
                let solution_f = problem.eval(solution.as_slice());
                if solution_f > best_solution_f {
                    best_solution_f = solution_f;
                    best_solution = solution.clone();
                    update = true;
                } else if out_of_time(time) {
                    expired = true;
                } else {
                    solution[j] = right;
                    solution[i] = left;
                }
                j += 1;
            }
            i += 1;
        }
        passes += 1;
    }
    Found { order: best_solution, fitness: best_solution_f, ended: !expired, passes }
}

/// Searches from a random order of the blocks of `problem` and returns the
/// best order found and its fitness.
pub fn run(problem: &CoProblem) -> (best: (Vec<usize>, u64))
    requires
        problem@.wf(),
    ensures
        is_permutation(best.0@, problem@.n),
        best.1 as int == saturate(problem@.fitness(best.0@)),
{
    let time = Instant::now();
    let mut start = identity(problem.n);
    shuffle(&mut start);
    proof {
        lemma_rearranged_identity(start@, problem.n as nat);
    }
    let found = search_from(problem, start, &time);
    (found.order, found.fitness)
}

} // verus!

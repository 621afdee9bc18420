//! Choosing the functions of a module whose arrangement problems are worth
//! solving, and building those problems.

use vstd::prelude::*;
use crate::co::{CoProblem, ProblemView};
use crate::profdata::{is_hot_ranking, Function, Module};

verus! {

/// The function `f` yields a problem that is kept: its entry block
/// branches, the number of its non-entry blocks is at least `min_bb_num` and
/// below `max_bb_num`, where these are given, and its matrix is not all zero.
pub open spec fn keeps(f: Function, min_bb_num: Option<usize>, max_bb_num: Option<usize>) -> bool {
    &&& f.successors()[0].len() > 0
    &&& match min_bb_num {
        Some(min) => min <= f.problem().n,
        None => true,
    }
    &&& match max_bb_num {
        Some(max) => f.problem().n < max,
        None => true,
    }
    &&& !f.problem().is_zeros()
}

/// The names and problems of the functions that `order` names and that are
/// kept, in the order of `order`.
pub open spec fn selected(
    functions: Seq<Function>,
    order: Seq<usize>,
    min_bb_num: Option<usize>,
    max_bb_num: Option<usize>,
) -> Seq<(Seq<char>, ProblemView)>
    decreases order.len(),
{
    if order.len() == 0 {
        Seq::empty()
    } else {
        let rest = selected(functions, order.drop_last(), min_bb_num, max_bb_num);
        let f = functions[order.last() as int];
        if keeps(f, min_bb_num, max_bb_num) {
            rest.push((f.name@, f.problem()))
        } else {
            rest
        }
    }
}

/// The first `limit` entries of `order`, or all of it without a limit.
pub open spec fn limited(order: Seq<usize>, limit: Option<usize>) -> Seq<usize> {
    match limit {
        Some(n) => if n < order.len() {
            order.take(n as int)
        } else {
            order
        },
        None => order,
    }
}

/// The names and problems of `set`.
pub open spec fn problems_of(set: Seq<(String, CoProblem)>) -> Seq<(Seq<char>, ProblemView)> {
    set.map_values(|e: (String, CoProblem)| (e.0@, e.1@))
}

/// Builds the problem set of `module`.
///
/// The functions that have an entry count are taken from the most entered
/// down, at most `max_num_funcs` of them. Each yields a problem unless its
/// entry block does not branch; a problem is left out if the number of its
/// blocks, the entry block not counted, is below `min_bb_num` or not below
/// `max_bb_num`, or if its matrix is all zero. The problems come with the
/// names of their functions.
pub fn generate(
    module: &Module,
    max_num_funcs: Option<usize>,
    min_bb_num: Option<usize>,
    max_bb_num: Option<usize>,
) -> (set: Vec<(String, CoProblem)>)
    requires
        module.wf(),
    ensures
        exists|order: Seq<usize>|
            is_hot_ranking(module.functions@, order) && problems_of(set@) == selected(
                module.functions@,
                limited(order, max_num_funcs),
                min_bb_num,
                max_bb_num,
            ),
        forall|k: int|
            0 <= k < set@.len() ==> !(#[trigger] set@[k]).1@.is_zeros() && set@[k].1@.wf(),
{
    let mut order = module.hottest();
    let ghost ranking = order@;
    match max_num_funcs {
        Some(n) => {
            order.truncate(n);
        },
        None => {},
    }
    assert(order@ =~= limited(ranking, max_num_funcs));
    let ghost functions = module.functions@;
    let mut set: Vec<(String, CoProblem)> = Vec::new();
    let mut k: usize = 0;
    while k < order.len()
        invariant
            k <= order@.len(),
            module.wf(),
            functions == module.functions@,
            forall|a: int| 0 <= a < order@.len() ==> (#[trigger] order@[a]) < functions.len(),
            problems_of(set@) == selected(functions, order@.take(k as int), min_bb_num, max_bb_num),
            forall|a: int|
                0 <= a < set@.len() ==> !(#[trigger] set@[a]).1@.is_zeros() && set@[a].1@.wf(),
        decreases order@.len() - k,
    {
        let at = order[k];
        let func = &module.functions[at];
        proof {
            assert(order@.take(k + 1).drop_last() =~= order@.take(k as int));
        }
        match CoProblem::block_reordering_from(func) {
            Some(problem) => {
                let enough = match min_bb_num {
                    Some(min) => min <= problem.n,
                    None => true,
                };
                let few = match max_bb_num {
                    Some(max) => problem.n < max,
                    None => true,
                };
                if enough && few && !problem.is_zeros() {
                    set.push((func.name.clone(), problem));
                }
            },
            None => {},
        }
        k += 1;
    }
    assert(order@.take(k as int) =~= order@);
    set
}

} // verus!

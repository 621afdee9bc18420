//! A module: the functions that a provider lifted from one compiled unit.

use vstd::prelude::*;
use crate::permutation::lemma_permutation_onto;
use crate::ranking::{is_ranking, rank_descending, ranks_before};
use super::Function;

verus! {

/// The functions of one module. `module_ref` is an opaque handle with which
/// the provider of the module finds it again.
#[derive(Debug)]
pub struct Module {
    pub functions: Vec<Function>,
    pub module_ref: usize,
}

/// Function `a` is listed before function `b`: it was entered more often,
/// or as often and stands later in the module.
pub open spec fn hotter(functions: Seq<Function>, a: int, b: int) -> bool {
    let x = functions[a].spec_entry_count()->Some_0;
    let y = functions[b].spec_entry_count()->Some_0;
    x > y || (x == y && a > b)
}

/// `order` names exactly the functions that have an entry count, the most
/// entered first.
pub open spec fn is_hot_ranking(functions: Seq<Function>, order: Seq<usize>) -> bool {
    &&& forall|k: int|
        0 <= k < order.len() ==> (#[trigger] order[k]) < functions.len()
            && functions[order[k] as int].spec_entry_count() is Some
    &&& forall|a: int, b: int|
        0 <= a < b < order.len() ==> hotter(functions, order[a] as int, order[b] as int)
    &&& forall|j: usize|
        j < functions.len() && functions[j as int].spec_entry_count() is Some
            ==> #[trigger] order.contains(j)
}

/// The functions that `order` names, each with its entry count.
pub open spec fn listing(functions: Seq<Function>, order: Seq<usize>) -> Seq<(u64, Function)> {
    Seq::new(
        order.len(),
        |k: int|
            (functions[order[k] as int].spec_entry_count()->Some_0, functions[order[k] as int]),
    )
}

impl Module {
    /// Every function of the module is well formed.
    pub open spec fn wf(&self) -> bool {
        forall|i: int| 0 <= i < self.functions@.len() ==> (#[trigger] self.functions@[i]).wf()
    }

    /// Lists the positions of the functions that have an entry count, the
    /// most entered first; of two entered equally often, the later first.
    pub fn hottest(&self) -> (order: Vec<usize>)
        ensures
            is_hot_ranking(self.functions@, order@),
    {
        let ghost functions = self.functions@;
        let mut candidates: Vec<usize> = Vec::new();
        let mut keys: Vec<u128> = Vec::new();
        let mut j: usize = 0;
        while j < self.functions.len()
            invariant
                j <= self.functions@.len(),
                functions == self.functions@,
                candidates@.len() == keys@.len(),
                forall|k: int|
                    0 <= k < candidates@.len() ==> (#[trigger] candidates@[k]) < j
                        && functions[candidates@[k] as int].spec_entry_count() == Some(
                        keys@[k] as u64,
                    ) && keys@[k] <= u64::MAX,
                forall|a: int, b: int|
                    0 <= a < b < candidates@.len() ==> candidates@[a] < candidates@[b],
                forall|x: usize|
                    x < j && functions[x as int].spec_entry_count() is Some
                        ==> #[trigger] candidates@.contains(x),
            decreases self.functions@.len() - j,
        {
            let ghost before = candidates@;
            match self.functions[j].get_entry_count() {
                Some(count) => {
                    candidates.push(j);
                    keys.push(count as u128);
                    assert(candidates@[before.len() as int] == j);
                },
                None => {},
            }
            assert forall|x: usize|
                x < j + 1 && functions[x as int].spec_entry_count() is Some
                    implies #[trigger] candidates@.contains(x) by {
                if x < j {
                    assert(before.contains(x));
                    let k = choose|k: int| 0 <= k < before.len() && before[k] == x;
                    assert(candidates@[k] == x);
                }
            }
            j += 1;
        }
        let ranks = rank_descending(&keys, true);
        let mut order: Vec<usize> = Vec::new();
        let mut k: usize = 0;
        while k < ranks.len()
            invariant
                k <= ranks@.len(),
                is_ranking(keys@, true, ranks@),
                candidates@.len() == keys@.len(),
                order@.len() == k,
                forall|a: int| 0 <= a < k ==> order@[a] == candidates@[ranks@[a] as int],
            decreases ranks@.len() - k,
        {
            order.push(candidates[ranks[k]]);
            k += 1;
        }
        proof {
            assert forall|a: int| 0 <= a < order@.len() implies (#[trigger] order@[a])
                < functions.len() && functions[order@[a] as int].spec_entry_count() is Some by {}
            assert forall|a: int, b: int| 0 <= a < b < order@.len() implies hotter(
                functions,
                order@[a] as int,
                order@[b] as int,
            ) by {
                let x = ranks@[a] as int;
                let y = ranks@[b] as int;
                assert(ranks_before(keys@, true, x, y));
            }
            assert forall|x: usize|
                x < functions.len() && functions[x as int].spec_entry_count() is Some
                    implies #[trigger] order@.contains(x) by {
                assert(candidates@.contains(x));
                let c = choose|c: int| 0 <= c < candidates@.len() && candidates@[c] == x;
                lemma_permutation_onto(ranks@, keys@.len(), c as usize);
                let a = choose|a: int| 0 <= a < ranks@.len() && ranks@[a] == c as usize;
                assert(order@[a] == x);
            }
        }
        order
    }

    /// Returns the functions that have an entry count, each with its count,
    /// the most entered first; of two entered equally often, the one that
    /// stands later in the module comes first.
    pub fn functions_sort_hottest(&self) -> (funcs: Vec<(u64, &Function)>)
        ensures
            exists|order: Seq<usize>|
                is_hot_ranking(self.functions@, order) && funcs@.map_values(
                    |e: (u64, &Function)| (e.0, *e.1),
                ) == listing(self.functions@, order),
    {
        let order = self.hottest();
        let mut funcs: Vec<(u64, &Function)> = Vec::new();
        let mut k: usize = 0;
        while k < order.len()
            invariant
                k <= order@.len(),
                is_hot_ranking(self.functions@, order@),
                funcs@.len() == k,
                forall|a: int|
                    0 <= a < k ==> Some((#[trigger] funcs@[a]).0)
                        == self.functions@[order@[a] as int].spec_entry_count()
                        && *funcs@[a].1 == self.functions@[order@[a] as int],
            decreases order@.len() - k,
        {
            let at = order[k];
            let func = &self.functions[at];
            match func.get_entry_count() {
                Some(count) => {
                    funcs.push((count, func));
                },
                None => {
                    assert(false);
                },
            }
            k += 1;
        }
        assert(funcs@.map_values(|e: (u64, &Function)| (e.0, *e.1)) =~= listing(
            self.functions@,
            order@,
        ));
        funcs
    }
}

} // verus!

//! A constructive solver: it grows a block order at both ends, starting from
//! blocks of high rank and following each with the blocks it interacts with.

use vstd::prelude::*;
use std::collections::VecDeque;
use crate::permutation::{
    distinct, first_unselected, in_range, is_permutation, lemma_length_bounded,
    lemma_permutation_onto, lemma_placed_grows, lemma_room_left, no_flags, placed,
};
use crate::random::{choose_weighted, lemma_weight_sum_bounded, weight_sum};
use crate::ranking::{is_ranking, rank_descending};
use super::problem::{
    lemma_size_within_total, saturate, total_size, CoProblem, ProblemView, MAX_BLOCKS,
};

verus! {

/// Sum of the entries of `row`.
pub open spec fn row_total(row: Seq<u64>) -> nat
    decreases row.len(),
{
    if row.len() == 0 {
        0
    } else {
        row_total(row.drop_last()) + row.last() as nat
    }
}

/// For each block, the sum of its outgoing interaction.
pub open spec fn interaction_keys(v: ProblemView) -> Seq<u128> {
    Seq::new(v.n, |i: int| row_total(v.c[i]) as u128)
}

/// `x` limited to what a `u128` holds.
pub open spec fn saturate_wide(x: int) -> u128 {
    if x > u128::MAX as int {
        u128::MAX
    } else {
        x as u128
    }
}

/// The sampling weight of block `idx` as the next parent: zero once it is
/// selected, else the square of the entry that the ranking holds at `idx`.
pub open spec fn parent_weight(rank: Seq<usize>, selected: Seq<bool>, idx: int) -> int {
    if selected[idx] {
        0
    } else {
        rank[idx] * rank[idx]
    }
}

/// Block `j` is a child of `parent`: not yet selected, and reached from it.
pub open spec fn is_child(v: ProblemView, selected: Seq<bool>, parent: int, j: int) -> bool {
    !selected[j] && v.c[parent][j] > 0
}

/// The score of child `j` of `parent`: their interaction times the size of
/// all blocks but `j`, limited to what a `u128` holds.
pub open spec fn child_score(v: ProblemView, parent: int, j: int) -> u128 {
    saturate_wide(v.interaction(parent, j) * (total_size(v.s) - v.s[j]))
}

/// Child `x` of `parent` comes before child `y`: it has the higher score, or
/// the same score and the lower index.
pub open spec fn child_before(v: ProblemView, parent: int, x: int, y: int) -> bool {
    child_score(v, parent, x) > child_score(v, parent, y) || (child_score(v, parent, x)
        == child_score(v, parent, y) && x < y)
}

/// `kids` lists the children of `parent` from the highest score down, equal
/// scores by block index.
pub open spec fn are_children(
    v: ProblemView,
    selected: Seq<bool>,
    parent: int,
    kids: Seq<usize>,
) -> bool {
    &&& in_range(kids, v.n)
    &&& forall|j: usize|
        j < v.n ==> (#[trigger] kids.contains(j) <==> is_child(v, selected, parent, j as int))
    &&& forall|a: int, b: int|
        0 <= a < b < kids.len() ==> child_before(v, parent, kids[a] as int, kids[b] as int)
}

/// The sampling weight of the child at `position` among `count` children:
/// the square of its rank counted from the worst.
pub open spec fn position_weight(count: int, position: int) -> int {
    (count - position) * (count - position)
}

/// Ranks the blocks of `problem` by their total outgoing interaction, the
/// highest first, blocks of equal interaction by index.
pub fn rank_by_interaction(problem: &CoProblem) -> (rank: Vec<usize>)
    requires
        problem@.wf(),
    ensures
        is_ranking(interaction_keys(problem@), false, rank@),
{
    let n = problem.n;
    let mut keys: Vec<u128> = Vec::new();
    let mut i: usize = 0;
    while i < n
        invariant
            i <= n,
            n == problem.n,
            problem@.wf(),
            keys@.len() == i,
            forall|k: int| 0 <= k < i ==> keys@[k] == row_total(problem@.c[k]) as u128,
        decreases n - i,
    {
        let row = &problem.c[i];
        let mut sum: u128 = 0;
        let mut j: usize = 0;
        while j < row.len()
            invariant
                j <= row.len(),
                sum == row_total(row@.take(j as int)),
                sum <= j * u64::MAX,
            decreases row.len() - j,
        {
            assert(row@.take(j + 1).drop_last() =~= row@.take(j as int));
            assert(j * u64::MAX + u64::MAX <= 0xffff_ffff_ffff_ffff * 0xffff_ffff_ffff_ffff
                + 0xffff_ffff_ffff_ffff) by (nonlinear_arith)
                requires
                    0 <= j <= 0xffff_ffff_ffff_ffff,
                    u64::MAX == 0xffff_ffff_ffff_ffff,
            ;
            sum = sum + row[j] as u128;
            j += 1;
        }
        assert(row@.take(j as int) =~= row@);
        keys.push(sum);
        i += 1;
    }
    assert(keys@ =~= interaction_keys(problem@));
    rank_descending(&keys, false)
}

/// The sampling weights of all blocks as the next parent.
pub fn parent_weights(rank: &Vec<usize>, selected: &Vec<bool>) -> (weights: Vec<u64>)
    requires
        rank@.len() == selected@.len(),
        rank@.len() <= MAX_BLOCKS,
        in_range(rank@, rank@.len()),
    ensures
        weights@.len() == rank@.len(),
        forall|i: int|
            0 <= i < weights@.len() ==> weights@[i] == parent_weight(rank@, selected@, i),
        weight_sum(weights@) <= u64::MAX,
{
    let n = rank.len();
    let mut weights: Vec<u64> = Vec::new();
    let mut i: usize = 0;
    while i < n
        invariant
            i <= n,
            n == rank@.len(),
            n == selected@.len(),
            n <= MAX_BLOCKS,
            in_range(rank@, n as nat),
            weights@.len() == i,
            forall|k: int| 0 <= k < i ==> weights@[k] == parent_weight(rank@, selected@, k),
            forall|k: int| 0 <= k < i ==> (#[trigger] weights@[k]) <= n * n,
        decreases n - i,
    {
        let r = rank[i];
        assert(r * r <= n * n && n * n <= 2_097_151 * 2_097_151) by (nonlinear_arith)
            requires
                0 <= r < n,
                n <= 2_097_151,
        ;
        let weight: u64 = if selected[i] {
            0
        } else {
            (r as u64) * (r as u64)
        };
        weights.push(weight);
        i += 1;
    }
    proof {
        lemma_weight_sum_bounded(weights@, (n * n) as nat);
        assert(n * (n * n) <= u64::MAX) by (nonlinear_arith)
            requires
                0 <= n <= 2_097_151,
        ;
    }
    weights
}

/// The sampling weights of `count` children by position.
pub fn position_weights(count: usize) -> (weights: Vec<u64>)
    requires
        count <= MAX_BLOCKS,
    ensures
        weights@.len() == count,
        forall|i: int| 0 <= i < count ==> weights@[i] == position_weight(count as int, i),
        forall|i: int| 0 <= i < count ==> 0 < (#[trigger] weights@[i]) <= count * count,
{
    let mut weights: Vec<u64> = Vec::new();
    let mut i: usize = 0;
    while i < count
        invariant
            i <= count,
            count <= MAX_BLOCKS,
            weights@.len() == i,
            forall|k: int| 0 <= k < i ==> weights@[k] == position_weight(count as int, k),
            forall|k: int| 0 <= k < i ==> 0 < (#[trigger] weights@[k]) <= count * count,
        decreases count - i,
    {
        let d = count - i;
        assert(0 < d * d <= count * count && count * count <= 2_097_151 * 2_097_151)
            by (nonlinear_arith)
            requires
                0 < d <= count,
                count <= 2_097_151,
        ;
        weights.push((d as u64) * (d as u64));
        i += 1;
    }
    weights
}

/// Puts `block` at the front or at the back of `solution` and marks it.
pub fn place(solution: &mut VecDeque<usize>, selected: &mut Vec<bool>, block: usize, front: bool)
    requires
        placed(old(solution)@, old(selected)@, old(selected)@.len()),
        block < old(selected)@.len(),
        !old(selected)@[block as int],
    ensures
        placed(final(solution)@, final(selected)@, old(selected)@.len()),
        final(solution)@ == if front {
            seq![block] + old(solution)@
        } else {
            old(solution)@.push(block)
        },
        final(selected)@ == old(selected)@.update(block as int, true),
{
    proof {
        lemma_placed_grows(solution@, selected@, selected@.len(), block);
    }
    if front {
        solution.push_front(block);
    } else {
        solution.push_back(block);
    }
    selected[block] = true;
}

/// Lists the children of `parent` from the highest score down.
///
/// `total` is the sum of all block sizes.
pub fn children_of(problem: &CoProblem, parent: usize, selected: &Vec<bool>, total: u128) -> (kids:
    Vec<usize>)
    requires
        problem@.wf(),
        parent < problem.n,
        selected@.len() == problem.n,
        total == total_size(problem@.s),
    ensures
        are_children(problem@, selected@, parent as int, kids@),
        distinct(kids@),
{
    let n = problem.n;
    let ghost v = problem@;
    let ghost flags = selected@;
    let mut candidates: Vec<usize> = Vec::new();
    let mut scores: Vec<u128> = Vec::new();
    let outgoing = &problem.c[parent];
    let mut j: usize = 0;
    while j < n
        invariant
            j <= n,
            n == problem.n,
            v == problem@,
            v.wf(),
            flags == selected@,
            flags.len() == n,
            parent < n,
            total == total_size(v.s),
            outgoing@ == v.c[parent as int],
            candidates@.len() == scores@.len(),
            forall|k: int| 0 <= k < candidates@.len() ==> (#[trigger] candidates@[k]) < j,
            forall|a: int, b: int|
                0 <= a < b < candidates@.len() ==> candidates@[a] < candidates@[b],
            forall|x: usize|
                x < j ==> (#[trigger] candidates@.contains(x) <==> is_child(
                    v,
                    flags,
                    parent as int,
                    x as int,
                )),
            forall|k: int|
                0 <= k < scores@.len() ==> scores@[k] == child_score(
                    v,
                    parent as int,
                    #[trigger] candidates@[k] as int,
                ),
        decreases n - j,
    {
        let ghost before = candidates@;
        if !selected[j] && outgoing[j] > 0 {
            assert(v.c[j as int] == problem.c@[j as int]@);
            proof {
                lemma_size_within_total(v.s, j as int);
            }
            let interaction: u128 = outgoing[j] as u128 + problem.c[j][parent] as u128;
            let others: u128 = total - problem.s[j] as u128;
            let score = match interaction.checked_mul(others) {
                Some(product) => product,
                None => u128::MAX,
            };
            candidates.push(j);
            scores.push(score);
            assert forall|x: usize| x < j + 1 implies (#[trigger] candidates@.contains(x)
                <==> is_child(v, flags, parent as int, x as int)) by {
                if x == j {
                    assert(candidates@[before.len() as int] == x);
                } else if before.contains(x) {
                    let k = choose|k: int| 0 <= k < before.len() && before[k] == x;
                    assert(candidates@[k] == x);
                }
            }
        } else {
            assert forall|x: usize| x < j + 1 implies (#[trigger] candidates@.contains(x)
                <==> is_child(v, flags, parent as int, x as int)) by {}
        }
        j += 1;
    }
    let order = rank_descending(&scores, false);
    let mut kids: Vec<usize> = Vec::new();
    let mut k: usize = 0;
    while k < order.len()
        invariant
            k <= order.len(),
            is_ranking(scores@, false, order@),
            candidates@.len() == scores@.len(),
            kids@.len() == k,
            forall|a: int| 0 <= a < k ==> kids@[a] == candidates@[order@[a] as int],
        decreases order.len() - k,
    {
        kids.push(candidates[order[k]]);
        k += 1;
    }
    proof {
        assert forall|a: int| 0 <= a < kids@.len() implies (#[trigger] kids@[a]) < v.n by {}
        assert forall|a: int, b: int| 0 <= a < b < kids@.len() implies child_before(
            v,
            parent as int,
            kids@[a] as int,
            kids@[b] as int,
        ) && kids@[a] != kids@[b] by {
            let x = order@[a] as int;
            let y = order@[b] as int;
            assert(crate::ranking::ranks_before(scores@, false, x, y));
        }
        assert forall|x: usize| x < v.n implies (#[trigger] kids@.contains(x) <==> is_child(
            v,
            flags,
            parent as int,
            x as int,
        )) by {
            if candidates@.contains(x) {
                let c = choose|c: int| 0 <= c < candidates@.len() && candidates@[c] == x;
                lemma_permutation_onto(order@, scores@.len(), c as usize);
                let a = choose|a: int| 0 <= a < order@.len() && order@[a] == c as usize;
                assert(kids@[a] == x);
            }
        }
    }
    kids
}

/// Copies the blocks of `solution` into a vector, front first.
fn into_order(solution: &VecDeque<usize>) -> (order: Vec<usize>)
    ensures
        order@ == solution@,
{
    let mut order: Vec<usize> = Vec::new();
    let mut i: usize = 0;
    while i < solution.len()
        invariant
            i <= solution@.len(),
            order@.len() == i,
            forall|k: int| 0 <= k < i ==> order@[k] == solution@[k],
        decreases solution@.len() - i,
    {
        order.push(solution[i]);
        i += 1;
    }
    order
}

/// Builds one block order of `problem` and returns it with its fitness.
///
/// While blocks are left, a parent is drawn among them with a weight that is
/// the square of the entry the interaction ranking holds for it, and put at
/// one end of the order; then its children are drawn one by one, the better
/// scored with the higher weight, and put at alternating ends. Where every
/// block that is left has weight zero, the first of them is taken.
pub fn construct_solution(problem: &CoProblem) -> (built: (Vec<usize>, u64))
    requires
        problem@.wf(),
        problem.n <= MAX_BLOCKS,
    ensures
        is_permutation(built.0@, problem@.n),
        built.1 as int == saturate(problem@.fitness(built.0@)),
{
    let n = problem.n;
    let total = problem.size_sum();
    let rank = rank_by_interaction(problem);
    let mut solution: VecDeque<usize> = VecDeque::new();
    let mut selected = no_flags(n);
    let mut push_front = false;
    while solution.len() < n
        invariant
            n == problem.n,
            n <= MAX_BLOCKS,
            problem@.wf(),
            total == total_size(problem@.s),
            is_ranking(interaction_keys(problem@), false, rank@),
            placed(solution@, selected@, n as nat),
            solution@.len() <= n,
        decreases n - solution@.len(),
    {
        let ghost length = solution@.len();
        let weights = parent_weights(&rank, &selected);
        let parent = match choose_weighted(&weights) {
            Some(parent) => parent,
            None => {
                proof {
                    lemma_room_left(solution@, n as nat);
                }
                first_unselected(&selected)
            },
        };
        place(&mut solution, &mut selected, parent, push_front);
        push_front = !push_front;
        proof {
            lemma_length_bounded(solution@, n as nat);
        }
        let kids = children_of(problem, parent, &selected, total);
        proof {
            lemma_length_bounded(kids@, n as nat);
            assert forall|i: int| 0 <= i < kids@.len() implies !selected@[kids@[i] as int] by {
                assert(kids@.contains(kids@[i]));
            }
        }
        let mut kid_weights = position_weights(kids.len());
        let mut left = kids.len();
        while left > 0
            invariant
                n == problem.n,
                n <= MAX_BLOCKS,
                placed(solution@, selected@, n as nat),
                length < solution@.len() <= n,
                in_range(kids@, n as nat),
                distinct(kids@),
                kids@.len() <= n,
                kid_weights@.len() == kids@.len(),
                forall|i: int|
                    0 <= i < kids@.len() ==> (#[trigger] kid_weights@[i]) <= kids@.len()
                        * kids@.len(),
                forall|i: int|
                    0 <= i < kids@.len() && kid_weights@[i] > 0 ==> !selected@[kids@[i] as int],
            decreases left,
        {
            proof {
                let count = kids@.len();
                lemma_weight_sum_bounded(kid_weights@, count * count);
                assert(count * (count * count) <= u64::MAX) by (nonlinear_arith)
                    requires
                        0 <= count <= 2_097_151,
                ;
            }
            match choose_weighted(&kid_weights) {
                Some(at) => {
                    let child = kids[at];
                    place(&mut solution, &mut selected, child, push_front);
                    push_front = !push_front;
                    kid_weights[at] = 0;
                    proof {
                        lemma_length_bounded(solution@, n as nat);
                    }
                },
                None => {},
            }
            left -= 1;
        }
    }
    let order = into_order(&solution);
    let fitness = problem.eval(order.as_slice());
    (order, fitness)
}

} // verus!

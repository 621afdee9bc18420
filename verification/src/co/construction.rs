//! Building an arrangement problem from a function's control-flow graph:
//! profiled branch weights fill the interaction matrix, and branches without
//! a profile get the flow that enters their source block.

use vstd::prelude::*;
use crate::profdata::Function;
use super::problem::{saturate, CoProblem, ProblemView};

verus! {

/// The weight that a block with successors `targets` and weights `w`, one per
/// successor, gives to the edge towards `j`: that of the last successor equal
/// to `j`, and zero if `j` is no successor.
pub open spec fn assigned_weight(targets: Seq<usize>, w: Seq<u64>, j: int) -> u64
    decreases targets.len(),
{
    if targets.len() == 0 {
        0
    } else if targets.last() == j {
        w[targets.len() - 1]
    } else {
        assigned_weight(targets.drop_last(), w, j)
    }
}

/// The edges from block `i` to each of `targets`, in order.
pub open spec fn edges_from(i: usize, targets: Seq<usize>) -> Seq<(usize, usize)> {
    targets.map_values(|j: usize| (i, j))
}

/// `missing` without the first occurrence of `e`.
pub open spec fn remove_first(missing: Seq<(usize, usize)>, e: (usize, usize)) -> Seq<
    (usize, usize),
> {
    match missing.index_of_first(e) {
        Some(i) => missing.remove(i),
        None => missing,
    }
}

/// The flow that enters block `x`, and the missing edges that remain.
///
/// Each block that branches to `x` contributes: through an edge that is still
/// missing, the flow that enters that block in turn, one level deeper, after
/// which the edge counts as resolved; through any other edge, its weight in
/// `c`. Beyond `max` levels the flow counts as zero.
pub open spec fn imputed_weight(
    c: Seq<Seq<u64>>,
    tree: Seq<Seq<usize>>,
    missing: Seq<(usize, usize)>,
    x: usize,
    depth: nat,
    max: nat,
) -> (nat, Seq<(usize, usize)>)
    decreases max + 1 - depth, tree.len() + 1,
{
    if depth > max {
        (0, missing)
    } else {
        parents_sum(c, tree, missing, x, depth, max, tree.len())
    }
}

/// The part of [`imputed_weight`] that the blocks below `upto` contribute.
pub open spec fn parents_sum(
    c: Seq<Seq<u64>>,
    tree: Seq<Seq<usize>>,
    missing: Seq<(usize, usize)>,
    x: usize,
    depth: nat,
    max: nat,
    upto: nat,
) -> (nat, Seq<(usize, usize)>)
    decreases max + 1 - depth, upto,
{
    if upto == 0 || depth > max {
        (0, missing)
    } else {
        let before = parents_sum(c, tree, missing, x, depth, max, (upto - 1) as nat);
        let p = (upto - 1) as usize;
        if !tree[p as int].contains(x) {
            before
        } else if before.1.contains((p, x)) {
            let inner = imputed_weight(c, tree, before.1, p, depth + 1, max);
            (before.0 + inner.0, remove_first(inner.1, (p, x)))
        } else {
            (before.0 + c[p as int][x as int] as nat, before.1)
        }
    }
}

/// The matrix and the missing edges after the first `k` edges of `pending`
/// have been given their imputed weight, one after the other.
pub open spec fn imputation(
    c: Seq<Seq<u64>>,
    tree: Seq<Seq<usize>>,
    pending: Seq<(usize, usize)>,
    k: nat,
) -> (Seq<Seq<u64>>, Seq<(usize, usize)>)
    decreases k,
{
    if k == 0 {
        (c, pending)
    } else {
        let before = imputation(c, tree, pending, (k - 1) as nat);
        let edge = pending[k - 1];
        let flow = imputed_weight(before.0, tree, before.1, edge.0, 0, tree.len());
        (
            before.0.update(
                edge.0 as int,
                before.0[edge.0 as int].update(edge.1 as int, saturate(flow.0 as int) as u64),
            ),
            flow.1,
        )
    }
}

impl Function {
    /// The weights of block `i`: those of its `branch_weights` annotation if
    /// it has one with exactly one weight per successor.
    pub open spec fn weights(&self, i: int) -> Option<Seq<u64>> {
        match self.bb_terminator_md@[i] {
            Some(md) => match md.spec_branch_weights() {
                Some(w) => if w.len() == self.successors()[i].len() {
                    Some(w)
                } else {
                    None
                },
                None => None,
            },
            None => None,
        }
    }

    /// Row `i` of the matrix that holds the profiled weights and zero elsewhere.
    pub open spec fn profiled_row(&self, i: int) -> Seq<u64> {
        Seq::new(
            self.num_bbs as nat,
            |j: int|
                match self.weights(i) {
                    Some(w) => assigned_weight(self.successors()[i], w, j),
                    None => 0,
                },
        )
    }

    /// The matrix over all blocks that holds the profiled weights.
    pub open spec fn profiled_matrix(&self) -> Seq<Seq<u64>> {
        Seq::new(self.num_bbs as nat, |i: int| self.profiled_row(i))
    }

    /// The edges of the blocks below `upto` that have no weights, by block
    /// and then by position in the successor list.
    pub open spec fn missing_edges(&self, upto: int) -> Seq<(usize, usize)>
        decreases upto,
    {
        if upto <= 0 {
            Seq::empty()
        } else if self.weights(upto - 1) is None {
            self.missing_edges(upto - 1) + edges_from(
                (upto - 1) as usize,
                self.successors()[upto - 1],
            )
        } else {
            self.missing_edges(upto - 1)
        }
    }

    /// The matrix over all blocks, with every missing edge imputed.
    pub open spec fn full_matrix(&self) -> Seq<Seq<u64>> {
        let pending = self.missing_edges(self.num_bbs as int);
        imputation(self.profiled_matrix(), self.successors(), pending, pending.len()).0
    }

    /// The arrangement problem of the function: the full matrix without the
    /// entry block's row and column, and the sizes of the other blocks.
    pub open spec fn problem(&self) -> ProblemView {
        let n = (self.num_bbs - 1) as nat;
        ProblemView {
            c: Seq::new(n, |i: int| Seq::new(n, |j: int| self.full_matrix()[i + 1][j + 1])),
            s: self.bbs_num_instrs@.skip(1),
            n,
        }
    }
}

/// The matrix `c` has `side` rows of `side` entries.
pub open spec fn is_square(c: Seq<Seq<u64>>, side: nat) -> bool {
    &&& c.len() == side
    &&& forall|i: int| 0 <= i < c.len() ==> (#[trigger] c[i]).len() == side
}

/// Every successor in `tree` is one of its blocks.
pub open spec fn is_closed(tree: Seq<Seq<usize>>) -> bool {
    forall|i: int, k: int|
        0 <= i < tree.len() && 0 <= k < tree[i].len() ==> #[trigger] tree[i][k] < tree.len()
}

/// The rows of `c` as sequences.
pub open spec fn rows_of(c: Vec<Vec<u64>>) -> Seq<Seq<u64>> {
    c@.map_values(|row: Vec<u64>| row@)
}

/// The successor lists of `tree` as sequences.
pub open spec fn lists_of(tree: Vec<Vec<usize>>) -> Seq<Seq<usize>> {
    tree@.map_values(|targets: Vec<usize>| targets@)
}

/// Tells whether `x` is among `targets`.
fn has_target(targets: &Vec<usize>, x: usize) -> (found: bool)
    ensures
        found == targets@.contains(x),
{
    let mut k: usize = 0;
    while k < targets.len()
        invariant
            k <= targets.len(),
            forall|i: int| 0 <= i < k ==> targets@[i] != x,
        decreases targets.len() - k,
    {
        if targets[k] == x {
            return true;
        }
        k += 1;
    }
    false
}

/// Finds the first position of `e` in `edges`.
fn find_edge(edges: &Vec<(usize, usize)>, e: (usize, usize)) -> (at: Option<usize>)
    ensures
        match at {
            Some(k) => edges@.index_of_first(e) == Some(k as int),
            None => edges@.index_of_first(e) is None,
        },
{
    let mut k: usize = 0;
    while k < edges.len()
        invariant
            k <= edges.len(),
            forall|i: int| 0 <= i < k ==> edges@[i] != e,
        decreases edges.len() - k,
    {
        if edges[k].0 == e.0 && edges[k].1 == e.1 {
            proof {
                edges@.index_of_first_ensures(e);
            }
            return Some(k);
        }
        k += 1;
    }
    proof {
        edges@.index_of_first_ensures(e);
    }
    None
}

impl CoProblem {
    /// Estimates the weight of a branch that leaves block `br_from` without a
    /// profile as the flow that enters `br_from`.
    ///
    /// Missing edges into `br_from` are estimated in turn, up to
    /// `max_recursion` levels deep, and leave `missing_branches` once they have
    /// been used. The sum stops at the largest `u64`.
    pub fn fill_missing_branch_weights(
        c: &Vec<Vec<u64>>,
        br_from: usize,
        missing_branches: &mut Vec<(usize, usize)>,
        branch_tree: &Vec<Vec<usize>>,
        recursion_depth: usize,
        max_recursion: usize,
    ) -> (flow: u64)
        requires
            is_square(rows_of(*c), branch_tree@.len()),
            is_closed(lists_of(*branch_tree)),
        ensures
            flow as int == saturate(
                imputed_weight(
                    rows_of(*c),
                    lists_of(*branch_tree),
                    old(missing_branches)@,
                    br_from,
                    recursion_depth as nat,
                    max_recursion as nat,
                ).0 as int,
            ),
            final(missing_branches)@ == imputed_weight(
                rows_of(*c),
                lists_of(*branch_tree),
                old(missing_branches)@,
                br_from,
                recursion_depth as nat,
                max_recursion as nat,
            ).1,
        decreases max_recursion + 1 - recursion_depth,
    {
        if recursion_depth > max_recursion {
            return 0;
        }
        let ghost cv = rows_of(*c);
        let ghost tv = lists_of(*branch_tree);
        let ghost start = missing_branches@;
        let ghost depth = recursion_depth as nat;
        let ghost max = max_recursion as nat;
        let mut sum: u64 = 0;
        let mut parent: usize = 0;
        while parent < branch_tree.len()
            invariant
                parent <= branch_tree.len(),
                recursion_depth <= max_recursion,
                cv == rows_of(*c),
                tv == lists_of(*branch_tree),
                depth == recursion_depth as nat,
                max == max_recursion as nat,
                is_square(cv, tv.len()),
                is_closed(tv),
                sum as int == saturate(
                    parents_sum(cv, tv, start, br_from, depth, max, parent as nat).0 as int,
                ),
                missing_branches@ == parents_sum(
                    cv,
                    tv,
                    start,
                    br_from,
                    depth,
                    max,
                    parent as nat,
                ).1,
            decreases branch_tree.len() - parent,
        {
            let ghost before = parents_sum(cv, tv, start, br_from, depth, max, parent as nat);
            let ghost after = parents_sum(cv, tv, start, br_from, depth, max, (parent + 1) as nat);
            if has_target(&branch_tree[parent], br_from) {
                let edge = (parent, br_from);
                match find_edge(missing_branches, edge) {
                    Some(_) => {
                        proof {
                            before.1.index_of_first_ensures(edge);
                        }
                        let inner = if recursion_depth < max_recursion {
                            Self::fill_missing_branch_weights(
                                c,
                                parent,
                                missing_branches,
                                branch_tree,
                                recursion_depth + 1,
                                max_recursion,
                            )
                        } else {
                            0
                        };
                        let ghost deeper = imputed_weight(
                            cv,
                            tv,
                            before.1,
                            parent,
                            depth + 1,
                            max,
                        );
                        sum = sum.saturating_add(inner);
                        match find_edge(missing_branches, edge) {
                            Some(at) => {
                                proof {
                                    missing_branches@.index_of_first_ensures(edge);
                                }
                                missing_branches.remove(at);
                            },
                            None => {},
                        }
                    },
                    None => {
                        proof {
                            before.1.index_of_first_ensures(edge);
                            let k = choose|k: int|
                                0 <= k < tv[parent as int].len() && tv[parent as int][k] == br_from;
                        }
                        sum = sum.saturating_add(c[parent][br_from]);
                    },
                }
            }
            parent += 1;
        }
        sum
    }
}

/// A row of `len` zeros.
fn zero_row(len: usize) -> (row: Vec<u64>)
    ensures
        row@ == Seq::new(len as nat, |j: int| 0u64),
{
    let mut row: Vec<u64> = Vec::new();
    let mut j: usize = 0;
    while j < len
        invariant
            j <= len,
            row@.len() == j,
            forall|k: int| 0 <= k < j ==> row@[k] == 0,
        decreases len - j,
    {
        row.push(0);
        j += 1;
    }
    row
}

impl Function {
    /// Decodes the weights of block `i`, one per successor.
    fn block_weights(&self, i: usize) -> (r: Option<Vec<u64>>)
        requires
            self.wf(),
            i < self.num_bbs,
        ensures
            match r {
                Some(w) => self.weights(i as int) == Some(w@),
                None => self.weights(i as int) is None,
            },
    {
        match &self.bb_terminator_md[i] {
            Some(md) => match md.branch_weights() {
                Some(w) => if w.len() == self.bbs_branch_tree[i].len() {
                    Some(w)
                } else {
                    None
                },
                None => None,
            },
            None => None,
        }
    }

    /// Builds row `i` of the profiled matrix from the weights `w` of block `i`.
    fn weighted_row(&self, i: usize, w: &Vec<u64>) -> (row: Vec<u64>)
        requires
            self.wf(),
            i < self.num_bbs,
            self.weights(i as int) == Some(w@),
        ensures
            row@ == self.profiled_row(i as int),
    {
        let targets = &self.bbs_branch_tree[i];
        let ghost succ = self.successors()[i as int];
        let mut row = zero_row(self.num_bbs);
        let mut k: usize = 0;
        while k < targets.len()
            invariant
                k <= targets.len(),
                succ == targets@,
                succ == self.successors()[i as int],
                i < self.num_bbs,
                self.wf(),
                w@.len() == targets@.len(),
                row@.len() == self.num_bbs,
                forall|j: int|
                    0 <= j < row@.len() ==> row@[j] == assigned_weight(
                        succ.take(k as int),
                        w@,
                        j,
                    ),
            decreases targets.len() - k,
        {
            let target = targets[k];
            row[target] = w[k];
            proof {
                assert(succ.take(k + 1).drop_last() =~= succ.take(k as int));
            }
            k += 1;
        }
        assert(succ.take(k as int) =~= succ);
        row
    }
}

impl CoProblem {
    /// Builds the arrangement problem of `function`.
    ///
    /// Returns `None` if the entry block has no successors: there is nothing
    /// to reorder. Otherwise the matrix takes the profiled branch weights,
    /// every branch without a profile gets its imputed weight, in block order,
    /// and the entry block is left out of the matrix and of the sizes.
    pub fn block_reordering_from(function: &Function) -> (r: Option<Self>)
        requires
            function.wf(),
        ensures
            r is None <==> function.successors()[0].len() == 0,
            match r {
                Some(problem) => problem@ == function.problem() && problem@.wf(),
                None => true,
            },
    {
        if function.bbs_branch_tree[0].len() == 0 {
            return None;
        }
        let num_blocks = function.num_bbs;
        let ghost tree = function.successors();
        let mut c: Vec<Vec<u64>> = Vec::new();
        let mut no_md_branches: Vec<(usize, usize)> = Vec::new();
        let mut pending: Vec<(usize, usize)> = Vec::new();
        let mut i: usize = 0;
        while i < num_blocks
            invariant
                i <= num_blocks,
                num_blocks == function.num_bbs,
                function.wf(),
                tree == function.successors(),
                c@.len() == i,
                forall|a: int| 0 <= a < i ==> (#[trigger] c@[a])@ == function.profiled_row(a),
                no_md_branches@ == function.missing_edges(i as int),
                pending@ == no_md_branches@,
                forall|k: int|
                    0 <= k < pending@.len() ==> (#[trigger] pending@[k]).0 < num_blocks
                        && pending@[k].1 < num_blocks,
            decreases num_blocks - i,
        {
            match function.block_weights(i) {
                Some(w) => {
                    let row = function.weighted_row(i, &w);
                    c.push(row);
                },
                None => {
                    let targets = &function.bbs_branch_tree[i];
                    let mut k: usize = 0;
                    while k < targets.len()
                        invariant
                            k <= targets.len(),
                            i < num_blocks,
                            num_blocks == function.num_bbs,
                            function.wf(),
                            tree == function.successors(),
                            tree[i as int] == targets@,
                            no_md_branches@ == function.missing_edges(i as int) + edges_from(
                                i,
                                targets@.take(k as int),
                            ),
                            pending@ == no_md_branches@,
                            forall|k: int|
                                0 <= k < pending@.len() ==> (#[trigger] pending@[k]).0
                                    < num_blocks && pending@[k].1 < num_blocks,
                        decreases targets.len() - k,
                    {
                        let target = targets[k];
                        no_md_branches.push((i, target));
                        pending.push((i, target));
                        assert(edges_from(i, targets@.take(k + 1)) =~= edges_from(
                            i,
                            targets@.take(k as int),
                        ).push((i, target)));
                        k += 1;
                    }
                    let row = zero_row(num_blocks);
                    c.push(row);
                },
            }
            i += 1;
        }
        let ghost profiled = function.profiled_matrix();
        let ghost edges = pending@;
        let mut k: usize = 0;
        while k < pending.len()
            invariant
                k <= pending.len(),
                num_blocks == function.num_bbs,
                function.wf(),
                tree == function.successors(),
                tree == lists_of(function.bbs_branch_tree),
                edges == pending@,
                is_square(rows_of(c), num_blocks as nat),
                forall|k: int|
                    0 <= k < pending@.len() ==> (#[trigger] pending@[k]).0 < num_blocks
                        && pending@[k].1 < num_blocks,
                (rows_of(c), no_md_branches@) == imputation(profiled, tree, edges, k as nat),
            decreases pending.len() - k,
        {
            let (br_from, br_to) = pending[k];
            let ghost before = rows_of(c);
            let flow = Self::fill_missing_branch_weights(
                &c,
                br_from,
                &mut no_md_branches,
                &function.bbs_branch_tree,
                0,
                num_blocks,
            );
            assert(before[br_from as int] == c@[br_from as int]@);
            c[br_from][br_to] = flow;
            assert(rows_of(c) =~= before.update(
                br_from as int,
                before[br_from as int].update(br_to as int, flow),
            ));
            k += 1;
        }
        let ghost full = rows_of(c);
        let n = num_blocks - 1;
        let mut s: Vec<usize> = Vec::new();
        let mut reduced: Vec<Vec<u64>> = Vec::new();
        let mut a: usize = 1;
        while a < num_blocks
            invariant
                1 <= a <= num_blocks,
                n == num_blocks - 1,
                num_blocks == function.num_bbs,
                function.wf(),
                full == rows_of(c),
                is_square(full, num_blocks as nat),
                s@.len() == a - 1,
                reduced@.len() == a - 1,
                forall|i: int| 0 <= i < a - 1 ==> s@[i] == function.bbs_num_instrs@[i + 1],
                forall|i: int|
                    0 <= i < a - 1 ==> (#[trigger] reduced@[i])@ == Seq::new(
                        n as nat,
                        |j: int| full[i + 1][j + 1],
                    ),
            decreases num_blocks - a,
        {
            let source = &c[a];
            assert(source@ == full[a as int]);
            let mut row: Vec<u64> = Vec::new();
            let mut b: usize = 1;
            while b < num_blocks
                invariant
                    1 <= b <= num_blocks,
                    source@.len() == num_blocks,
                    row@.len() == b - 1,
                    forall|j: int| 0 <= j < b - 1 ==> row@[j] == source@[j + 1],
                decreases num_blocks - b,
            {
                row.push(source[b]);
                b += 1;
            }
            reduced.push(row);
            s.push(function.bbs_num_instrs[a]);
            a += 1;
        }
        let problem = CoProblem { c: reduced, s, n };
        assert(problem@.s =~= function.problem().s);
        assert(problem@.c =~= function.problem().c);
        Some(problem)
    }
}

} // verus!

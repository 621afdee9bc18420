//! Permutations of `0..n`, the solution space of the arrangement problem.

use vstd::prelude::*;
use vstd::seq_lib::{
    lemma_sorted_unique, seq_to_set_is_finite, to_multiset_contains, to_multiset_len,
};
use vstd::set_lib::{lemma_len_subset, lemma_subset_equality};

verus! {

/// The sequence `0, 1, ..., n - 1`.
pub open spec fn identity_seq(n: nat) -> Seq<usize> {
    Seq::new(n, |i: int| i as usize)
}

/// Every entry of `p` is below `n`.
pub open spec fn in_range(p: Seq<usize>, n: nat) -> bool {
    forall|i: int| 0 <= i < p.len() ==> (#[trigger] p[i]) < n
}

/// No value occurs at two positions of `p`.
pub open spec fn distinct(p: Seq<usize>) -> bool {
    forall|i: int, j: int| 0 <= i < j < p.len() ==> p[i] != p[j]
}

/// `p` holds each value of `0..n` exactly once.
pub open spec fn is_permutation(p: Seq<usize>, n: nat) -> bool {
    &&& p.len() == n
    &&& in_range(p, n)
    &&& distinct(p)
}

/// Builds the identity permutation of `0..n`.
pub fn identity(n: usize) -> (p: Vec<usize>)
    ensures
        p@ == identity_seq(n as nat),
        is_permutation(p@, n as nat),
{
    let mut p: Vec<usize> = Vec::new();
    let mut i: usize = 0;
    while i < n
        invariant
            i <= n,
            p@.len() == i,
            forall|k: int| 0 <= k < i ==> p@[k] == k,
        decreases n - i,
    {
        p.push(i);
        i += 1;
    }
    p
}

/// Tells whether `p` holds each value of `0..n` exactly once.
pub fn check_permutation(p: &[usize], n: usize) -> (ok: bool)
    ensures
        ok == is_permutation(p@, n as nat),
{
    if p.len() != n {
        return false;
    }
    let mut seen = no_flags(n);
    let mut i: usize = 0;
    while i < n
        invariant
            i <= n,
            p@.len() == n,
            seen@.len() == n,
            forall|a: int| 0 <= a < i ==> (#[trigger] p@[a]) < n,
            forall|a: int, b: int| 0 <= a < b < i ==> p@[a] != p@[b],
            forall|v: int|
                0 <= v < n ==> (seen@[v] <==> exists|a: int| 0 <= a < i && p@[a] == v),
        decreases n - i,
    {
        let v = p[i];
        if v >= n {
            return false;
        }
        if seen[v] {
            return false;
        }
        seen[v] = true;
        assert forall|u: int| 0 <= u < n implies (seen@[u] <==> exists|a: int|
            0 <= a < i + 1 && p@[a] == u) by {
            if u == v {
                assert(p@[i as int] == u);
            }
        }
        i += 1;
    }
    true
}

/// Exchanges the values at positions `i` and `j` of `p`.
pub open spec fn swapped(p: Seq<usize>, i: int, j: int) -> Seq<usize> {
    p.update(i, p[j]).update(j, p[i])
}

/// Exchanging two positions of a permutation gives a permutation.
pub proof fn lemma_swap_is_permutation(p: Seq<usize>, n: nat, i: int, j: int)
    requires
        is_permutation(p, n),
        0 <= i < n,
        0 <= j < n,
    ensures
        is_permutation(swapped(p, i, j), n),
{
    let q = swapped(p, i, j);
    assert forall|a: int| 0 <= a < q.len() implies (#[trigger] q[a]) < n by {}
    assert forall|a: int, b: int| 0 <= a < b < q.len() implies q[a] != q[b] by {}
}

/// The identity is a permutation.
pub proof fn lemma_identity_is_permutation(n: nat)
    requires
        n <= usize::MAX,
    ensures
        is_permutation(identity_seq(n), n),
{
}

/// A rearrangement of the identity is a permutation.
pub proof fn lemma_rearranged_identity(p: Seq<usize>, n: nat)
    requires
        n <= usize::MAX,
        p.to_multiset() == identity_seq(n).to_multiset(),
    ensures
        is_permutation(p, n),
{
    broadcast use {to_multiset_len, to_multiset_contains};

    let id = identity_seq(n);
    assert(p.len() == n) by {
        assert(p.to_multiset().len() == p.len());
    }
    assert forall|i: int| 0 <= i < p.len() implies (#[trigger] p[i]) < n by {
        to_multiset_contains(p, p[i]);
        to_multiset_contains(id, p[i]);
    }
    id.lemma_multiset_has_no_duplicates();
    p.lemma_multiset_has_no_duplicates_conv();
    assert forall|i: int, j: int| 0 <= i < j < p.len() implies p[i] != p[j] by {}
}

/// A permutation holds exactly what the identity holds.
pub proof fn lemma_permutation_rearranges_identity(p: Seq<usize>, n: nat)
    requires
        is_permutation(p, n),
        n <= usize::MAX,
    ensures
        p.to_multiset() =~= identity_seq(n).to_multiset(),
{
    broadcast use {to_multiset_contains, seq_to_set_is_finite};

    let id = identity_seq(n);
    assert(p.no_duplicates()) by {
        assert forall|i: int, j: int|
            0 <= i < p.len() && 0 <= j < p.len() && i != j implies p[i] != p[j] by {}
    }
    p.unique_seq_to_set();
    id.unique_seq_to_set();
    assert(p.to_set().subset_of(id.to_set())) by {
        assert forall|v: usize| p.to_set().contains(v) implies id.to_set().contains(v) by {
            assert(id[v as int] == v);
        }
    }
    lemma_subset_equality(p.to_set(), id.to_set());
    p.lemma_multiset_has_no_duplicates();
    id.lemma_multiset_has_no_duplicates();
    assert forall|v: usize| p.to_multiset().count(v) == id.to_multiset().count(v) by {
        assert(p.contains(v) <==> p.to_set().contains(v));
    }
}

/// A permutation of `0..n` holds every value below `n`.
pub proof fn lemma_permutation_onto(p: Seq<usize>, n: nat, v: usize)
    requires
        is_permutation(p, n),
        n <= usize::MAX,
        v < n,
    ensures
        p.contains(v),
{
    let id = identity_seq(n);
    lemma_permutation_rearranges_identity(p, n);
    assert(id[v as int] == v);
    to_multiset_contains(id, v);
    to_multiset_contains(p, v);
}

/// The usual order of block indices.
pub open spec fn index_order() -> spec_fn(usize, usize) -> bool {
    |a: usize, b: usize| a <= b
}

/// Sorting a permutation of `0..n` gives `0, 1, ..., n - 1`.
pub proof fn lemma_permutation_sorts_to_identity(p: Seq<usize>, n: nat)
    requires
        is_permutation(p, n),
        n <= usize::MAX,
    ensures
        p.sort_by(index_order()) == identity_seq(n),
{
    let leq = index_order();
    p.lemma_sort_by_ensures(leq);
    lemma_permutation_rearranges_identity(p, n);
    lemma_sorted_unique(p.sort_by(leq), identity_seq(n), leq);
}

/// `selected` marks exactly the blocks that `solution` holds, and `solution`
/// holds blocks of `0..n`, none of them twice.
pub open spec fn placed(solution: Seq<usize>, selected: Seq<bool>, n: nat) -> bool {
    &&& selected.len() == n
    &&& in_range(solution, n)
    &&& distinct(solution)
    &&& forall|v: usize| v < n ==> (selected[v as int] <==> #[trigger] solution.contains(v))
}

/// Adding an unselected block at either end, and marking it, keeps the
/// marks and the solution in step.
pub proof fn lemma_placed_grows(solution: Seq<usize>, selected: Seq<bool>, n: nat, block: usize)
    requires
        placed(solution, selected, n),
        block < n,
        !selected[block as int],
    ensures
        placed(solution.push(block), selected.update(block as int, true), n),
        placed(seq![block] + solution, selected.update(block as int, true), n),
{
    let marks = selected.update(block as int, true);
    assert(!solution.contains(block));
    let back = solution.push(block);
    assert forall|i: int, j: int| 0 <= i < j < back.len() implies back[i] != back[j] by {}
    assert forall|v: usize| v < n implies (marks[v as int] <==> #[trigger] back.contains(v)) by {
        if v == block {
            assert(back[solution.len() as int] == v);
        } else if solution.contains(v) {
            let i = choose|i: int| 0 <= i < solution.len() && solution[i] == v;
            assert(back[i] == v);
        }
    }
    let front = seq![block] + solution;
    assert forall|i: int| 0 <= i < front.len() implies (#[trigger] front[i]) < n by {}
    assert forall|i: int, j: int| 0 <= i < j < front.len() implies front[i] != front[j] by {}
    assert forall|v: usize| v < n implies (marks[v as int] <==> #[trigger] front.contains(v)) by {
        if v == block {
            assert(front[0] == v);
        } else if solution.contains(v) {
            let i = choose|i: int| 0 <= i < solution.len() && solution[i] == v;
            assert(front[i + 1] == v);
        }
    }
}

/// A solution with fewer than `n` blocks lacks a block of `0..n`.
pub proof fn lemma_room_left(solution: Seq<usize>, n: nat)
    requires
        solution.len() < n,
        n <= usize::MAX,
    ensures
        exists|v: usize| v < n && !solution.contains(v),
{
    if forall|v: usize| v < n ==> solution.contains(v) {
        let id = identity_seq(n);
        id.unique_seq_to_set();
        assert(id.to_set().subset_of(solution.to_set())) by {
            assert forall|x: usize| id.to_set().contains(x) implies solution.to_set().contains(
                x,
            ) by {}
        }
        seq_to_set_is_finite(solution);
        lemma_len_subset(id.to_set(), solution.to_set());
        solution.lemma_cardinality_of_set();
    }
}

/// Distinct blocks of `0..n` are at most `n`.
pub proof fn lemma_length_bounded(q: Seq<usize>, n: nat)
    requires
        in_range(q, n),
        distinct(q),
        n <= usize::MAX,
    ensures
        q.len() <= n,
{
    let id = identity_seq(n);
    assert(q.no_duplicates()) by {
        assert forall|i: int, j: int|
            0 <= i < q.len() && 0 <= j < q.len() && i != j implies q[i] != q[j] by {}
    }
    q.unique_seq_to_set();
    id.unique_seq_to_set();
    assert(q.to_set().subset_of(id.to_set())) by {
        assert forall|x: usize| q.to_set().contains(x) implies id.to_set().contains(x) by {
            assert(id[x as int] == x);
        }
    }
    seq_to_set_is_finite(id);
    lemma_len_subset(q.to_set(), id.to_set());
}

/// `count` flags, all of them down.
pub fn no_flags(count: usize) -> (flags: Vec<bool>)
    ensures
        flags@.len() == count,
        forall|i: int| 0 <= i < count ==> !flags@[i],
{
    let mut flags: Vec<bool> = Vec::new();
    let mut i: usize = 0;
    while i < count
        invariant
            i <= count,
            flags@.len() == i,
            forall|k: int| 0 <= k < i ==> !flags@[k],
        decreases count - i,
    {
        flags.push(false);
        i += 1;
    }
    flags
}

/// Finds the first block that is not selected.
pub fn first_unselected(selected: &Vec<bool>) -> (block: usize)
    requires
        exists|v: int| 0 <= v < selected@.len() && !selected@[v],
    ensures
        block < selected@.len(),
        !selected@[block as int],
        forall|v: int| 0 <= v < block ==> selected@[v],
{
    let mut block: usize = 0;
    while block < selected.len() && selected[block]
        invariant
            block <= selected@.len(),
            forall|v: int| 0 <= v < block ==> selected@[v],
        decreases selected@.len() - block,
    {
        block += 1;
    }
    block
}

} // verus!

//! The arrangement problem of one function: an interaction matrix over its
//! non-entry blocks, their sizes, and the fitness of a block order.

use vstd::prelude::*;
use crate::permutation::{distinct, identity, identity_seq, in_range, is_permutation};

verus! {

/// The largest number of blocks for which the constructive solver's sampling
/// weights, which grow with the cube of the number, are sure to fit.
pub const MAX_BLOCKS: usize = 2_097_151;

/// An arrangement problem over `n` blocks.
///
/// `c[i][j]` is the estimated number of control transfers from block `i` to
/// block `j`, and `s[i]` is the instruction count of block `i`.
#[derive(Debug)]
pub struct CoProblem {
    pub c: Vec<Vec<u64>>,
    pub s: Vec<usize>,
    pub n: usize,
}

/// The mathematical content of a [`CoProblem`].
pub ghost struct ProblemView {
    pub c: Seq<Seq<u64>>,
    pub s: Seq<usize>,
    pub n: nat,
}

/// Sum of all block sizes in `s`.
pub open spec fn total_size(s: Seq<usize>) -> nat
    decreases s.len(),
{
    if s.len() == 0 {
        0
    } else {
        total_size(s.drop_last()) + s.last() as nat
    }
}

/// Sum of the sizes of the blocks named by `q`.
pub open spec fn size_of_blocks(s: Seq<usize>, q: Seq<usize>) -> nat
    decreases q.len(),
{
    if q.len() == 0 {
        0
    } else {
        size_of_blocks(s, q.drop_last()) + s[q.last() as int] as nat
    }
}

impl ProblemView {
    /// The matrix is `n` by `n` and there are `n` sizes.
    pub open spec fn wf(self) -> bool {
        &&& self.c.len() == self.n
        &&& self.s.len() == self.n
        &&& forall|i: int| 0 <= i < self.c.len() ==> (#[trigger] self.c[i]).len() == self.n
    }

    /// Every entry of the matrix is zero.
    pub open spec fn is_zeros(self) -> bool {
        forall|i: int, j: int|
            0 <= i < self.c.len() && 0 <= j < self.c[i].len() ==> self.c[i][j] == 0
    }

    /// Transfers between blocks `a` and `b`, in both directions.
    pub open spec fn interaction(self, a: int, b: int) -> nat {
        self.c[a][b] as nat + self.c[b][a] as nat
    }

    /// Total size of the blocks at positions `i..=j` of the order `p`.
    pub open spec fn span(self, p: Seq<usize>, i: int, j: int) -> nat {
        size_of_blocks(self.s, p.subrange(i, j + 1))
    }

    /// Contribution of the positions `i < j` of the order `p`: their
    /// interaction times the amount of code that lies outside their span.
    pub open spec fn pair_term(self, p: Seq<usize>, i: int, j: int) -> int {
        self.interaction(p[i] as int, p[j] as int) * (total_size(self.s) - self.span(p, i, j))
    }

    /// Sum of `pair_term(p, i, j)` over `i < j < hi`.
    pub open spec fn row_fitness(self, p: Seq<usize>, i: int, hi: int) -> int
        decreases hi - i,
    {
        if hi <= i + 1 {
            0
        } else {
            self.row_fitness(p, i, hi - 1) + self.pair_term(p, i, hi - 1)
        }
    }

    /// Sum of `row_fitness(p, i, n)` over `i < rows`.
    pub open spec fn fitness_of_rows(self, p: Seq<usize>, rows: int) -> int
        decreases rows,
    {
        if rows <= 0 {
            0
        } else {
            self.fitness_of_rows(p, rows - 1) + self.row_fitness(p, rows - 1, self.n as int)
        }
    }

    /// Fitness of the order `p`: the sum over all position pairs `i < j` of
    /// `(c[p[i]][p[j]] + c[p[j]][p[i]]) * (total size - size of p[i..=j])`.
    pub open spec fn fitness(self, p: Seq<usize>) -> int {
        self.fitness_of_rows(p, self.n as int)
    }
}

/// `x` limited to what a `u64` holds.
pub open spec fn saturate(x: int) -> int {
    if x > u64::MAX as int {
        u64::MAX as int
    } else {
        x
    }
}

impl View for CoProblem {
    type V = ProblemView;

    open spec fn view(&self) -> ProblemView {
        ProblemView { c: self.c@.map_values(|row: Vec<u64>| row@), s: self.s@, n: self.n as nat }
    }
}

/// Taking one block out of `q` lowers the summed size by that block's size.
proof fn lemma_size_of_blocks_remove(s: Seq<usize>, q: Seq<usize>, k: int)
    requires
        0 <= k < q.len(),
    ensures
        size_of_blocks(s, q) == size_of_blocks(s, q.remove(k)) + s[q[k] as int] as nat,
    decreases q.len(),
{
    if k == q.len() - 1 {
        assert(q.remove(k) =~= q.drop_last());
    } else {
        lemma_size_of_blocks_remove(s, q.drop_last(), k);
        assert(q.remove(k).drop_last() =~= q.drop_last().remove(k));
    }
}

/// Blocks that all lie below the last one are summed alike with and without it.
proof fn lemma_size_of_blocks_shrink(s: Seq<usize>, q: Seq<usize>)
    requires
        s.len() > 0,
        in_range(q, (s.len() - 1) as nat),
    ensures
        size_of_blocks(s, q) == size_of_blocks(s.drop_last(), q),
    decreases q.len(),
{
    if q.len() > 0 {
        lemma_size_of_blocks_shrink(s, q.drop_last());
    }
}

/// No block weighs more than all blocks together.
pub proof fn lemma_size_within_total(s: Seq<usize>, j: int)
    requires
        0 <= j < s.len(),
    ensures
        s[j] <= total_size(s),
    decreases s.len(),
{
    if j < s.len() - 1 {
        lemma_size_within_total(s.drop_last(), j);
    }
}

/// Distinct blocks never weigh more than all blocks together.
pub proof fn lemma_size_of_blocks_bounded(s: Seq<usize>, q: Seq<usize>)
    requires
        in_range(q, s.len()),
        distinct(q),
    ensures
        size_of_blocks(s, q) <= total_size(s),
    decreases s.len(),
{
    if q.len() > 0 && s.len() == 0 {
        assert(q[0] < 0);
    } else if q.len() > 0 {
        let top = s.len() - 1;
        let rest = s.drop_last();
        if exists|k: int| 0 <= k < q.len() && q[k] == top {
            let k = choose|k: int| 0 <= k < q.len() && q[k] == top;
            let others = q.remove(k);
            assert forall|i: int| 0 <= i < others.len() implies (#[trigger] others[i]) < top by {}
            assert(distinct(others)) by {
                assert forall|i: int, j: int| 0 <= i < j < others.len() implies others[i]
                    != others[j] by {}
            }
            lemma_size_of_blocks_remove(s, q, k);
            lemma_size_of_blocks_shrink(s, others);
            lemma_size_of_blocks_bounded(rest, others);
        } else {
            assert forall|i: int| 0 <= i < q.len() implies (#[trigger] q[i]) < top by {}
            lemma_size_of_blocks_shrink(s, q);
            lemma_size_of_blocks_bounded(rest, q);
        }
    }
}

impl ProblemView {
    /// Within a permutation, no span outweighs the whole.
    pub proof fn lemma_span_bounded(self, p: Seq<usize>, i: int, j: int)
        requires
            self.wf(),
            is_permutation(p, self.n),
            0 <= i <= j < self.n,
        ensures
            self.span(p, i, j) <= total_size(self.s),
    {
        let q = p.subrange(i, j + 1);
        assert(in_range(q, self.s.len())) by {
            assert forall|k: int| 0 <= k < q.len() implies (#[trigger] q[k]) < self.s.len() by {}
        }
        assert(distinct(q)) by {
            assert forall|a: int, b: int| 0 <= a < b < q.len() implies q[a] != q[b] by {}
        }
        lemma_size_of_blocks_bounded(self.s, q);
    }

    /// A span grows by the size of the block at the position it gains.
    pub proof fn lemma_span_step(self, p: Seq<usize>, i: int, j: int)
        requires
            0 <= i <= j,
            j + 1 < p.len(),
        ensures
            self.span(p, i, j + 1) == self.span(p, i, j) + self.s[p[j + 1] as int] as nat,
    {
        assert(p.subrange(i, j + 2).drop_last() =~= p.subrange(i, j + 1));
    }

    /// The span of one position is the size of the block that stands there.
    pub proof fn lemma_span_single(self, p: Seq<usize>, i: int)
        requires
            0 <= i < p.len(),
        ensures
            self.span(p, i, i) == self.s[p[i] as int] as nat,
    {
        assert(p.subrange(i, i + 1).drop_last() =~= Seq::<usize>::empty());
        assert(size_of_blocks(self.s, Seq::<usize>::empty()) == 0);
    }

    /// Every pair of positions of a permutation contributes a non-negative term.
    pub proof fn lemma_pair_term_nonnegative(self, p: Seq<usize>, i: int, j: int)
        requires
            self.wf(),
            is_permutation(p, self.n),
            0 <= i < j < self.n,
        ensures
            self.pair_term(p, i, j) >= 0,
    {
        self.lemma_span_bounded(p, i, j);
        let a = self.interaction(p[i] as int, p[j] as int) as int;
        let b = total_size(self.s) - self.span(p, i, j);
        assert(a * b >= 0) by (nonlinear_arith)
            requires
                a >= 0,
                b >= 0,
        ;
    }

    /// Partial row sums of a permutation are non-negative.
    pub proof fn lemma_row_fitness_nonnegative(self, p: Seq<usize>, i: int, hi: int)
        requires
            self.wf(),
            is_permutation(p, self.n),
            0 <= i,
            hi <= self.n,
        ensures
            self.row_fitness(p, i, hi) >= 0,
        decreases hi - i,
    {
        if hi > i + 1 {
            self.lemma_row_fitness_nonnegative(p, i, hi - 1);
            self.lemma_pair_term_nonnegative(p, i, hi - 1);
        }
    }

    /// Partial fitness sums of a permutation are non-negative.
    pub proof fn lemma_fitness_of_rows_nonnegative(self, p: Seq<usize>, rows: int)
        requires
            self.wf(),
            is_permutation(p, self.n),
            rows <= self.n,
        ensures
            self.fitness_of_rows(p, rows) >= 0,
        decreases rows,
    {
        if rows > 0 {
            self.lemma_fitness_of_rows_nonnegative(p, rows - 1);
            self.lemma_row_fitness_nonnegative(p, rows - 1, self.n as int);
        }
    }
}

impl ProblemView {
    /// `other` has the same sizes as `self` and, between any two blocks, the
    /// same interaction, however it is split over the two directions.
    pub open spec fn same_interactions(self, other: ProblemView) -> bool {
        &&& self.n == other.n
        &&& self.s == other.s
        &&& forall|a: int, b: int|
            0 <= a < self.n && 0 <= b < self.n ==> #[trigger] self.interaction(a, b)
                == other.interaction(a, b)
    }

    /// The problem with every edge turned round.
    pub open spec fn transposed(self) -> ProblemView {
        ProblemView {
            c: Seq::new(self.n, |i: int| Seq::new(self.n, |j: int| self.c[j][i])),
            s: self.s,
            n: self.n,
        }
    }

    /// Rows of two problems with the same interactions sum alike.
    proof fn lemma_row_fitness_symmetric(self, other: ProblemView, p: Seq<usize>, i: int, hi: int)
        requires
            is_permutation(p, self.n),
            self.same_interactions(other),
            0 <= i,
            hi <= self.n,
        ensures
            self.row_fitness(p, i, hi) == other.row_fitness(p, i, hi),
        decreases hi - i,
    {
        if hi > i + 1 {
            self.lemma_row_fitness_symmetric(other, p, i, hi - 1);
            assert(self.interaction(p[i] as int, p[hi - 1] as int) == other.interaction(
                p[i] as int,
                p[hi - 1] as int,
            ));
        }
    }

    /// Fitness uses the matrix only through the sums `c[a][b] + c[b][a]`:
    /// two problems with the same sizes and the same such sums give every
    /// order the same fitness.
    pub proof fn lemma_fitness_symmetric(self, other: ProblemView, p: Seq<usize>)
        requires
            is_permutation(p, self.n),
            self.same_interactions(other),
        ensures
            self.fitness(p) == other.fitness(p),
    {
        self.lemma_fitness_of_rows_symmetric(other, p, self.n as int);
    }

    /// The first rows of two problems with the same interactions sum alike.
    proof fn lemma_fitness_of_rows_symmetric(self, other: ProblemView, p: Seq<usize>, rows: int)
        requires
            is_permutation(p, self.n),
            self.same_interactions(other),
            rows <= self.n,
        ensures
            self.fitness_of_rows(p, rows) == other.fitness_of_rows(p, rows),
        decreases rows,
    {
        if rows > 0 {
            self.lemma_fitness_of_rows_symmetric(other, p, rows - 1);
            self.lemma_row_fitness_symmetric(other, p, rows - 1, self.n as int);
        }
    }

    /// Turning every edge round leaves the fitness of every order as it is.
    pub proof fn lemma_fitness_of_transposed(self, p: Seq<usize>)
        requires
            self.wf(),
            is_permutation(p, self.n),
        ensures
            self.transposed().wf(),
            self.transposed().fitness(p) == self.fitness(p),
    {
        let t = self.transposed();
        assert forall|a: int, b: int|
            0 <= a < self.n && 0 <= b < self.n implies #[trigger] self.interaction(
            a,
            b,
        ) == t.interaction(a, b) by {}
        self.lemma_fitness_symmetric(t, p);
    }
}

/// Adds `interaction * outside` to `f`, stopping at the largest `u64`.
fn accumulate(f: u64, interaction: u128, outside: u128) -> (g: u64)
    ensures
        g as int == saturate(f as int + interaction as int * outside as int),
{
    let limit: u128 = u64::MAX as u128;
    if interaction == 0 || outside == 0 {
        assert(interaction as int * outside as int == 0) by (nonlinear_arith)
            requires
                interaction == 0 || outside == 0,
        ;
        f
    } else if interaction > limit || outside > limit {
        assert(interaction as int * outside as int > u64::MAX as int) by (nonlinear_arith)
            requires
                interaction >= 1,
                outside >= 1,
                interaction > u64::MAX as int || outside > u64::MAX as int,
        ;
        u64::MAX
    } else {
        assert(interaction as int * outside as int <= 0xffff_ffff_ffff_ffff
            * 0xffff_ffff_ffff_ffff) by (nonlinear_arith)
            requires
                0 <= interaction <= 0xffff_ffff_ffff_ffff,
                0 <= outside <= 0xffff_ffff_ffff_ffff,
        ;
        let sum: u128 = f as u128 + interaction * outside;
        if sum > limit {
            u64::MAX
        } else {
            sum as u64
        }
    }
}

impl CoProblem {
    /// Tells whether the matrix is `n` by `n` and there are `n` sizes.
    pub fn is_well_formed(&self) -> (ok: bool)
        ensures
            ok == self@.wf(),
    {
        if self.c.len() != self.n || self.s.len() != self.n {
            return false;
        }
        let mut i: usize = 0;
        while i < self.c.len()
            invariant
                i <= self.c.len(),
                self.c.len() == self.n,
                forall|k: int| 0 <= k < i ==> (#[trigger] self@.c[k]).len() == self.n,
            decreases self.c.len() - i,
        {
            if self.c[i].len() != self.n {
                assert(self@.c[i as int].len() != self.n);
                return false;
            }
            i += 1;
        }
        true
    }

    /// Returns `true` if every entry of the matrix is zero.
    pub fn is_zeros(&self) -> (zero: bool)
        ensures
            zero == self@.is_zeros(),
    {
        let mut i: usize = 0;
        while i < self.c.len()
            invariant
                i <= self.c.len(),
                forall|a: int, b: int|
                    0 <= a < i && 0 <= b < self@.c[a].len() ==> self@.c[a][b] == 0,
            decreases self.c.len() - i,
        {
            let row = &self.c[i];
            let mut j: usize = 0;
            while j < row.len()
                invariant
                    j <= row.len(),
                    i < self.c.len(),
                    row@ == self@.c[i as int],
                    forall|b: int| 0 <= b < j ==> row@[b] == 0,
                decreases row.len() - j,
            {
                if row[j] != 0 {
                    return false;
                }
                j += 1;
            }
            i += 1;
        }
        true
    }

    /// Sum of all block sizes.
    pub(crate) fn size_sum(&self) -> (total: u128)
        ensures
            total == total_size(self.s@),
    {
        let mut total: u128 = 0;
        let mut k: usize = 0;
        while k < self.s.len()
            invariant
                k <= self.s.len(),
                total == total_size(self.s@.subrange(0, k as int)),
                total <= k * usize::MAX,
            decreases self.s.len() - k,
        {
            assert(self.s@.subrange(0, k + 1).drop_last() =~= self.s@.subrange(0, k as int));
            assert(k * usize::MAX + usize::MAX <= 0xffff_ffff_ffff_ffff * 0xffff_ffff_ffff_ffff
                + 0xffff_ffff_ffff_ffff) by (nonlinear_arith)
                requires
                    0 <= k <= 0xffff_ffff_ffff_ffff,
                    0 <= usize::MAX <= 0xffff_ffff_ffff_ffff,
            ;
            total = total + self.s[k] as u128;
            k += 1;
        }
        assert(self.s@.subrange(0, k as int) =~= self.s@);
        total
    }

    /// Fitness of the order in which the blocks stand, the baseline that
    /// the solvers' results are held against.
    pub fn identity_fitness(&self) -> (f: u64)
        requires
            self@.wf(),
        ensures
            f as int == saturate(self@.fitness(identity_seq(self@.n))),
    {
        let order = identity(self.n);
        self.eval(order.as_slice())
    }

    /// Fitness of the block order `solution`; higher is better.
    ///
    /// The sum runs over all pairs of positions `i < j` and adds the
    /// interaction of the two blocks times the amount of code outside the span
    /// `i..=j`. A sum beyond the largest `u64` is reported as that largest value.
    pub fn eval(&self, solution: &[usize]) -> (f: u64)
        requires
            self@.wf(),
            is_permutation(solution@, self.n as nat),
        ensures
            f as int == saturate(self@.fitness(solution@)),
    {
        let n = self.n;
        let total = self.size_sum();
        let ghost v = self@;
        let ghost p = solution@;
        let mut f: u64 = 0;
        let mut i: usize = 0;
        while i < n
            invariant
                i <= n,
                n == self.n,
                v == self@,
                p == solution@,
                v.wf(),
                is_permutation(p, n as nat),
                total == total_size(v.s),
                f as int == saturate(v.fitness_of_rows(p, i as int)),
            decreases n - i,
        {
            let a = solution[i];
            let mut inside: u128 = self.s[a] as u128;
            let mut j: usize = i + 1;
            proof {
                v.lemma_span_single(p, i as int);
                v.lemma_fitness_of_rows_nonnegative(p, i as int);
            }
            while j < n
                invariant
                    i < j <= n,
                    n == self.n,
                    v == self@,
                    p == solution@,
                    v.wf(),
                    is_permutation(p, n as nat),
                    a == p[i as int],
                    total == total_size(v.s),
                    inside == v.span(p, i as int, j - 1),
                    v.fitness_of_rows(p, i as int) >= 0,
                    f as int == saturate(
                        v.fitness_of_rows(p, i as int) + v.row_fitness(p, i as int, j as int),
                    ),
                decreases n - j,
            {
                let b = solution[j];
                proof {
                    v.lemma_span_step(p, i as int, j - 1);
                    v.lemma_span_bounded(p, i as int, j as int);
                    v.lemma_row_fitness_nonnegative(p, i as int, j as int);
                    v.lemma_pair_term_nonnegative(p, i as int, j as int);
                }
                inside = inside + self.s[b] as u128;
                let interaction: u128 = self.c[a][b] as u128 + self.c[b][a] as u128;
                f = accumulate(f, interaction, total - inside);
                j += 1;
            }
            i += 1;
        }
        f
    }
}

} // verus!

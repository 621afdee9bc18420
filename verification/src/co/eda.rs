//! An estimation-of-distribution solver: each generation keeps the better
//! half of a population of block orders, counts which block they put at
//! which position, and draws the other half anew from those counts.

use vstd::prelude::*;
use crate::permutation::{
    first_unselected, identity, is_permutation, lemma_permutation_onto, lemma_placed_grows,
    lemma_rearranged_identity, lemma_room_left, no_flags, placed,
};
use crate::random::{choose_weighted, lemma_weight_sum_bounded, shuffle, weight_sum};
use crate::ranking::{is_ranking, rank_descending, ranks_before};
use super::problem::{saturate, CoProblem, ProblemView};

verus! {

/// A population of block orders.
pub struct Population(pub Vec<Vec<usize>>);

/// The block orders of `individuals` as sequences.
pub open spec fn orders_of(individuals: Vec<Vec<usize>>) -> Seq<Seq<usize>> {
    individuals@.map_values(|s: Vec<usize>| s@)
}

/// The fitness of each of `orders`, as ranking keys.
pub open spec fn fitness_keys(v: ProblemView, orders: Seq<Seq<usize>>) -> Seq<u128> {
    Seq::new(orders.len(), |i: int| saturate(v.fitness(orders[i])) as u128)
}

/// Individual `j` is among `chosen`.
pub open spec fn is_chosen(chosen: Seq<(usize, u64)>, j: int) -> bool {
    exists|m: int| 0 <= m < chosen.len() && (#[trigger] chosen[m]).0 == j
}

/// `chosen` holds the `num_select` individuals that rank first by `keys`
/// (all of them if there are fewer), best first, each with its key.
pub open spec fn is_selection(keys: Seq<u128>, num_select: nat, chosen: Seq<(usize, u64)>) -> bool {
    &&& chosen.len() == if num_select < keys.len() {
        num_select
    } else {
        keys.len()
    }
    &&& forall|k: int|
        0 <= k < chosen.len() ==> (#[trigger] chosen[k]).0 < keys.len() && chosen[k].1
            == keys[chosen[k].0 as int]
    &&& forall|a: int, b: int|
        0 <= a < b < chosen.len() ==> ranks_before(
            keys,
            false,
            chosen[a].0 as int,
            chosen[b].0 as int,
        )
    &&& forall|k: int, j: int|
        0 <= k < chosen.len() && 0 <= j < keys.len() && !#[trigger] is_chosen(chosen, j)
            ==> ranks_before(keys, false, (#[trigger] chosen[k]).0 as int, j)
}

impl Population {
    /// The block orders of the population.
    pub open spec fn orders(&self) -> Seq<Seq<usize>> {
        orders_of(self.0)
    }

    /// Every individual is a permutation of `0..length`.
    pub open spec fn wf(&self, length: nat) -> bool {
        forall|i: int|
            0 <= i < self.orders().len() ==> is_permutation(#[trigger] self.orders()[i], length)
    }

    /// Creates `pop_size` random orders of `length` blocks.
    pub fn init(length: usize, pop_size: usize) -> (pop: Self)
        ensures
            pop.orders().len() == pop_size,
            pop.wf(length as nat),
    {
        let mut individuals: Vec<Vec<usize>> = Vec::new();
        let mut i: usize = 0;
        while i < pop_size
            invariant
                i <= pop_size,
                individuals@.len() == i,
                forall|k: int|
                    0 <= k < i ==> is_permutation(
                        #[trigger] orders_of(individuals)[k],
                        length as nat,
                    ),
            decreases pop_size - i,
        {
            let mut v = identity(length);
            shuffle(&mut v);
            proof {
                lemma_rearranged_identity(v@, length as nat);
            }
            let ghost before = orders_of(individuals);
            individuals.push(v);
            assert forall|k: int| 0 <= k < i + 1 implies is_permutation(
                #[trigger] orders_of(individuals)[k],
                length as nat,
            ) by {
                if k < i {
                    assert(orders_of(individuals)[k] == before[k]);
                }
            }
            i += 1;
        }
        Population(individuals)
    }

    /// Evaluates every individual.
    fn evaluate(&self, problem: &CoProblem) -> (fits: Vec<u64>)
        requires
            problem@.wf(),
            self.wf(problem@.n),
        ensures
            fits@.len() == self.orders().len(),
            forall|i: int|
                0 <= i < fits@.len() ==> fits@[i] as int == saturate(
                    problem@.fitness(#[trigger] self.orders()[i]),
                ),
    {
        let mut fits: Vec<u64> = Vec::new();
        let mut i: usize = 0;
        while i < self.0.len()
            invariant
                i <= self.0.len(),
                problem@.wf(),
                self.wf(problem@.n),
                fits@.len() == i,
                forall|k: int|
                    0 <= k < i ==> fits@[k] as int == saturate(
                        problem@.fitness(#[trigger] self.orders()[k]),
                    ),
            decreases self.0.len() - i,
        {
            assert(is_permutation(self.orders()[i as int], problem@.n));
            fits.push(problem.eval(self.0[i].as_slice()));
            i += 1;
        }
        fits
    }

    /// Returns the lowest fitness in the population, the mean fitness
    /// rounded down, and the highest fitness.
    pub fn stats(&self, problem: &CoProblem) -> (r: (u64, u64, u64))
        requires
            problem@.wf(),
            self.wf(problem@.n),
            self.orders().len() > 0,
        ensures
            ({
                let keys = fitness_keys(problem@, self.orders());
                &&& exists|i: int| 0 <= i < keys.len() && keys[i] == r.0
                &&& exists|i: int| 0 <= i < keys.len() && keys[i] == r.2
                &&& forall|i: int| 0 <= i < keys.len() ==> r.0 <= (#[trigger] keys[i]) <= r.2
                &&& r.1 == key_sum(keys) / keys.len()
            }),
    {
        let fits = self.evaluate(problem);
        let ghost keys = fitness_keys(problem@, self.orders());
        let pop_size = fits.len();
        let mut f_min: u64 = fits[0];
        let mut f_max: u64 = fits[0];
        let mut f_sum: u128 = fits[0] as u128;
        let ghost mut at_min: int = 0;
        let ghost mut at_max: int = 0;
        assert(keys.take(1).drop_last() =~= keys.take(0));
        assert(key_sum(keys.take(0)) == 0);
        let mut i: usize = 1;
        while i < pop_size
            invariant
                1 <= i <= pop_size,
                pop_size == fits@.len(),
                keys.len() == pop_size,
                forall|k: int| 0 <= k < pop_size ==> keys[k] == fits@[k],
                0 <= at_min < i,
                0 <= at_max < i,
                keys[at_min] == f_min,
                keys[at_max] == f_max,
                forall|k: int| 0 <= k < i ==> f_min <= (#[trigger] keys[k]) <= f_max,
                f_sum == key_sum(keys.take(i as int)),
                f_sum <= i * u64::MAX,
            decreases pop_size - i,
        {
            let f = fits[i];
            if f < f_min {
                f_min = f;
                proof {
                    at_min = i as int;
                }
            }
            if f > f_max {
                f_max = f;
                proof {
                    at_max = i as int;
                }
            }
            assert(keys.take(i + 1).drop_last() =~= keys.take(i as int));
            assert(i * u64::MAX + u64::MAX <= 0xffff_ffff_ffff_ffff * 0xffff_ffff_ffff_ffff
                + 0xffff_ffff_ffff_ffff) by (nonlinear_arith)
                requires
                    0 <= i <= 0xffff_ffff_ffff_ffff,
                    u64::MAX == 0xffff_ffff_ffff_ffff,
            ;
            f_sum = f_sum + f as u128;
            i += 1;
        }
        assert(keys.take(i as int) =~= keys);
        let mean = f_sum / (pop_size as u128);
        assert(mean <= u64::MAX) by (nonlinear_arith)
            requires
                f_sum <= pop_size * u64::MAX,
                pop_size > 0,
                mean == f_sum / (pop_size as u128),
        ;
        (f_min, mean as u64, f_max)
    }

    /// Evaluates all individuals and returns the index and fitness of the
    /// `num_select` best, best first; individuals of equal fitness stay in
    /// the order of the population.
    pub fn select_survivors(&self, problem: &CoProblem, num_select: usize) -> (chosen: Vec<
        (usize, u64),
    >)
        requires
            problem@.wf(),
            self.wf(problem@.n),
        ensures
            is_selection(fitness_keys(problem@, self.orders()), num_select as nat, chosen@),
    {
        let fits = self.evaluate(problem);
        let ghost keys = fitness_keys(problem@, self.orders());
        let mut wide: Vec<u128> = Vec::new();
        let mut i: usize = 0;
        while i < fits.len()
            invariant
                i <= fits@.len(),
                wide@.len() == i,
                forall|k: int| 0 <= k < i ==> wide@[k] == fits@[k],
            decreases fits@.len() - i,
        {
            wide.push(fits[i] as u128);
            i += 1;
        }
        assert(wide@ =~= keys);
        let order = rank_descending(&wide, false);
        let count = if num_select < order.len() {
            num_select
        } else {
            order.len()
        };
        let mut chosen: Vec<(usize, u64)> = Vec::new();
        let mut k: usize = 0;
        while k < count
            invariant
                k <= count <= order@.len(),
                order@.len() == fits@.len(),
                is_ranking(keys, false, order@),
                keys.len() == fits@.len(),
                forall|a: int| 0 <= a < keys.len() ==> keys[a] == fits@[a],
                chosen@.len() == k,
                forall|a: int|
                    0 <= a < k ==> (#[trigger] chosen@[a]) == (order@[a], fits@[order@[a] as int]),
            decreases count - k,
        {
            let at = order[k];
            chosen.push((at, fits[at]));
            k += 1;
        }
        proof {
            assert forall|a: int, j: int|
                0 <= a < chosen@.len() && 0 <= j < keys.len() && !#[trigger] is_chosen(
                    chosen@,
                    j,
                ) implies ranks_before(keys, false, (#[trigger] chosen@[a]).0 as int, j) by {
                lemma_permutation_onto(order@, keys.len(), j as usize);
                let m = choose|m: int| 0 <= m < order@.len() && order@[m] == j as usize;
                if m < chosen@.len() {
                    assert(chosen@[m].0 == j);
                }
            }
            assert forall|a: int| 0 <= a < chosen@.len() implies (#[trigger] chosen@[a]).0
                < keys.len() && chosen@[a].1 == keys[chosen@[a].0 as int] by {}
        }
        chosen
    }
}

impl Population {
    /// Lets one generation pass: keeps the `num_select` best individuals
    /// and replaces every other by an order drawn from the model of those
    /// kept. Returns the index and fitness of those kept, best first.
    pub fn evolve(&mut self, problem: &CoProblem, num_select: usize) -> (chosen: Vec<(usize, u64)>)
        requires
            problem@.wf(),
            old(self).wf(problem@.n),
            old(self).orders().len() > 0,
            num_select > 0,
        ensures
            is_selection(
                fitness_keys(problem@, old(self).orders()),
                num_select as nat,
                chosen@,
            ),
            final(self).orders().len() == old(self).orders().len(),
            final(self).wf(problem@.n),
            forall|j: usize|
                j < old(self).orders().len() && is_chosen(chosen@, j as int)
                    ==> #[trigger] final(self).orders()[j as int] == old(self).orders()[j as int],
            forall|j: usize|
                j < old(self).orders().len() && !is_chosen(chosen@, j as int) ==> is_drawn_from(
                    model_of(survivors_of(old(self).orders(), chosen@), problem@.n),
                    #[trigger] final(self).orders()[j as int],
                ),
    {
        let ghost n = problem@.n;
        let ghost start = self.orders();
        let ghost keys = fitness_keys(problem@, start);
        let chosen = self.select_survivors(problem, num_select);
        let worsts_index = worsts_of(&chosen, self.0.len());
        let mut bests: Vec<&Vec<usize>> = Vec::new();
        let mut k: usize = 0;
        while k < chosen.len()
            invariant
                k <= chosen@.len(),
                start == self.orders(),
                self.wf(n),
                is_selection(keys, num_select as nat, chosen@),
                keys.len() == start.len(),
                bests@.len() == k,
                forall|a: int| 0 <= a < k ==> (#[trigger] bests@[a])@ == start[chosen@[a].0 as int],
            decreases chosen@.len() - k,
        {
            let idx = chosen[k].0;
            bests.push(&self.0[idx]);
            k += 1;
        }
        proof {
            assert(bests@.map_values(|s: &Vec<usize>| s@) =~= survivors_of(start, chosen@));
            assert forall|a: int| 0 <= a < bests@.len() implies is_permutation(
                (#[trigger] bests@[a])@,
                n,
            ) by {}
        }
        let distrib = Umd::from(&bests);
        distrib.sample_and_replace(self, worsts_index.as_slice());
        chosen
    }
}

/// Sum of `keys`.
pub open spec fn key_sum(keys: Seq<u128>) -> nat
    decreases keys.len(),
{
    if keys.len() == 0 {
        0
    } else {
        key_sum(keys.drop_last()) + keys.last() as nat
    }
}

/// The univariate marginal model of a set of block orders: how many of them
/// hold which block at which position.
pub struct Umd(pub Vec<Vec<usize>>);

/// The number of `orders` that hold `value` at `position`.
pub open spec fn occurrences(orders: Seq<Seq<usize>>, position: int, value: int) -> nat
    decreases orders.len(),
{
    if orders.len() == 0 {
        0
    } else {
        occurrences(orders.drop_last(), position, value) + if orders.last()[position] == value {
            1nat
        } else {
            0nat
        }
    }
}

/// Sum of the counts in `row`.
pub open spec fn count_sum(row: Seq<usize>) -> nat
    decreases row.len(),
{
    if row.len() == 0 {
        0
    } else {
        count_sum(row.drop_last()) + row.last() as nat
    }
}

/// Some block that is not yet placed has a positive count in `row`.
pub open spec fn has_support(row: Seq<usize>, is_placed: Seq<bool>) -> bool {
    exists|v: int| 0 <= v < row.len() && !is_placed[v] && #[trigger] row[v] > 0
}

/// The sampling weight of block `v` where the model counts `row` and
/// `is_placed` marks the blocks that the order under construction holds:
/// zero for a placed block; else its count, or one where no block that is
/// left has a positive count.
pub open spec fn sampling_weight(row: Seq<usize>, is_placed: Seq<bool>, v: int) -> int {
    if is_placed[v] {
        0
    } else if has_support(row, is_placed) {
        row[v] as int
    } else {
        1
    }
}

/// The individuals of `orders` that `chosen` names, in the order of `chosen`.
pub open spec fn survivors_of(orders: Seq<Seq<usize>>, chosen: Seq<(usize, u64)>) -> Seq<
    Seq<usize>,
> {
    Seq::new(chosen.len(), |k: int| orders[chosen[k].0 as int])
}

/// The model of `survivors`, orders of `n` blocks: for each position and
/// block, how many of them hold the block at the position.
pub open spec fn model_of(survivors: Seq<Seq<usize>>, n: nat) -> Seq<Seq<usize>> {
    Seq::new(n, |p: int| Seq::new(n, |v: int| occurrences(survivors, p, v) as usize))
}

/// For each block of `0..n`, whether `prefix` holds it.
pub open spec fn marks_of(prefix: Seq<usize>, n: nat) -> Seq<bool> {
    Seq::new(n, |v: int| prefix.contains(v as usize))
}

/// `order` can be drawn from the model `counts`: it is a permutation, and
/// at each position it holds a block whose sampling weight was positive
/// given the blocks before it.
pub open spec fn is_drawn_from(counts: Seq<Seq<usize>>, order: Seq<usize>) -> bool {
    &&& is_permutation(order, counts.len())
    &&& forall|p: int|
        0 <= p < order.len() ==> sampling_weight(
            counts[p],
            marks_of(order.take(p), counts.len()),
            #[trigger] order[p] as int,
        ) > 0
}

/// Changing one count changes the sum by as much.
proof fn lemma_count_sum_update(row: Seq<usize>, v: int, count: usize)
    requires
        0 <= v < row.len(),
    ensures
        count_sum(row.update(v, count)) == count_sum(row) - row[v] + count,
        row[v] <= count_sum(row),
    decreases row.len(),
{
    if v == row.len() - 1 {
        assert(row.update(v, count).drop_last() =~= row.drop_last());
    } else {
        lemma_count_sum_update(row.drop_last(), v, count);
        assert(row.update(v, count).drop_last() =~= row.drop_last().update(v, count));
    }
}

/// A row of zeros sums to zero.
proof fn lemma_count_sum_zero(row: Seq<usize>)
    requires
        forall|v: int| 0 <= v < row.len() ==> row[v] == 0,
    ensures
        count_sum(row) == 0,
    decreases row.len(),
{
    if row.len() > 0 {
        lemma_count_sum_zero(row.drop_last());
    }
}

/// Weights that stay below the counts sum to at most the counts' sum.
proof fn lemma_weights_below_counts(weights: Seq<u64>, row: Seq<usize>)
    requires
        weights.len() == row.len(),
        forall|v: int| 0 <= v < row.len() ==> weights[v] <= row[v],
    ensures
        weight_sum(weights) <= count_sum(row),
    decreases row.len(),
{
    if row.len() > 0 {
        lemma_weights_below_counts(weights.drop_last(), row.drop_last());
    }
}

impl Umd {
    /// The counts, by position and then by block.
    pub open spec fn counts(&self) -> Seq<Seq<usize>> {
        self.0@.map_values(|row: Vec<usize>| row@)
    }

    /// There are as many blocks as positions, and the counts of each
    /// position sum to a `usize`.
    pub open spec fn wf(&self) -> bool {
        forall|p: int|
            0 <= p < self.counts().len() ==> (#[trigger] self.counts()[p]).len()
                == self.counts().len() && count_sum(self.counts()[p]) <= usize::MAX
    }

    /// Counts, for each position and block, the orders of `pop` that hold
    /// the block at the position.
    pub fn from(pop: &Vec<&Vec<usize>>) -> (model: Self)
        requires
            pop@.len() > 0,
            forall|k: int|
                0 <= k < pop@.len() ==> is_permutation((#[trigger] pop@[k])@, pop@[0]@.len()),
        ensures
            model.wf(),
            model.counts() == model_of(pop@.map_values(|s: &Vec<usize>| s@), pop@[0]@.len()),
    {
        let n = pop[0].len();
        let ghost orders = pop@.map_values(|s: &Vec<usize>| s@);
        let mut d: Vec<Vec<usize>> = Vec::new();
        let mut i: usize = 0;
        while i < n
            invariant
                i <= n,
                d@.len() == i,
                forall|p: int| 0 <= p < i ==> (#[trigger] d@[p])@.len() == n,
                forall|p: int, v: int| 0 <= p < i && 0 <= v < n ==> #[trigger] d@[p]@[v] == 0,
            decreases n - i,
        {
            let mut row: Vec<usize> = Vec::new();
            let mut j: usize = 0;
            while j < n
                invariant
                    j <= n,
                    row@.len() == j,
                    forall|v: int| 0 <= v < j ==> row@[v] == 0,
                decreases n - j,
            {
                row.push(0);
                j += 1;
            }
            d.push(row);
            i += 1;
        }
        proof {
            assert forall|p: int| 0 <= p < n implies count_sum((#[trigger] d@[p])@) == 0 by {
                lemma_count_sum_zero(d@[p]@);
            }
        }
        let mut k: usize = 0;
        while k < pop.len()
            invariant
                k <= pop@.len(),
                n == pop@[0]@.len(),
                orders == pop@.map_values(|s: &Vec<usize>| s@),
                orders.len() == pop@.len(),
                forall|a: int|
                    0 <= a < pop@.len() ==> is_permutation((#[trigger] pop@[a])@, n as nat),
                d@.len() == n,
                forall|p: int| 0 <= p < n ==> (#[trigger] d@[p])@.len() == n,
                forall|p: int| 0 <= p < n ==> count_sum((#[trigger] d@[p])@) == k,
                forall|p: int, v: int|
                    0 <= p < n && 0 <= v < n ==> #[trigger] d@[p]@[v] == occurrences(
                        orders.take(k as int),
                        p,
                        v,
                    ),
            decreases pop@.len() - k,
        {
            let s = pop[k];
            let mut p: usize = 0;
            while p < n
                invariant
                    p <= n,
                    k < pop@.len(),
                    orders.len() == pop@.len(),
                    is_permutation(s@, n as nat),
                    orders.take(k + 1).drop_last() == orders.take(k as int),
                    orders.take(k + 1).last() == s@,
                    d@.len() == n,
                    forall|q: int| 0 <= q < n ==> (#[trigger] d@[q])@.len() == n,
                    forall|q: int|
                        0 <= q < n ==> count_sum((#[trigger] d@[q])@) == if q < p {
                            k + 1
                        } else {
                            k as int
                        },
                    forall|q: int, v: int|
                        0 <= q < n && 0 <= v < n ==> #[trigger] d@[q]@[v] == occurrences(
                            if q < p {
                                orders.take(k + 1)
                            } else {
                                orders.take(k as int)
                            },
                            q,
                            v,
                        ),
                decreases n - p,
            {
                let e = s[p];
                let ghost rows = d@;
                let ghost row = d@[p as int]@;
                let count = d[p][e];
                proof {
                    lemma_count_sum_update(row, e as int, count);
                    assert(pop.len() <= usize::MAX);
                    lemma_count_sum_update(row, e as int, (count + 1) as usize);
                }
                d[p][e] = count + 1;
                proof {
                    assert forall|q: int, v: int|
                        0 <= q < n && 0 <= v < n implies #[trigger] d@[q]@[v] == occurrences(
                        if q < p + 1 {
                            orders.take(k + 1)
                        } else {
                            orders.take(k as int)
                        },
                        q,
                        v,
                    ) by {
                        assert(rows[q]@[v] == occurrences(
                            if q < p {
                                orders.take(k + 1)
                            } else {
                                orders.take(k as int)
                            },
                            q,
                            v,
                        ));
                    }
                    assert forall|q: int| 0 <= q < n implies count_sum((#[trigger] d@[q])@) == if q
                        < p + 1 {
                        k + 1
                    } else {
                        k as int
                    } by {
                        assert(count_sum(rows[q]@) == if q < p {
                            k + 1
                        } else {
                            k as int
                        });
                    }
                }
                p += 1;
            }
            k += 1;
        }
        assert(orders.take(k as int) =~= orders);
        let model = Umd(d);
        proof {
            assert forall|p: int| 0 <= p < n implies #[trigger] model.counts()[p] == model_of(
                orders,
                n as nat,
            )[p] by {}
        }
        model
    }

    /// The sampling weights of all blocks for the position that the model
    /// counts in `row`, given the blocks that are placed already.
    pub fn position_weights(row: &Vec<usize>, is_placed: &Vec<bool>) -> (weights: Vec<u64>)
        requires
            row@.len() == is_placed@.len(),
            count_sum(row@) <= usize::MAX,
        ensures
            weights@.len() == row@.len(),
            forall|v: int|
                0 <= v < row@.len() ==> #[trigger] weights@[v] == sampling_weight(
                    row@,
                    is_placed@,
                    v,
                ),
            weight_sum(weights@) <= u64::MAX,
    {
        let n = row.len();
        let mut weights: Vec<u64> = Vec::new();
        let mut all_zeros = true;
        let ghost mut witness: int = 0;
        let mut v: usize = 0;
        while v < n
            invariant
                v <= n,
                n == row@.len(),
                n == is_placed@.len(),
                weights@.len() == v,
                forall|u: int|
                    0 <= u < v ==> #[trigger] weights@[u] == if is_placed@[u] {
                        0
                    } else {
                        row@[u] as int
                    },
                all_zeros ==> forall|u: int| 0 <= u < v ==> #[trigger] weights@[u] == 0,
                !all_zeros ==> 0 <= witness < v && weights@[witness] != 0,
            decreases n - v,
        {
            let w: u64 = if is_placed[v] {
                0
            } else {
                row[v] as u64
            };
            if w != 0 {
                all_zeros = false;
                proof {
                    witness = v as int;
                }
            }
            weights.push(w);
            v += 1;
        }
        proof {
            if has_support(row@, is_placed@) {
                let u = choose|u: int|
                    0 <= u < row@.len() && !is_placed@[u] && #[trigger] row@[u] > 0;
                assert(weights@[u] != 0);
            }
        }
        if all_zeros {
            let mut u: usize = 0;
            while u < n
                invariant
                    u <= n,
                    n == row@.len(),
                    n == is_placed@.len(),
                    weights@.len() == n,
                    !has_support(row@, is_placed@),
                    forall|x: int|
                        0 <= x < u ==> #[trigger] weights@[x] == sampling_weight(
                            row@,
                            is_placed@,
                            x,
                        ),
                    forall|x: int| 0 <= x < n ==> #[trigger] weights@[x] <= 1,
                decreases n - u,
            {
                let w: u64 = if is_placed[u] {
                    0
                } else {
                    1
                };
                weights[u] = w;
                u += 1;
            }
            proof {
                lemma_weight_sum_bounded(weights@, 1);
            }
        } else {
            proof {
                lemma_weights_below_counts(weights@, row@);
            }
        }
        weights
    }

    /// Draws one block order from the model, position by position, never
    /// drawing a block twice.
    pub fn sample(&self) -> (order: Vec<usize>)
        requires
            self.wf(),
        ensures
            is_drawn_from(self.counts(), order@),
    {
        let n = self.0.len();
        let mut order: Vec<usize> = Vec::new();
        let mut is_placed = no_flags(n);
        let mut pos: usize = 0;
        while pos < n
            invariant
                pos <= n,
                n == self.counts().len(),
                self.wf(),
                order@.len() == pos,
                placed(order@, is_placed@, n as nat),
                forall|p: int|
                    0 <= p < pos ==> sampling_weight(
                        self.counts()[p],
                        marks_of(order@.take(p), n as nat),
                        #[trigger] order@[p] as int,
                    ) > 0,
            decreases n - pos,
        {
            let row = &self.0[pos];
            assert(row@ == self.counts()[pos as int]);
            let weights = Self::position_weights(row, &is_placed);
            proof {
                lemma_room_left(order@, n as nat);
            }
            let ghost free = choose|v: usize| v < n && !order@.contains(v);
            let block = match choose_weighted(&weights) {
                Some(block) => block,
                None => {
                    proof {
                        assert(weights@[free as int] == sampling_weight(
                            row@,
                            is_placed@,
                            free as int,
                        ));
                        if has_support(row@, is_placed@) {
                            let u = choose|u: int|
                                0 <= u < row@.len() && !is_placed@[u] && #[trigger] row@[u] > 0;
                            assert(weights@[u] == sampling_weight(row@, is_placed@, u));
                        }
                    }
                    first_unselected(&is_placed)
                },
            };
            let ghost before = order@;
            proof {
                lemma_placed_grows(order@, is_placed@, n as nat, block);
            }
            order.push(block);
            is_placed[block] = true;
            proof {
                assert forall|p: int| 0 <= p < pos + 1 implies sampling_weight(
                    self.counts()[p],
                    marks_of(order@.take(p), n as nat),
                    #[trigger] order@[p] as int,
                ) > 0 by {
                    assert(order@.take(p) =~= before.take(p));
                    if p == pos {
                        assert(before.take(p) =~= before);
                    }
                }
            }
            pos += 1;
        }
        order
    }

    /// Replaces the individuals of `out` at `indexes` by orders drawn from
    /// the model; the others stay.
    pub fn sample_and_replace(&self, out: &mut Population, indexes: &[usize])
        requires
            self.wf(),
            old(out).wf(self.counts().len()),
            forall|k: int|
                0 <= k < indexes@.len() ==> (#[trigger] indexes@[k]) < old(out).orders().len(),
        ensures
            final(out).orders().len() == old(out).orders().len(),
            final(out).wf(self.counts().len()),
            forall|i: usize|
                i < old(out).orders().len() && !indexes@.contains(i)
                    ==> #[trigger] final(out).orders()[i as int] == old(out).orders()[i as int],
            forall|i: usize|
                i < old(out).orders().len() && indexes@.contains(i) ==> is_drawn_from(
                    self.counts(),
                    #[trigger] final(out).orders()[i as int],
                ),
    {
        let ghost n = self.counts().len();
        let ghost start = out.orders();
        let mut k: usize = 0;
        while k < indexes.len()
            invariant
                k <= indexes@.len(),
                self.wf(),
                n == self.counts().len(),
                out.orders().len() == start.len(),
                out.wf(n),
                forall|a: int| 0 <= a < indexes@.len() ==> (#[trigger] indexes@[a]) < start.len(),
                forall|i: usize|
                    i < start.len() && !indexes@.take(k as int).contains(i)
                        ==> #[trigger] out.orders()[i as int] == start[i as int],
                forall|i: usize|
                    i < start.len() && indexes@.take(k as int).contains(i) ==> is_drawn_from(
                        self.counts(),
                        #[trigger] out.orders()[i as int],
                    ),
            decreases indexes@.len() - k,
        {
            let sol_idx = indexes[k];
            let order = self.sample();
            let ghost before = out.orders();
            let ghost longer = indexes@.take(k + 1);
            out.0[sol_idx] = order;
            proof {
                assert(out.orders() =~= before.update(sol_idx as int, order@));
                assert(longer[k as int] == sol_idx);
                assert forall|i: usize|
                    i < start.len() && !longer.contains(i) implies #[trigger] out.orders()[i as int]
                    == start[i as int] by {}
                assert forall|i: usize| i < start.len() && longer.contains(i) implies is_drawn_from(
                    self.counts(),
                    #[trigger] out.orders()[i as int],
                ) by {}
            }
            k += 1;
        }
        assert(indexes@.take(k as int) =~= indexes@);
    }
}

/// Lists, in rising order, the individuals of a population of `pop_size`
/// that are not among `chosen`.
pub fn worsts_of(chosen: &Vec<(usize, u64)>, pop_size: usize) -> (worsts: Vec<usize>)
    ensures
        forall|k: int| 0 <= k < worsts@.len() ==> (#[trigger] worsts@[k]) < pop_size,
        forall|a: int, b: int| 0 <= a < b < worsts@.len() ==> worsts@[a] < worsts@[b],
        forall|j: usize|
            j < pop_size ==> (#[trigger] worsts@.contains(j) <==> !is_chosen(chosen@, j as int)),
{
    let mut worsts: Vec<usize> = Vec::new();
    let mut j: usize = 0;
    while j < pop_size
        invariant
            j <= pop_size,
            forall|k: int| 0 <= k < worsts@.len() ==> (#[trigger] worsts@[k]) < j,
            forall|a: int, b: int| 0 <= a < b < worsts@.len() ==> worsts@[a] < worsts@[b],
            forall|x: usize|
                x < j ==> (#[trigger] worsts@.contains(x) <==> !is_chosen(chosen@, x as int)),
        decreases pop_size - j,
    {
        let mut found = false;
        let mut m: usize = 0;
        while m < chosen.len() && !found
            invariant
                m <= chosen@.len(),
                found ==> is_chosen(chosen@, j as int),
                !found ==> forall|a: int| 0 <= a < m ==> (#[trigger] chosen@[a]).0 != j,
            decreases chosen@.len() - m + if found { 0int } else { 1int },
        {
            if chosen[m].0 == j {
                found = true;
            } else {
                m += 1;
            }
        }
        let ghost before = worsts@;
        if !found {
            worsts.push(j);
        }
        assert forall|x: usize| x < j + 1 implies (#[trigger] worsts@.contains(x) <==> !is_chosen(
            chosen@,
            x as int,
        )) by {
            if before.contains(x) {
                let k = choose|k: int| 0 <= k < before.len() && before[k] == x;
                assert(worsts@[k] == x);
            }
            if x == j && !found {
                assert(worsts@[before.len() as int] == x);
            }
        }
        j += 1;
    }
    worsts
}

/// Searches with a population of `pop_size` random orders over `iters`
/// generations and returns the best order that any generation held, with
/// its fitness.
///
/// Each generation keeps its better half, the smaller one if the halves
/// differ, and replaces every other individual by an order drawn from the
/// model of that half.
pub fn run(problem: &CoProblem, pop_size: usize, iters: usize) -> (best: (Vec<usize>, u64))
    requires
        problem@.wf(),
        pop_size >= 2,
    ensures
        is_permutation(best.0@, problem@.n),
        best.1 as int == saturate(problem@.fitness(best.0@)),
{
    let n = problem.n;
    let mut pop = Population::init(n, pop_size);
    let num_select = pop_size / 2;
    assert(is_permutation(pop.orders()[0], n as nat));
    let mut best_sol = pop.0[0].clone();
    let mut best_f = problem.eval(best_sol.as_slice());
    let mut it: usize = 0;
    while it < iters
        invariant
            n == problem.n,
            problem@.wf(),
            pop_size >= 2,
            num_select == pop_size / 2,
            pop.orders().len() == pop_size,
            pop.wf(n as nat),
            is_permutation(best_sol@, n as nat),
            best_f as int == saturate(problem@.fitness(best_sol@)),
        decreases iters - it,
    {
        let ghost before = pop.orders();
        let ghost keys = fitness_keys(problem@, before);
        let best_sol_info = pop.evolve(problem, num_select);
        let (iter_best_idx, iter_best_f) = best_sol_info[0];
        proof {
            assert(pop.orders()[iter_best_idx as int] == before[iter_best_idx as int]);
            problem@.lemma_fitness_of_rows_nonnegative(before[iter_best_idx as int], n as int);
            assert(keys[iter_best_idx as int] == saturate(
                problem@.fitness(before[iter_best_idx as int]),
            ) as u128);
        }
        if iter_best_f > best_f {
            best_sol = pop.0[iter_best_idx].clone();
            best_f = iter_best_f;
        }
        it += 1;
    }
    (best_sol, best_f)
}

} // verus!

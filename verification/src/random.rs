//! The random choices of the solvers, drawn from the thread-local generator.
//!
//! The functions that call the generator are taken on trust: each states
//! what holds of every value that the generator may hand back.

use vstd::prelude::*;
use rand::seq::SliceRandom;
use rand::Rng;

verus! {

/// Sum of the weights in `w`.
pub open spec fn weight_sum(w: Seq<u64>) -> nat
    decreases w.len(),
{
    if w.len() == 0 {
        0
    } else {
        weight_sum(w.drop_last()) + w.last() as nat
    }
}

/// Some weight in `w` is positive.
pub open spec fn has_positive(w: Seq<u64>) -> bool {
    exists|i: int| 0 <= i < w.len() && w[i] > 0
}

/// Rearranges `v` at random, by `rand::seq::SliceRandom::shuffle`.
///
/// That function only exchanges elements of the slice, so `v` holds
/// afterwards what it held before, each value as often as before.
#[verifier::external_body]
pub(crate) fn shuffle(v: &mut Vec<usize>)
    ensures
        final(v)@.to_multiset() == old(v)@.to_multiset(),
{
    v.shuffle(&mut rand::thread_rng());
}

/// Draws an index below `bound`, by `rand::Rng::gen_range` on `0..bound`.
///
/// That function panics on an empty range, which the precondition excludes,
/// and returns a value of the range.
#[verifier::external_body]
pub(crate) fn gen_range(bound: usize) -> (r: usize)
    requires
        bound > 0,
    ensures
        r < bound,
{
    rand::thread_rng().gen_range(0..bound)
}

/// Draws a position of `weights` with probability proportional to its
/// weight, by `rand::seq::SliceRandom::choose_weighted`.
///
/// That function fails exactly if there is no weight or the weights sum to
/// zero; otherwise the weight at the position it picks is positive. The
/// weights are summed in a `u64`, so the sum must fit.
#[verifier::external_body]
pub(crate) fn choose_weighted(weights: &Vec<u64>) -> (r: Option<usize>)
    requires
        weight_sum(weights@) <= u64::MAX,
    ensures
        r is Some <==> has_positive(weights@),
        match r {
            Some(i) => i < weights@.len() && weights@[i as int] > 0,
            None => true,
        },
{
    let items: Vec<(usize, u64)> = weights.iter().copied().enumerate().collect();
    match items.choose_weighted(&mut rand::thread_rng(), |item| item.1) {
        Ok(item) => Some(item.0),
        Err(_) => None,
    }
}

/// Weights that are each at most `bound` sum to at most `bound` times their number.
pub proof fn lemma_weight_sum_bounded(w: Seq<u64>, bound: nat)
    requires
        forall|i: int| 0 <= i < w.len() ==> w[i] <= bound,
    ensures
        weight_sum(w) <= w.len() * bound,
    decreases w.len(),
{
    if w.len() > 0 {
        lemma_weight_sum_bounded(w.drop_last(), bound);
        assert((w.len() - 1) * bound + bound == w.len() * bound) by (nonlinear_arith);
    }
}

} // verus!

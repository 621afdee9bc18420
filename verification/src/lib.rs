//! Profile-guided basic-block reordering.
//!
//! A function's control-flow graph, annotated with branch weights, is turned
//! into an arrangement problem over its non-entry blocks; a portfolio of
//! metaheuristics searches for a block order of high fitness, and the block
//! layout is rewritten to follow that order.

use vstd::prelude::*;

pub mod algorithm;
pub mod clock;
pub mod co;
pub mod generator;
pub mod ir_modifier;
pub mod log;
pub mod permutation;
pub mod profdata;
pub mod random;
pub mod ranking;
pub mod text;

verus! {

/// Wall-clock budget of one solver run, in milliseconds.
pub const MAX_OPT_MILLIS: u128 = 10_000;

} // verus!

//! The arrangement problem and the solvers that search its permutations.

mod construction;
pub mod constructive;
pub mod eda;
pub mod local_search;
mod problem;
pub mod sa;

pub use problem::CoProblem;
pub use problem::MAX_BLOCKS;
pub use problem::ProblemView;

//! Profile data lifted from a compiled module: annotations, per-function
//! control-flow graphs, and the module that holds them.

mod function;
mod metadata;
mod module;

pub use function::{
    annotation_of, branch_targets, handles_of, resolves, successors_of, targets_of, BasicBlock,
    Branch, Function,
};
pub use metadata::Metadata;
pub use module::{hotter, is_hot_ranking, listing, Module};

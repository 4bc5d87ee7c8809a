//! Rewriting logic graphs.

pub mod fold_constants;
pub mod fold_progress;
pub mod rewrite;

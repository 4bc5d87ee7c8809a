//! Placing macros and routing the nets between them.

pub mod candidate_eval;
pub mod compression;
pub mod compression_laws;
pub mod electrical;
pub mod electrical_drc;
pub mod electrical_laws;
pub mod global_pnr;
pub mod move_eval;
pub mod move_laws;
pub mod placement_error;
pub mod placement_ir;
pub mod placement_laws;
pub mod placement_problem;
pub mod placement_world;
pub mod sa_placer;

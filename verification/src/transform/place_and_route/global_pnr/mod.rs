//! Global placement and routing of module layouts.

pub mod annealed;
pub mod annealed_range;
pub mod candidate;
pub mod candidate_check;
pub mod candidate_check_laws;
pub mod candidate_generation;
pub mod candidate_layout;
pub mod cell_library;
pub mod dust;
pub mod frontier_laws;
pub mod ir;
pub mod placement_nets;
pub mod policy;
pub mod route_engine;
pub mod router;

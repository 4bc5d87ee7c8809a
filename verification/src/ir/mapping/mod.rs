//! General lowering of flat logical modules to routable leaves.

pub mod arithmetic;
pub mod cell_laws;
pub mod combinational;
pub mod cone;
pub mod design;
pub mod design_laws;
pub mod emitter;
pub mod error;
pub mod expansion;
pub mod flat;
pub mod leaf;
pub mod leaf_run;
pub mod liveness;
pub mod lowered_run;
pub mod lowering;
pub mod lowering_laws;
pub mod nets;
pub mod next_state;
pub mod partition;
pub mod partition_laws;
pub mod refusal;
pub mod scalar;
pub mod sequential;
pub mod state_laws;
pub mod state_plan;
pub mod state_refusal;
pub mod topology;
pub mod wiring;

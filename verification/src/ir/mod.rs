//! Logical and routable circuit descriptions and the lowering between them.

pub mod benchmark_laws;
pub mod benchmarks;
pub mod flatten;
pub mod flatten_behaviour;
pub mod flatten_laws;
pub mod logical;
pub mod mapping;
pub mod routable;
pub mod target;

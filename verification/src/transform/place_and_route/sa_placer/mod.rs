//! A starting point for placing macros: a shelf in order of connectivity, a
//! relaxation towards connected pins, and a repair that moves overlapping
//! macros apart. Everything is deterministic.

pub mod anneal;
pub mod anneal_laws;
pub mod initial;
pub mod known;
pub mod legal;
pub mod measure;
pub mod measure_laws;
pub mod moves;
pub mod range;
pub mod relax;
pub mod repair;
pub mod seed;
pub mod step_laws;

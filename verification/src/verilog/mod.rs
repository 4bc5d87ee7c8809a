//! Register-transfer descriptions and the cells that they stand for.

pub mod rtl;
pub mod synth;
pub mod synth_laws;

//! Verified core of a compiler that turns digital logic into redstone layouts.

pub mod gpu;
pub mod gpu_laws;
pub mod graph;
pub mod ir;
pub mod logic;
pub mod number;
pub mod options;
pub mod order;
pub mod perf;
pub mod sequential;
pub mod text;
pub mod transform;
pub mod verilog;
pub mod world;

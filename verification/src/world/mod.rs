//! Block worlds.

pub mod block;
pub mod grid;
pub mod position;
pub mod position_laws;

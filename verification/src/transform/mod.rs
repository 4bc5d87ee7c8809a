//! Rewriting and placing logic.

pub mod logic;
pub mod place_and_route;

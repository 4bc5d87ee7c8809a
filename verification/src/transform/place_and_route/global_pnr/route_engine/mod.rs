//! Finding routes between two cells.

pub mod adapter;
pub mod adapter_laws;
pub mod congestion;
pub mod contacts;
pub mod cost;
pub mod engine;
pub mod escape;
pub mod goal;
pub mod negotiation;
pub mod negotiation_laws;
pub mod pathfinder;
pub mod queue;
pub mod route;
pub mod route_laws;
pub mod search;
pub mod search_laws;
pub mod state;
pub mod taps;
pub mod taps_laws;
pub mod validation;
pub mod validation_laws;
pub mod visited;

//! Routing the nets between placed modules.

pub mod diode;
pub mod diode_laws;
pub mod entry;
pub mod external;
pub mod input_ports;
pub mod inputs;
pub mod laws;
pub mod nets;
pub mod plan;
pub mod plan_laws;
pub mod ports;
pub mod reach;
pub mod sources;
pub mod targets;
pub mod tools;
pub mod topology;
pub mod words;

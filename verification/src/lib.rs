//! Verified core of an offline benchmark for a grid mover.

pub mod annotate;
pub mod base_traffic;
pub mod bench;
pub mod body;
pub mod cost;
pub mod crowd;
pub mod grid;
pub mod haul;
mod list;
pub mod metrics;
pub mod oracle;
pub mod scalar;
pub mod scenario;
pub mod stats;
pub mod terrain;
pub mod text;
pub mod traverse;
pub mod tuning;
pub mod value;

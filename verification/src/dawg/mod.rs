//! The flat graph: the index-addressed mutable DAWG.

pub mod clean;
pub mod combin;
pub mod flat;
pub mod iters;
pub mod read;
pub mod thin;
pub mod write;

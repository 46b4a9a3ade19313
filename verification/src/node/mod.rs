//! The two concrete node encodings and the combinator node views.

pub mod all;
pub mod and;
pub mod any;
pub mod iters;
pub mod or;
pub mod thin;
pub mod wide;

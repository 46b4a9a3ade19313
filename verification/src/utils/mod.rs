//! Small shared utilities: the alphabet codec and the sorted-word merge.

pub mod convert;
pub mod merge;

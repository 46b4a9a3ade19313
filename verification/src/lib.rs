//! A library for building, minimising and querying directed acyclic word
//! graphs (DAWGs) over the 26-letter lowercase alphabet.

pub mod dawg;
pub mod model;
pub mod node;
pub mod pattern;
pub mod utils;
pub mod words;

pub use dawg::combin::{AllDawg, AndDawg, AnyDawg, OrDawg};
pub use dawg::flat::FlatDawg;
pub use dawg::read::ReadDawg;
pub use dawg::thin::ThinDawg;
pub use node::all::AllNode;
pub use node::and::AndNode;
pub use node::any::AnyNode;
pub use node::or::OrNode;
pub use node::thin::{NonContiguous, ThinNode};
pub use node::wide::WideNode;
pub use pattern::parse::{ErrorKind, ParseError};
pub use pattern::Pattern;
pub use utils::convert::{from_alpha, from_word, into_alpha, into_word};

use vstd::prelude::*;

verus! {

/// Number of symbols a node can carry children for.
pub const THIN_CHARS: usize = 26;

} // verus!

//! A second intersection view over several nodes, sharing the intersection
//! node's symbol semantics.

use vstd::prelude::*;

use crate::node::all::all_have;
use crate::node::thin::{t_end, t_kid, ThinNode};
use crate::pattern::mask_has;

verus! {

/// An intersection node over any number of operands.
pub struct AndNode(pub Vec<ThinNode>);

impl AndNode {
    /// Whether the view has no child: no symbol is shared by all operands.
    pub fn is_empty(&self) -> (r: bool)
        ensures
            r == !(exists|c: u8| c < 26 && all_have(self.0@, c)),
    {
        let mut c: u8 = 0;
        while c < 26
            invariant
                c <= 26,
                forall|d: u8| d < c ==> !all_have(self.0@, d),
            decreases 26 - c,
        {
            if self.has(c) {
                proof {
                    assert(all_have(self.0@, c));
                }
                return false;
            }
            c += 1;
        }
        true
    }

    /// Whether a word ends here: every operand must end.
    pub fn is_end(&self) -> (r: bool)
        ensures
            r == (forall|k: int| 0 <= k < self.0@.len() ==> t_end(#[trigger] self.0@[k])),
    {
        let mut k: usize = 0;
        while k < self.0.len()
            invariant
                k <= self.0@.len(),
                forall|j: int| 0 <= j < k ==> t_end(#[trigger] self.0@[j]),
            decreases self.0@.len() - k,
        {
            if !self.0[k].is_end() {
                return false;
            }
            k += 1;
        }
        true
    }

    /// Whether every operand has a child for symbol `c`.
    pub fn has(&self, c: u8) -> (r: bool)
        ensures
            r == all_have(self.0@, c),
    {
        let mut k: usize = 0;
        while k < self.0.len()
            invariant
                k <= self.0@.len(),
                forall|j: int| 0 <= j < k ==> mask_has((#[trigger] self.0@[j]).mask, c),
            decreases self.0@.len() - k,
        {
            if !self.0[k].has(c) {
                return false;
            }
            k += 1;
        }
        true
    }

    /// The tuple of the operands' children for symbol `c`.
    pub fn get(&self, c: u8) -> (r: Vec<usize>)
        requires
            forall|k: int| 0 <= k < self.0@.len() ==> (#[trigger] self.0@[k]).idx + 26 <= usize::MAX,
        ensures
            r@.len() == self.0@.len(),
            forall|k: int| 0 <= k < r@.len() ==> r@[k] == t_kid(self.0@[k], c),
    {
        let mut r: Vec<usize> = Vec::new();
        let mut k: usize = 0;
        while k < self.0.len()
            invariant
                k <= self.0@.len(),
                r@.len() == k,
                forall|j: int| 0 <= j < self.0@.len() ==> (#[trigger] self.0@[j]).idx + 26 <= usize::MAX,
                forall|j: int| 0 <= j < k ==> r@[j] == t_kid(self.0@[j], c),
            decreases self.0@.len() - k,
        {
            r.push(self.0[k].get(c));
            k += 1;
        }
        r
    }
}

} // verus!

//! Walkers over the children of one thin node, in symbol order.

use vstd::prelude::*;

use crate::node::thin::{t_kid, ThinNode};
use crate::pattern::mask_has;

verus! {

/// Walks the present symbols of a node, ascending.
pub struct KeyIter {
    /// The node walked.
    pub node: ThinNode,
    /// The next symbol to look at.
    pub c: u8,
}

impl KeyIter {
    /// Starts at the lowest symbol.
    pub fn new(node: ThinNode) -> (it: KeyIter)
        ensures
            it.node == node,
            it.c == 0,
    {
        KeyIter { node, c: 0 }
    }

    /// The next present symbol, if any.
    pub fn next(&mut self) -> (r: Option<u8>)
        ensures
            final(self).node == old(self).node,
            match r {
                Some(k) => old(self).c <= k < 26 && mask_has(old(self).node.mask, k) && (forall|
                    d: u8,
                |
                    old(self).c <= d < k ==> !mask_has(old(self).node.mask, d)) && final(self).c == k
                    + 1,
                None => (forall|d: u8| old(self).c <= d < 26 ==> !mask_has(old(self).node.mask, d))
                    && final(self).c == old(self).c,
            },
    {
        match self.node.next_c(self.c) {
            Some(k) => {
                self.c = k + 1;
                Some(k)
            },
            None => None,
        }
    }
}

/// Walks the child slots of a node, in symbol order.
pub struct ChildIter {
    /// The node walked.
    pub node: ThinNode,
    /// The next symbol to look at.
    pub c: u8,
}

impl ChildIter {
    /// Starts at the lowest symbol.
    pub fn new(node: ThinNode) -> (it: ChildIter)
        ensures
            it.node == node,
            it.c == 0,
    {
        ChildIter { node, c: 0 }
    }

    /// The child slot of the next present symbol, if any.
    pub fn next(&mut self) -> (r: Option<usize>)
        requires
            old(self).node.idx + 26 <= usize::MAX,
        ensures
            final(self).node == old(self).node,
            match r {
                Some(t) => exists|k: u8|
                    old(self).c <= k < 26 && mask_has(old(self).node.mask, k) && #[trigger] t_kid(
                        old(self).node,
                        k,
                    ) == t && final(self).c == k + 1,
                None => (forall|d: u8| old(self).c <= d < 26 ==> !mask_has(old(self).node.mask, d))
                    && final(self).c == old(self).c,
            },
    {
        match self.node.next_c(self.c) {
            Some(k) => {
                let t = self.node.get(k);
                self.c = k + 1;
                Some(t)
            },
            None => None,
        }
    }
}

/// Walks the `(symbol, child)` pairs of a node, in symbol order.
pub struct PairIter {
    /// The node walked.
    pub node: ThinNode,
    /// The next symbol to look at.
    pub c: u8,
}

impl PairIter {
    /// Starts at the lowest symbol.
    pub fn new(node: ThinNode) -> (it: PairIter)
        ensures
            it.node == node,
            it.c == 0,
    {
        PairIter { node, c: 0 }
    }

    /// The next `(symbol, child)` pair, if any.
    pub fn next(&mut self) -> (r: Option<(u8, usize)>)
        requires
            old(self).node.idx + 26 <= usize::MAX,
        ensures
            final(self).node == old(self).node,
            match r {
                Some((k, t)) => old(self).c <= k < 26 && mask_has(old(self).node.mask, k) && t
                    == t_kid(old(self).node, k) && (forall|d: u8|
                    old(self).c <= d < k ==> !mask_has(old(self).node.mask, d)) && final(self).c == k
                    + 1,
                None => (forall|d: u8| old(self).c <= d < 26 ==> !mask_has(old(self).node.mask, d))
                    && final(self).c == old(self).c,
            },
    {
        match self.node.next_c(self.c) {
            Some(k) => {
                let t = self.node.get(k);
                self.c = k + 1;
                Some((k, t))
            },
            None => None,
        }
    }
}

} // verus!

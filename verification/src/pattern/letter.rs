//! The read-only node view a pattern position exposes.

use vstd::prelude::*;

use crate::pattern::mask_has;

verus! {

/// One pattern position seen as a graph node: its mask and the index of the
/// following position.
#[derive(Clone, Copy, PartialEq, Eq, Structural)]
pub struct Node {
    /// The permitted-symbol mask at this position.
    pub mask: u32,
    /// The view index of the next position.
    pub next: usize,
}

/// A pattern node: a real position, or the accepting node past the end.
#[derive(Clone, Copy, PartialEq, Eq, Structural)]
pub struct Letter {
    /// The position, absent on the accepting tail node.
    pub node: Option<Node>,
}

impl Letter {
    /// A view of a real position.
    pub fn new(mask: u32, next: usize) -> (r: Letter)
        ensures
            r == (Letter { node: Some(Node { mask, next }) }),
    {
        Letter { node: Some(Node { mask, next }) }
    }

    /// Whether this node ends a word: only the tail node does.
    pub fn is_end(&self) -> (r: bool)
        ensures
            r == self.node is None,
    {
        match self.node {
            Some(_) => false,
            None => true,
        }
    }

    /// Whether the node has no child at all.
    pub fn is_empty(&self) -> (r: bool)
        ensures
            r == match self.node {
                Some(n) => forall|c: u8| !mask_has(n.mask, c),
                None => true,
            },
    {
        match self.node {
            Some(n) => {
                let bits = crate::pattern::mask_bits(n.mask);
                proof {
                    crate::pattern::lemma_mask_count_zero(n.mask, 26);
                    if bits == 0 {
                        assert forall|c: u8| !mask_has(n.mask, c) by {}
                    } else {
                        let d = choose|d: u8| d < 26 && mask_has(n.mask, d);
                        assert(mask_has(n.mask, d));
                    }
                }
                bits == 0
            },
            None => true,
        }
    }

    /// Whether the node has a child for symbol `c`.
    pub fn has(&self, c: u8) -> (r: bool)
        ensures
            r == match self.node {
                Some(n) => mask_has(n.mask, c),
                None => false,
            },
    {
        match self.node {
            Some(n) => c < 26 && (n.mask >> (c as u32)) & 1 == 1,
            None => false,
        }
    }

    /// The child reached by symbol `c`: the next position, or `0` when absent.
    pub fn get(&self, c: u8) -> (r: usize)
        ensures
            r == match self.node {
                Some(n) => if mask_has(n.mask, c) {
                    n.next
                } else {
                    0usize
                },
                None => 0usize,
            },
    {
        match self.node {
            Some(n) => {
                if c < 26 && (n.mask >> (c as u32)) & 1 == 1 {
                    n.next
                } else {
                    0
                }
            },
            None => 0,
        }
    }

    /// The smallest permitted symbol at or after `c`, if any.
    pub fn next_c(&self, c: u8) -> (r: Option<u8>)
        ensures
            match r {
                Some(k) => c <= k < 26 && (match self.node {
                    Some(n) => mask_has(n.mask, k) && forall|d: u8|
                        c <= d < k ==> !mask_has(n.mask, d),
                    None => false,
                }),
                None => match self.node {
                    Some(n) => forall|d: u8| c <= d < 26 ==> !mask_has(n.mask, d),
                    None => true,
                },
            },
    {
        match self.node {
            Some(n) => {
                let mut k: u8 = c;
                while k < 26
                    invariant
                        self.node == Some(n),
                        c <= k,
                        k <= 26 || k == c,
                        forall|d: u8| c <= d < k ==> !mask_has(n.mask, d),
                    decreases 26 - k,
                {
                    if (n.mask >> (k as u32)) & 1 == 1 {
                        proof {
                            assert(mask_has(n.mask, k));
                        }
                        return Some(k);
                    }
                    k += 1;
                }
                None
            },
            None => None,
        }
    }
}

impl Letter {
    /// The canonical text of the node's mask; the tail node formats as
    /// nothing.
    pub fn fmt(&self) -> (r: String)
        ensures
            match self.node {
                Some(n) => r@ == crate::pattern::display::fmt_mask_spec(n.mask),
                None => r@.len() == 0,
            },
    {
        match self.node {
            Some(n) => crate::pattern::Pattern::fmt_mask(n.mask),
            None => String::new(),
        }
    }

    /// The canonical text of the symbol range `s..=e`.
    pub fn fmt_range(s: u8, e: u8) -> (r: String)
        requires
            s <= e < 26,
        ensures
            r@ == crate::pattern::display::fmt_range_spec(s, e),
    {
        crate::pattern::Pattern::fmt_range(s, e)
    }
}

} // verus!

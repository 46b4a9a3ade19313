//! A second union view over several optional nodes, sharing the union node's
//! symbol semantics.

use vstd::prelude::*;

use crate::node::thin::{t_end, t_kid, ThinNode};
use crate::pattern::{mask_count, mask_has};

verus! {

/// A union node over any number of operands, each possibly absent.
pub struct OrNode(pub Vec<Option<ThinNode>>);

impl OrNode {
    /// Whether the view has no child: every present operand is childless (an
    /// absent operand contributes no symbol).
    pub fn is_empty(&self) -> (r: bool)
        ensures
            r == (forall|k: int|
                0 <= k < self.0@.len() ==> match #[trigger] self.0@[k] {
                    Some(n) => mask_count(n.mask, 26) == 0,
                    None => true,
                }),
    {
        let mut k: usize = 0;
        while k < self.0.len()
            invariant
                k <= self.0@.len(),
                forall|j: int|
                    0 <= j < k ==> match #[trigger] self.0@[j] {
                        Some(n) => mask_count(n.mask, 26) == 0,
                        None => true,
                    },
            decreases self.0@.len() - k,
        {
            match &self.0[k] {
                Some(n) => {
                    if n.len() != 0 {
                        return false;
                    }
                },
                None => {},
            }
            k += 1;
        }
        true
    }

    /// Whether a word ends here: some present operand ends.
    pub fn is_end(&self) -> (r: bool)
        ensures
            r == (exists|k: int|
                0 <= k < self.0@.len() && match #[trigger] self.0@[k] {
                    Some(n) => t_end(n),
                    None => false,
                }),
    {
        let mut k: usize = 0;
        while k < self.0.len()
            invariant
                k <= self.0@.len(),
                forall|j: int|
                    0 <= j < k ==> !match #[trigger] self.0@[j] {
                        Some(n) => t_end(n),
                        None => false,
                    },
            decreases self.0@.len() - k,
        {
            match &self.0[k] {
                Some(n) => {
                    if n.is_end() {
                        return true;
                    }
                },
                None => {},
            }
            k += 1;
        }
        false
    }

    /// Whether some present operand has a child for symbol `c`.
    pub fn has(&self, c: u8) -> (r: bool)
        ensures
            r == (exists|k: int|
                0 <= k < self.0@.len() && match #[trigger] self.0@[k] {
                    Some(n) => mask_has(n.mask, c),
                    None => false,
                }),
    {
        let mut k: usize = 0;
        while k < self.0.len()
            invariant
                k <= self.0@.len(),
                forall|j: int|
                    0 <= j < k ==> !match #[trigger] self.0@[j] {
                        Some(n) => mask_has(n.mask, c),
                        None => false,
                    },
            decreases self.0@.len() - k,
        {
            match &self.0[k] {
                Some(n) => {
                    if n.has(c) {
                        return true;
                    }
                },
                None => {},
            }
            k += 1;
        }
        false
    }

    /// The tuple of the operands' children for symbol `c`, each absent where
    /// the operand is absent or lacks the symbol.
    pub fn get(&self, c: u8) -> (r: Vec<Option<usize>>)
        requires
            forall|k: int|
                0 <= k < self.0@.len() ==> match #[trigger] self.0@[k] {
                    Some(n) => n.idx + 26 <= usize::MAX,
                    None => true,
                },
        ensures
            r@.len() == self.0@.len(),
            forall|k: int|
                0 <= k < r@.len() ==> #[trigger] r@[k] == match self.0@[k] {
                    Some(n) => if t_kid(n, c) != 0 {
                        Some(t_kid(n, c))
                    } else {
                        None::<usize>
                    },
                    None => None::<usize>,
                },
    {
        let mut r: Vec<Option<usize>> = Vec::new();
        let mut k: usize = 0;
        while k < self.0.len()
            invariant
                k <= self.0@.len(),
                r@.len() == k,
                forall|j: int|
                    0 <= j < self.0@.len() ==> match #[trigger] self.0@[j] {
                        Some(n) => n.idx + 26 <= usize::MAX,
                        None => true,
                    },
                forall|j: int|
                    0 <= j < k ==> #[trigger] r@[j] == match self.0@[j] {
                        Some(n) => if t_kid(n, c) != 0 {
                            Some(t_kid(n, c))
                        } else {
                            None::<usize>
                        },
                        None => None::<usize>,
                    },
            decreases self.0@.len() - k,
        {
            match &self.0[k] {
                Some(n) => {
                    let t = n.get(c);
                    if t != 0 {
                        r.push(Some(t));
                    } else {
                        r.push(None);
                    }
                },
                None => {
                    r.push(None);
                },
            }
            k += 1;
        }
        r
    }
}

} // verus!

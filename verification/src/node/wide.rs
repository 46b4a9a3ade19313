//! The wide node: the editing form, with one child slot per symbol.

use vstd::prelude::*;

use crate::model::{zero_kids, SpecNode};

verus! {

/// How many set entries `kids` has among its first `c` slots.
pub open spec fn count_kids(kids: Seq<usize>, c: int) -> nat
    decreases c,
{
    if c <= 0 {
        0
    } else {
        count_kids(kids, c - 1) + (if kids[c - 1] != 0 {
            1nat
        } else {
            0nat
        })
    }
}

/// A full-width node: an accepting flag and a dense array of 26 child
/// indices, `0` meaning "no child".  Children need not be contiguous, which
/// makes this the form every mutation goes through.
pub struct WideNode {
    /// Whether a word ends here.
    pub end: bool,
    /// The child index per symbol; always 26 entries.
    pub kids: Vec<usize>,
}

impl View for WideNode {
    type V = SpecNode;

    open spec fn view(&self) -> SpecNode {
        SpecNode { end: self.end, kids: self.kids@ }
    }
}

impl WideNode {
    /// The node has its 26 child slots.
    pub open spec fn wf(&self) -> bool {
        self.kids@.len() == 26
    }

    /// A fresh node: not accepting, no children.
    pub fn new() -> (n: WideNode)
        ensures
            n.wf(),
            n@ == (SpecNode { end: false, kids: zero_kids() }),
    {
        let mut kids: Vec<usize> = Vec::new();
        let mut c: usize = 0;
        while c < 26
            invariant
                kids@.len() == c,
                c <= 26,
                forall|d: int| 0 <= d < c ==> kids@[d] == 0,
            decreases 26 - c,
        {
            kids.push(0);
            c += 1;
        }
        let n = WideNode { end: false, kids };
        proof {
            assert(n@.kids =~= zero_kids());
        }
        n
    }

    /// Whether a word ends at this node.
    pub fn is_end(&self) -> (r: bool)
        ensures
            r == self@.end,
    {
        self.end
    }

    /// Marks or unmarks the node as a word end, returning the previous flag.
    pub fn set_end(&mut self, b: bool) -> (r: bool)
        ensures
            r == old(self)@.end,
            final(self)@ == (SpecNode { end: b, kids: old(self)@.kids }),
            final(self).wf() == old(self).wf(),
    {
        let r = self.end;
        self.end = b;
        r
    }

    /// Whether the node has a child for symbol `c`.
    pub fn has(&self, c: u8) -> (r: bool)
        requires
            self.wf(),
            c < 26,
        ensures
            r == (self@.kids[c as int] != 0),
    {
        self.kids[c as usize] != 0
    }

    /// The child reached by symbol `c`; `0` when absent.
    pub fn get(&self, c: u8) -> (r: usize)
        requires
            self.wf(),
            c < 26,
        ensures
            r == self@.kids[c as int],
    {
        self.kids[c as usize]
    }

    /// Points the edge for symbol `c` at node `t` (`0` erases the edge).
    pub fn set_kid(&mut self, c: u8, t: usize)
        requires
            old(self).wf(),
            c < 26,
        ensures
            final(self).wf(),
            final(self)@ == (SpecNode {
                end: old(self)@.end,
                kids: old(self)@.kids.update(c as int, t),
            }),
    {
        let slot = &mut self.kids[c as usize];
        *slot = t;
    }

    /// How many children the node has.
    pub fn len(&self) -> (r: usize)
        requires
            self.wf(),
        ensures
            r == count_kids(self@.kids, 26),
    {
        let mut n: usize = 0;
        let mut c: usize = 0;
        while c < 26
            invariant
                self.wf(),
                c <= 26,
                n == count_kids(self@.kids, c as int),
                n <= c,
            decreases 26 - c,
        {
            if self.kids[c] != 0 {
                n += 1;
            }
            c += 1;
        }
        n
    }

    /// Whether the node has no children at all.
    pub fn is_empty(&self) -> (r: bool)
        requires
            self.wf(),
        ensures
            r == (forall|c: int| 0 <= c < 26 ==> self@.kids[c] == 0),
    {
        let mut c: usize = 0;
        while c < 26
            invariant
                self.wf(),
                c <= 26,
                forall|d: int| 0 <= d < c ==> self@.kids[d] == 0,
            decreases 26 - c,
        {
            if self.kids[c] != 0 {
                assert(self@.kids[c as int] != 0);
                return false;
            }
            c += 1;
        }
        true
    }

    /// The smallest present symbol at or after `c`, if any.
    pub fn next_c(&self, c: u8) -> (r: Option<u8>)
        requires
            self.wf(),
        ensures
            match r {
                Some(k) => c <= k < 26 && self@.kids[k as int] != 0 && forall|d: int|
                    c <= d < k ==> self@.kids[d] == 0,
                None => forall|d: int| c <= d < 26 ==> self@.kids[d] == 0,
            },
    {
        let mut k: u8 = c;
        while k < 26
            invariant
                self.wf(),
                c <= k,
                k <= 26 || k == c,
                forall|d: int| c <= d < k ==> self@.kids[d] == 0,
            decreases 26 - k,
        {
            if self.kids[k as usize] != 0 {
                return Some(k);
            }
            k += 1;
        }
        None
    }

    /// An independent copy of the node.
    pub fn duplicate(&self) -> (r: WideNode)
        requires
            self.wf(),
        ensures
            r.wf(),
            r@ == self@,
    {
        let mut kids: Vec<usize> = Vec::new();
        let mut c: usize = 0;
        while c < 26
            invariant
                self.wf(),
                kids@.len() == c,
                c <= 26,
                forall|d: int| 0 <= d < c ==> kids@[d] == self@.kids[d],
            decreases 26 - c,
        {
            kids.push(self.kids[c]);
            c += 1;
        }
        let r = WideNode { end: self.end, kids };
        proof {
            assert(r@.kids =~= self@.kids);
        }
        r
    }

    /// Whether two nodes have the same flag and the same children.
    pub fn same_as(&self, other: &WideNode) -> (r: bool)
        requires
            self.wf(),
            other.wf(),
        ensures
            r == (self@ == other@),
    {
        if self.end != other.end {
            return false;
        }
        let mut c: usize = 0;
        while c < 26
            invariant
                self.wf(),
                other.wf(),
                c <= 26,
                self@.end == other@.end,
                forall|d: int| 0 <= d < c ==> self@.kids[d] == other@.kids[d],
            decreases 26 - c,
        {
            if self.kids[c] != other.kids[c] {
                assert(self@.kids[c as int] != other@.kids[c as int]);
                return false;
            }
            c += 1;
        }
        proof {
            assert(self@.kids =~= other@.kids);
        }
        true
    }

    /// Removes and returns the lowest child pair, if any.
    pub fn pop(&mut self) -> (r: Option<(u8, usize)>)
        requires
            old(self).wf(),
        ensures
            final(self).wf(),
            match r {
                Some((c, t)) => c < 26 && t != 0 && old(self)@.kids[c as int] == t && (forall|
                    d: int,
                |
                    0 <= d < c ==> old(self)@.kids[d] == 0) && final(self)@ == (SpecNode {
                    end: old(self)@.end,
                    kids: old(self)@.kids.update(c as int, 0),
                }),
                None => *final(self) == *old(self) && (forall|d: int|
                    0 <= d < 26 ==> old(self)@.kids[d] == 0),
            },
    {
        match self.next_c(0) {
            Some(c) => {
                let t = self.get(c);
                self.set_kid(c, 0);
                Some((c, t))
            },
            None => None,
        }
    }
}

} // verus!

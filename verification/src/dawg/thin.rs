//! The flat graph in storage form: thin nodes only, read-only.

use vstd::prelude::*;

use crate::dawg::flat::FlatDawg;
use crate::dawg::read::ReadDawg;
use crate::model::{accepts, acyclic, graph_wf, SpecNode};
use crate::node::thin::{thin_view, ThinNode, NonContiguous};
use crate::node::wide::WideNode;
use crate::words::lemma_accepts_symbols;

verus! {

/// A DAWG stored as a flat list of thin nodes; slot 0 is the root.
pub struct ThinDawg {
    /// The node array.
    pub nodes: Vec<ThinNode>,
}

impl View for ThinDawg {
    type V = Seq<SpecNode>;

    open spec fn view(&self) -> Seq<SpecNode> {
        self.nodes@.map_values(|n: ThinNode| thin_view(n))
    }
}

impl ThinDawg {
    /// A well-formed graph whose base indices stay clear of overflow.
    pub open spec fn wf(&self) -> bool {
        graph_wf(self@) && (forall|k: int|
            0 <= k < self.nodes@.len() ==> (#[trigger] self.nodes@[k]).idx + 26 <= usize::MAX)
    }

    /// How many nodes the graph holds.
    pub fn node_count(&self) -> (r: usize)
        ensures
            r == self@.len(),
    {
        self.nodes.len()
    }

    /// Whether the graph accepts `word`.
    pub fn has(&self, word: &[u8]) -> (r: bool)
        requires
            self.wf(),
        ensures
            r == accepts(self@, 0, word@),
    {
        let w = self.to_wide();
        w.has(word)
    }

    /// The same graph with every node widened to the editing form.
    pub fn to_wide(&self) -> (d: FlatDawg)
        requires
            self.wf(),
        ensures
            d@ == self@,
            d.wf(),
    {
        let mut nodes: Vec<WideNode> = Vec::new();
        let mut k: usize = 0;
        while k < self.nodes.len()
            invariant
                self.wf(),
                k <= self.nodes@.len(),
                nodes@.len() == k,
                forall|j: int| 0 <= j < k ==> (#[trigger] nodes@[j]@) == self@[j],
            decreases self.nodes@.len() - k,
        {
            nodes.push(self.nodes[k].to_wide());
            k += 1;
        }
        let d = FlatDawg { nodes };
        proof {
            assert(d@ =~= self@);
        }
        d
    }
}

impl FlatDawg {
    /// Renumbers breadth-first, then downcasts every node to the storage
    /// form.  Succeeds exactly when every reordered node has contiguous
    /// children, and then accepts the same words as before.
    pub fn to_thin(&mut self) -> (r: Result<ThinDawg, NonContiguous>)
        requires
            old(self).wf(),
            old(self)@.len() + 26 <= usize::MAX,
        ensures
            final(self).wf(),
            forall|w: Seq<u8>| accepts(final(self)@, 0, w) == accepts(old(self)@, 0, w),
            match r {
                Ok(t) => t.wf() && t@ == final(self)@,
                Err(_) => exists|j: int|
                    0 <= j < final(self)@.len() && !crate::node::thin::contiguous(
                        #[trigger] final(self)@[j],
                    ),
            },
    {
        self.trim();
        let mut nodes: Vec<ThinNode> = Vec::new();
        let mut k: usize = 0;
        while k < self.nodes.len()
            invariant
                self.wf(),
                self@.len() + 26 <= usize::MAX,
                forall|w: Seq<u8>| accepts(self@, 0, w) == accepts(old(self)@, 0, w),
                k <= self.nodes@.len(),
                nodes@.len() == k,
                forall|j: int| 0 <= j < k ==> thin_view(#[trigger] nodes@[j]) == self@[j],
                forall|j: int| 0 <= j < k ==> (#[trigger] nodes@[j]).idx + 26 <= usize::MAX,
            decreases self.nodes@.len() - k,
        {
            proof {
                assert(self@[k as int] == self.nodes@[k as int]@);
            }
            match ThinNode::from_wide(&self.nodes[k]) {
                Ok(t) => {
                    proof {
                        assert(thin_view(t).kids =~= self@[k as int].kids);
                        assert(thin_view(t) == self@[k as int]);
                        if t.idx != 0 {
                            let c = choose|c: u8|
                                c < 26 && self.nodes@[k as int]@.kids[c as int] == t.idx;
                            assert(self@[k as int].kids[c as int] < self@.len());
                        }
                    }
                    nodes.push(t);
                },
                Err(e) => {
                    proof {
                        assert(!crate::node::thin::contiguous(self@[k as int]));
                    }
                    return Err(e);
                },
            }
            k += 1;
        }
        let t = ThinDawg { nodes };
        proof {
            assert(t@ =~= self@);
        }
        Ok(t)
    }
}

impl ReadDawg for ThinDawg {
    /// Reading relies on a well-formed, acyclic graph.
    open spec fn inv(&self) -> bool {
        self.wf() && acyclic(self@)
    }

    open spec fn spec_has(&self, w: Seq<u8>) -> bool {
        accepts(self@, 0, w)
    }

    fn has(&self, word: &[u8]) -> (r: bool) {
        ThinDawg::has(self, word)
    }

    fn words(&self) -> (r: Vec<Vec<u8>>) {
        let wide = self.to_wide();
        let r = wide.word_vec();
        proof {
            let dv = r.deep_view();
            assert forall|k: int| 0 <= k < dv.len() implies self.spec_has(#[trigger] dv[k])
                && crate::model::valid_word(dv[k]) by {
                assert(dv.contains(dv[k]));
                lemma_accepts_symbols(self@, 0, dv[k]);
            }
        }
        r
    }
}

} // verus!

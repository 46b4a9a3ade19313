//! The flat graph: word addition, removal and membership.

use vstd::prelude::*;

use crate::model::{
    accepts, acyclic, attach, forward, graph_wf, lemma_accepts_walk, lemma_attach_quant,
    lemma_set_end_quant, lemma_walk_append, lemma_walk_prefix, lemma_walk_step,
    lemma_walked_prefix, set_end, single_parent, unshared, walk, walked_prefix, zero_kids,
    SpecNode,
};
use crate::node::wide::WideNode;
use crate::words::lemma_accepts_symbols;

verus! {

/// A DAWG stored as a flat list of nodes addressed by index; slot 0 is the
/// root.  An edge value of 0 means "no child", so no edge targets the root.
pub struct FlatDawg {
    /// The node array.
    pub nodes: Vec<WideNode>,
}

impl View for FlatDawg {
    type V = Seq<SpecNode>;

    open spec fn view(&self) -> Seq<SpecNode> {
        self.nodes@.map_values(|n: WideNode| n@)
    }
}

/// What `add` does to the accepted word set: nothing is lost, and the gained
/// words are exactly those walking to the same node as the added word.
pub open spec fn add_effect(g0: Seq<SpecNode>, g1: Seq<SpecNode>, w: Seq<u8>) -> bool {
    forall|v: Seq<u8>| accepts(g1, 0, v) == (accepts(g0, 0, v) || walk(g1, 0, v) == walk(g1, 0, w))
}

impl FlatDawg {
    /// The node array is a well-formed graph.
    pub open spec fn wf(&self) -> bool {
        graph_wf(self@)
    }

    /// The empty DAWG: a lone, non-accepting root.
    pub fn new() -> (d: FlatDawg)
        ensures
            d.wf(),
            d@.len() == 1,
            d@[0] == (SpecNode { end: false, kids: zero_kids() }),
            forall|w: Seq<u8>| !accepts(d@, 0, w),
            acyclic(d@),
            unshared(d@),
            forward(d@),
            single_parent(d@),
    {
        let mut nodes: Vec<WideNode> = Vec::new();
        nodes.push(WideNode::new());
        let d = FlatDawg { nodes };
        proof {
            assert(d@[0] == (SpecNode { end: false, kids: zero_kids() }));
            assert forall|w: Seq<u8>| walk(d@, 0, w) >= 0 implies w.len() == 0 by {
                if w.len() > 0 && w[0] < 26 {
                    assert(d@[0].kids[w[0] as int] == 0);
                }
            }
            assert forall|w: Seq<u8>| !accepts(d@, 0, w) by {
                if w.len() > 0 && w[0] < 26 {
                    assert(d@[0].kids[w[0] as int] == 0);
                }
            }
            assert forall|w1: Seq<u8>, w2: Seq<u8>|
                #[trigger] walk(d@, 0, w1) >= 0 && walk(d@, 0, w1) == #[trigger] walk(
                    d@,
                    0,
                    w2,
                ) implies w1 == w2 by {
                assert(w1.len() == 0 && w2.len() == 0);
                assert(w1 =~= w2);
            }
            assert(single_parent(d@)) by {
                assert forall|i1: int, c1: int, i2: int, c2: int|
                    0 <= i1 < d@.len() && 0 <= c1 < 26 && 0 <= i2 < d@.len() && 0 <= c2 < 26
                        && #[trigger] d@[i1].kids[c1] != 0 && #[trigger] d@[i2].kids[c2]
                        != 0 implies i1 == i2 && c1 == c2 by {
                    assert(d@[i1].kids[c1] == 0);
                }
            }
        }
        d
    }

    /// How many nodes the graph holds (including orphaned slots).
    pub fn node_count(&self) -> (r: usize)
        ensures
            r == self@.len(),
    {
        self.nodes.len()
    }

    /// Whether the graph accepts `word`.
    pub fn has(&self, word: &[u8]) -> (r: bool)
        requires
            self.wf(),
        ensures
            r == accepts(self@, 0, word@),
    {
        let ghost g = self@;
        let mut idx: usize = 0;
        let mut k: usize = 0;
        while k < word.len()
            invariant
                self.wf(),
                g == self@,
                k <= word@.len(),
                idx < g.len(),
                walk(g, 0, word@.take(k as int)) == idx,
            decreases word@.len() - k,
        {
            let c = word[k];
            proof {
                assert(word@.take(k + 1) =~= word@.take(k as int) + seq![word@[k as int]]);
                lemma_walk_append(g, 0, word@.take(k as int), seq![word@[k as int]]);
            }
            if c >= 26 {
                proof {
                    if accepts(g, 0, word@) {
                        lemma_accepts_symbols(g, 0, word@);
                    }
                }
                return false;
            }
            proof {
                assert(self@[idx as int] == self.nodes@[idx as int]@);
                lemma_walk_step(g, idx as int, c);
            }
            let t = self.nodes[idx].get(c);
            if t == 0 {
                proof {
                    assert(walk(g, idx as int, seq![word@[k as int]]) == -1);
                    assert(walk(g, 0, word@.take(k + 1)) == -1);
                    assert(word@ =~= word@.take(k + 1) + word@.skip(k + 1));
                    lemma_walk_append(g, 0, word@.take(k + 1), word@.skip(k + 1));
                    lemma_accepts_walk(g, 0, word@);
                }
                return false;
            }
            proof {
                assert(walk(g, idx as int, seq![word@[k as int]]) == t);
                assert(0 <= t < g.len());
            }
            idx = t;
            k += 1;
        }
        proof {
            assert(word@.take(k as int) =~= word@);
            lemma_accepts_walk(g, 0, word@);
            assert(self@[idx as int] == self.nodes@[idx as int]@);
        }
        let node = &self.nodes[idx];
        node.is_end()
    }

    /// Adds `word`, allocating exactly one fresh node per symbol of `word`
    /// past its walkable prefix, and returns whether it was already present.
    /// No acceptance is lost and no existing walk moves; on a prefix-tree
    /// graph exactly `word` is gained, and in general the gained words are
    /// those walking to the same node as `word`.
    #[verifier::rlimit(50)]
    #[verifier::spinoff_prover]
    pub fn add(&mut self, word: &[u8]) -> (r: bool)
        requires
            old(self).wf(),
            forall|k: int| 0 <= k < word@.len() ==> word@[k] < 26,
        ensures
            final(self).wf(),
            old(self)@.len() <= final(self)@.len() <= old(self)@.len() + word@.len(),
            final(self)@.len() == old(self)@.len() + word@.len() - walked_prefix(
                old(self)@,
                0,
                word@,
            ),
            r == accepts(old(self)@, 0, word@),
            walk(final(self)@, 0, word@) >= 0,
            forall|i: int, w: Seq<u8>|
                walk(old(self)@, i, w) >= 0 ==> walk(final(self)@, i, w) == walk(old(self)@, i, w),
            add_effect(old(self)@, final(self)@, word@),
            acyclic(old(self)@) ==> acyclic(final(self)@),
            forward(old(self)@) ==> forward(final(self)@),
            unshared(old(self)@) && acyclic(old(self)@) ==> unshared(final(self)@) && acyclic(
                final(self)@,
            ) && (forall|v: Seq<u8>|
                accepts(final(self)@, 0, v) == (accepts(old(self)@, 0, v) || v == word@)),
            single_parent(old(self)@) ==> single_parent(final(self)@),
    {
        let ghost g0 = old(self)@;
        let ghost wp = walked_prefix(g0, 0, word@);
        proof {
            lemma_walked_prefix(g0, 0, word@);
        }
        let mut idx: usize = 0;
        let mut k: usize = 0;
        while k < word.len()
            invariant
                self.wf(),
                graph_wf(g0),
                forall|j: int| 0 <= j < word@.len() ==> word@[j] < 26,
                k <= word@.len(),
                idx < self@.len(),
                g0.len() <= self@.len() <= g0.len() + k,
                wp == walked_prefix(g0, 0, word@),
                0 <= wp <= word@.len(),
                walk(g0, 0, word@.take(wp)) >= 0,
                wp < word@.len() ==> walk(g0, 0, word@.take(wp + 1)) < 0,
                k <= wp ==> self@ == g0,
                k > wp ==> self@.len() == g0.len() + k - wp && idx + 1 == self@.len() && (forall|
                    d: int,
                | 0 <= d < 26 ==> self@[idx as int].kids[d] == 0),
                walk(self@, 0, word@.take(k as int)) == idx,
                forall|i: int, w: Seq<u8>|
                    walk(g0, i, w) >= 0 ==> walk(self@, i, w) == walk(g0, i, w),
                forall|v: Seq<u8>| accepts(self@, 0, v) == accepts(g0, 0, v),
                acyclic(g0) ==> acyclic(self@),
                forward(g0) ==> forward(self@),
                unshared(g0) && acyclic(g0) ==> unshared(self@) && acyclic(self@),
                single_parent(g0) ==> single_parent(self@),
            decreases word@.len() - k,
        {
            let ghost gpre = self@;
            let c = word[k];
            proof {
                assert(self@[idx as int] == self.nodes@[idx as int]@);
                assert(word@.take(k + 1) =~= word@.take(k as int) + seq![word@[k as int]]);
                if (k as int) < wp {
                    // inside the walked prefix the edge is present
                    lemma_walk_prefix(g0, 0, word@.take(wp), k + 1);
                    assert(word@.take(wp).take(k + 1) =~= word@.take(k + 1));
                    lemma_walk_append(g0, 0, word@.take(k as int), seq![word@[k as int]]);
                    lemma_walk_step(g0, idx as int, c);
                    assert(g0[idx as int].kids[c as int] != 0);
                } else if k as int == wp && (k as int) < word@.len() {
                    // at the walked prefix's end the edge is missing
                    lemma_walk_append(g0, 0, word@.take(k as int), seq![word@[k as int]]);
                    lemma_walk_step(g0, idx as int, c);
                    assert(g0[idx as int].kids[c as int] == 0);
                }
            }
            let t = self.nodes[idx].get(c);
            proof {
                if (k as int) < wp {
                    assert(t != 0);
                } else {
                    assert(t == 0);
                }
            }
            if t == 0 {
                // allocate a fresh node and hang it behind the missing edge
                let fresh = self.nodes.len();
                self.nodes.push(WideNode::new());
                let newlen = self.nodes.len();
                proof {
                    assert(newlen == fresh + 1);
                    assert(gpre.len() < usize::MAX);
                }
                let node = &mut self.nodes[idx];
                node.set_kid(c, fresh);
                proof {
                    assert(self@ =~= attach(gpre, idx as int, c as int));
                    lemma_attach_quant(gpre, idx as int, c as int);
                    lemma_walk_append(self@, 0, word@.take(k as int), seq![word@[k as int]]);
                    lemma_walk_step(self@, idx as int, c);
                    assert(self@[idx as int].kids[c as int] == fresh);
                    assert(walk(self@, idx as int, seq![word@[k as int]]) == fresh);
                    assert(self@[fresh as int] == (SpecNode { end: false, kids: zero_kids() }));
                    assert(forall|d: int| 0 <= d < 26 ==> self@[fresh as int].kids[d] == 0);
                }
                idx = fresh;
            } else {
                proof {
                    lemma_walk_append(self@, 0, word@.take(k as int), seq![word@[k as int]]);
                    lemma_walk_step(self@, idx as int, c);
                    assert(walk(self@, idx as int, seq![word@[k as int]]) == t);
                    assert(0 <= t < self@.len());
                }
                idx = t;
            }
            k += 1;
        }
        proof {
            assert(word@.take(k as int) =~= word@);
        }
        let ghost gpre = self@;
        proof {
            assert(self@[idx as int] == self.nodes@[idx as int]@);
        }
        let node = &mut self.nodes[idx];
        let r = node.set_end(true);
        proof {
            assert(self@ =~= set_end(gpre, idx as int, true));
            lemma_set_end_quant(gpre, idx as int, true);
            lemma_accepts_walk(gpre, 0, word@);
            assert(r == accepts(gpre, 0, word@));
            assert(walk(gpre, 0, word@) == idx);
            assert(walk(self@, 0, word@) == idx);
            assert forall|v: Seq<u8>|
                accepts(self@, 0, v) == (accepts(g0, 0, v) || walk(self@, 0, v) == walk(
                    self@,
                    0,
                    word@,
                )) by {
                assert(accepts(self@, 0, v) == (if walk(gpre, 0, v) == idx {
                    true
                } else {
                    accepts(gpre, 0, v)
                }));
            }
            assert(add_effect(g0, self@, word@));
            if unshared(g0) && acyclic(g0) {
                assert forall|v: Seq<u8>|
                    accepts(self@, 0, v) == (accepts(g0, 0, v) || v == word@) by {
                    if walk(gpre, 0, v) == idx {
                        assert(v == word@);
                    }
                }
            }
        }
        r
    }

    /// Removes `word` if present, returning whether it was.  Only the
    /// accepting flag of the node `word` walks to changes; the structure and
    /// all other acceptance stay.
    pub fn sub(&mut self, word: &[u8]) -> (r: bool)
        requires
            old(self).wf(),
            forall|k: int| 0 <= k < word@.len() ==> word@[k] < 26,
        ensures
            final(self).wf(),
            final(self)@.len() == old(self)@.len(),
            r == accepts(old(self)@, 0, word@),
            walk(old(self)@, 0, word@) < 0 ==> final(self)@ == old(self)@,
            forall|i: int, w: Seq<u8>| walk(final(self)@, i, w) == walk(old(self)@, i, w),
            forall|v: Seq<u8>|
                accepts(final(self)@, 0, v) == (accepts(old(self)@, 0, v) && !(walk(
                    old(self)@,
                    0,
                    v,
                ) >= 0 && walk(old(self)@, 0, v) == walk(old(self)@, 0, word@))),
            acyclic(old(self)@) ==> acyclic(final(self)@),
            forward(old(self)@) ==> forward(final(self)@),
            unshared(old(self)@) ==> unshared(final(self)@),
            single_parent(old(self)@) ==> single_parent(final(self)@),
            unshared(old(self)@) ==> (forall|v: Seq<u8>|
                accepts(final(self)@, 0, v) == (accepts(old(self)@, 0, v) && v != word@)),
    {
        let ghost g0 = old(self)@;
        let mut idx: usize = 0;
        let mut k: usize = 0;
        while k < word.len()
            invariant
                self.wf(),
                self@ == g0,
                forall|j: int| 0 <= j < word@.len() ==> word@[j] < 26,
                k <= word@.len(),
                idx < g0.len(),
                walk(g0, 0, word@.take(k as int)) == idx,
            decreases word@.len() - k,
        {
            let c = word[k];
            proof {
                assert(self@[idx as int] == self.nodes@[idx as int]@);
                assert(word@.take(k + 1) =~= word@.take(k as int) + seq![word@[k as int]]);
                lemma_walk_append(g0, 0, word@.take(k as int), seq![word@[k as int]]);
                lemma_walk_step(g0, idx as int, word@[k as int]);
            }
            let t = self.nodes[idx].get(c);
            if t == 0 {
                proof {
                    assert(walk(g0, idx as int, seq![word@[k as int]]) == -1);
                    assert(walk(g0, 0, word@.take(k + 1)) == -1);
                    assert(word@ =~= word@.take(k + 1) + word@.skip(k + 1));
                    lemma_walk_append(g0, 0, word@.take(k + 1), word@.skip(k + 1));
                    lemma_accepts_walk(g0, 0, word@);
                    assert forall|v: Seq<u8>|
                        accepts(self@, 0, v) == (accepts(g0, 0, v) && !(walk(g0, 0, v) >= 0 && walk(
                            g0,
                            0,
                            v,
                        ) == walk(g0, 0, word@))) by {
                        if walk(g0, 0, v) >= 0 {
                        }
                    }
                }
                return false;
            }
            proof {
                assert(walk(g0, idx as int, seq![word@[k as int]]) == t);
                assert(0 <= t < g0.len());
            }
            idx = t;
            k += 1;
        }
        proof {
            assert(word@.take(k as int) =~= word@);
            lemma_accepts_walk(g0, 0, word@);
            assert(self@[idx as int] == self.nodes@[idx as int]@);
        }
        let node = &mut self.nodes[idx];
        let r = node.set_end(false);
        proof {
            assert(self@ =~= set_end(g0, idx as int, false));
            lemma_set_end_quant(g0, idx as int, false);
            assert(walk(g0, 0, word@) == idx);
            assert forall|v: Seq<u8>|
                accepts(self@, 0, v) == (accepts(g0, 0, v) && !(walk(g0, 0, v) >= 0 && walk(
                    g0,
                    0,
                    v,
                ) == walk(g0, 0, word@))) by {
                assert(accepts(self@, 0, v) == (if walk(g0, 0, v) == idx {
                    false
                } else {
                    accepts(g0, 0, v)
                }));
            }
            if unshared(g0) {
                assert forall|v: Seq<u8>|
                    accepts(self@, 0, v) == (accepts(g0, 0, v) && v != word@) by {
                    if walk(g0, 0, v) == idx {
                        assert(v == word@);
                    } else {
                        if accepts(g0, 0, v) && v == word@ {
                            lemma_accepts_walk(g0, 0, v);
                        }
                    }
                }
            }
        }
        r
    }
}

} // verus!

//! The transformation pipeline: `unlink`, `minimise`, `trim` and the
//! composite `clean`.  Each phase keeps the accepted word set unchanged.

use vstd::prelude::*;

use crate::dawg::flat::FlatDawg;
use crate::model::{
    accepts, acyclic, dead, forward, graph_wf, lemma_pump, lemma_pump_path, lemma_redirect_quant,
    lemma_same_value, lemma_walk_append, lemma_walk_range, lemma_walk_step, lemma_zero_dead_quant,
    reached, reached_count, set_kid, single_parent, unshared, walk, SpecNode,
};
use crate::node::wide::WideNode;

verus! {

/// Every walk from node `i` is shorter than `fuel`.
pub open spec fn walk_bounded(g: Seq<SpecNode>, i: int, fuel: nat) -> bool {
    forall|w: Seq<u8>| walk(g, i, w) >= 0 ==> w.len() < fuel
}

/// Every edge surviving below node `i` leads to a subgraph holding a word.
pub open spec fn live_edges_from(g: Seq<SpecNode>, i: int) -> bool {
    forall|w: Seq<u8>, c: int|
        0 <= c < 26 && walk(g, i, w) >= 0 && (#[trigger] g[walk(g, i, w)].kids[c]) != 0 ==> !dead(
            g,
            g[walk(g, i, w)].kids[c] as int,
        )
}

/// Edge liveness below a node survives a sweep that keeps acceptance, keeps
/// walk values, and only zeroes edges.
proof fn lemma_live_edges_stable(g1: Seq<SpecNode>, g2: Seq<SpecNode>, x: int)
    requires
        g1.len() == g2.len(),
        live_edges_from(g1, x),
        forall|j: int, w: Seq<u8>| accepts(g2, j, w) == accepts(g1, j, w),
        forall|j: int, w: Seq<u8>| walk(g2, j, w) >= 0 ==> walk(g2, j, w) == walk(g1, j, w),
        forall|j: int, d: int|
            0 <= j < g1.len() && 0 <= d < 26 ==> ((#[trigger] g2[j].kids[d]) == g1[j].kids[d]
                || g2[j].kids[d] == 0),
    ensures
        live_edges_from(g2, x),
{
    assert forall|w: Seq<u8>, c: int|
        0 <= c < 26 && walk(g2, x, w) >= 0 && (#[trigger] g2[walk(g2, x, w)].kids[c])
        != 0 implies !dead(g2, g2[walk(g2, x, w)].kids[c] as int) by {
        let e = walk(g2, x, w);
        assert(walk(g1, x, w) == e);
        lemma_walk_range(g2, x, w);
        assert(g2[e].kids[c] == g1[e].kids[c]);
        let kid = g1[e].kids[c] as int;
        assert(!dead(g1, kid));
        let v = choose|v: Seq<u8>| accepts(g1, kid, v);
        assert(accepts(g2, kid, v));
    }
}

/// In a graph whose surviving edges are all live, every non-empty walk from
/// the root extends to an accepted word.
proof fn lemma_live_edges_words(g: Seq<SpecNode>, w: Seq<u8>)
    requires
        graph_wf(g),
        live_edges_from(g, 0),
        walk(g, 0, w) >= 0,
        w.len() > 0,
    ensures
        exists|v: Seq<u8>| accepts(g, 0, w + v),
{
    let pre = w.drop_last();
    let last = w.last();
    assert(w =~= pre + seq![last]);
    lemma_walk_append(g, 0, pre, seq![last]);
    assert(walk(g, 0, pre) >= 0);
    let u = walk(g, 0, pre);
    lemma_walk_range(g, 0, pre);
    lemma_walk_step(g, u, last);
    assert(last < 26 && g[u].kids[last as int] != 0);
    let e = g[u].kids[last as int];
    assert(!dead(g, e as int));
    let v = choose|v: Seq<u8>| accepts(g, e as int, v);
    assert(walk(g, 0, w) == e);
    crate::model::lemma_accepts_compose(g, 0, w, v);
}

impl FlatDawg {
    /// Post-order sweep below node `i`: zeroes every edge that leads to a
    /// subgraph holding no word.  Returns whether node `i`'s own subgraph
    /// holds none (always exact when `fuel` bounds the walks below `i`).
    #[verifier::rlimit(60)]
    #[verifier::spinoff_prover]
    fn unlink_at(&mut self, i: usize, fuel: usize) -> (r: bool)
        requires
            old(self).wf(),
            i < old(self)@.len(),
        ensures
            final(self).wf(),
            final(self)@.len() == old(self)@.len(),
            forall|j: int| 0 <= j < old(self)@.len() ==> final(self)@[j].end == old(self)@[j].end,
            forall|j: int, d: int|
                0 <= j < old(self)@.len() && 0 <= d < 26 ==> ((#[trigger] final(self)@[j].kids[d])
                    == old(self)@[j].kids[d] || final(self)@[j].kids[d] == 0),
            forall|j: int, w: Seq<u8>| accepts(final(self)@, j, w) == accepts(old(self)@, j, w),
            forall|j: int, w: Seq<u8>|
                walk(final(self)@, j, w) >= 0 ==> walk(final(self)@, j, w) == walk(
                    old(self)@,
                    j,
                    w,
                ),
            forward(old(self)@) ==> forward(final(self)@),
            r ==> dead(final(self)@, i as int),
            walk_bounded(old(self)@, i as int, fuel as nat) ==> r == dead(old(self)@, i as int),
            walk_bounded(old(self)@, i as int, fuel as nat) ==> live_edges_from(
                final(self)@,
                i as int,
            ),
        decreases fuel, 27int,
    {
        let ghost g0 = self@;
        if fuel == 0 {
            proof {
                assert(walk(g0, i as int, Seq::<u8>::empty()) == i);
            }
            return false;
        }
        proof {
            assert(g0[i as int] == self.nodes@[i as int]@);
        }
        let mut empty = !self.nodes[i].is_end();
        let mut c: u8 = 0;
        while c < 26
            invariant
                self.wf(),
                graph_wf(g0),
                i < self@.len(),
                self@.len() == g0.len(),
                c <= 26,
                fuel >= 1,
                forall|j: int| 0 <= j < g0.len() ==> self@[j].end == g0[j].end,
                forall|j: int, d: int|
                    0 <= j < g0.len() && 0 <= d < 26 ==> (#[trigger] self@[j].kids[d]
                        == g0[j].kids[d] || self@[j].kids[d] == 0),
                forall|j: int, w: Seq<u8>| accepts(self@, j, w) == accepts(g0, j, w),
                forall|j: int, w: Seq<u8>|
                    walk(self@, j, w) >= 0 ==> walk(self@, j, w) == walk(g0, j, w),
                forward(g0) ==> forward(self@),
                empty ==> !g0[i as int].end,
                empty ==> forall|d: int| 0 <= d < c ==> #[trigger] self@[i as int].kids[d] == 0,
                walk_bounded(g0, i as int, fuel as nat) ==> (forall|d: int|
                    0 <= d < c && #[trigger] self@[i as int].kids[d] != 0 ==> !dead(
                        self@,
                        self@[i as int].kids[d] as int,
                    ) && live_edges_from(self@, self@[i as int].kids[d] as int)),
                walk_bounded(g0, i as int, fuel as nat) && !empty ==> (g0[i as int].end || exists|
                    d: int,
                |
                    0 <= d < c && #[trigger] g0[i as int].kids[d] != 0 && !dead(
                        g0,
                        g0[i as int].kids[d] as int,
                    )),
            decreases fuel, 26 - c,
        {
            let ghost gstart = self@;
            proof {
                assert(gstart[i as int] == self.nodes@[i as int]@);
            }
            let t = self.nodes[i].get(c);
            if t != 0 {
                proof {
                    assert(0 <= t < g0.len());
                    assert(t == g0[i as int].kids[c as int]);
                }
                let d_dead = self.unlink_at(t, fuel - 1);
                proof {
                    // walks below `t` before the recursion are bounded one
                    // tighter than those below `i` at entry
                    if walk_bounded(g0, i as int, fuel as nat) {
                        assert forall|w: Seq<u8>| walk(gstart, t as int, w) >= 0 implies w.len()
                            < fuel - 1 by {
                            assert(walk(g0, t as int, w) == walk(gstart, t as int, w));
                            lemma_walk_step(g0, i as int, c);
                            lemma_walk_append(g0, i as int, seq![c], w);
                            assert((seq![c] + w).len() == 1 + w.len());
                            assert(walk(g0, i as int, seq![c] + w) >= 0);
                        }
                        assert(walk_bounded(gstart, t as int, (fuel - 1) as nat));
                    }
                }
                if d_dead {
                    proof {
                        assert(self@[i as int] == self.nodes@[i as int]@);
                        assert(dead(self@, t as int));
                        assert(dead(g0, t as int)) by {
                            assert forall|w: Seq<u8>| !accepts(g0, t as int, w) by {
                                assert(accepts(self@, t as int, w) == accepts(g0, t as int, w));
                            }
                        }
                    }
                    let t2 = self.nodes[i].get(c);
                    if t2 != 0 {
                        let ghost gz = self@;
                        proof {
                            assert(t2 == t);
                        }
                        let node = &mut self.nodes[i];
                        node.set_kid(c, 0);
                        proof {
                            assert(self@ =~= set_kid(gz, i as int, c as int, 0));
                            lemma_zero_dead_quant(gz, i as int, c as int);
                        }
                    }
                    proof {
                        assert(self@[i as int].kids[c as int] == 0);
                        if empty {
                            // earlier zeroed slots stay zeroed through the
                            // recursion and the update
                            assert forall|d: int|
                                0 <= d < c + 1 implies #[trigger] self@[i as int].kids[d] == 0 by {
                                if d < c {
                                    assert(gstart[i as int].kids[d] == 0);
                                    assert(self@[i as int].kids[d] == gstart[i as int].kids[d]
                                        || self@[i as int].kids[d] == 0);
                                }
                            }
                        }
                        if walk_bounded(g0, i as int, fuel as nat) {
                            // the sweep below the child kept acceptance, walk
                            // values and surviving edges, so earlier children
                            // stay live below
                            assert forall|j: int, w: Seq<u8>|
                                accepts(self@, j, w) == accepts(gstart, j, w) by {}
                            assert forall|j: int, w: Seq<u8>|
                                walk(self@, j, w) >= 0 implies walk(self@, j, w) == walk(
                                gstart,
                                j,
                                w,
                            ) by {}
                            assert forall|j: int, d: int|
                                0 <= j < gstart.len() && 0 <= d < 26 implies ((
                            #[trigger] self@[j].kids[d]) == gstart[j].kids[d] || self@[j].kids[d]
                                == 0) by {}
                            assert forall|d: int|
                                0 <= d < c + 1 && (#[trigger] self@[i as int].kids[d])
                                != 0 implies !dead(self@, self@[i as int].kids[d] as int)
                                && live_edges_from(self@, self@[i as int].kids[d] as int) by {
                                assert(d != c);
                                let kid = self@[i as int].kids[d];
                                assert(kid == gstart[i as int].kids[d]);
                                assert(!dead(gstart, kid as int));
                                let v = choose|v: Seq<u8>| accepts(gstart, kid as int, v);
                                assert(accepts(self@, kid as int, v));
                                lemma_live_edges_stable(gstart, self@, kid as int);
                            }
                        }
                    }
                } else {
                    empty = false;
                    proof {
                        if walk_bounded(g0, i as int, fuel as nat) {
                            assert(!dead(gstart, t as int));
                            assert(!dead(g0, t as int)) by {
                                let w = choose|w: Seq<u8>| accepts(gstart, t as int, w);
                                assert(accepts(g0, t as int, w));
                            }
                            assert(0 <= c < c + 1 && g0[i as int].kids[c as int] != 0 && !dead(
                                g0,
                                g0[i as int].kids[c as int] as int,
                            ));
                            assert(!dead(self@, t as int)) by {
                                let w = choose|w: Seq<u8>| accepts(g0, t as int, w);
                                assert(accepts(self@, t as int, w));
                            }
                            // the child's own sweep leaves its subtree live
                            assert(live_edges_from(self@, t as int));
                            assert forall|d: int|
                                0 <= d < c + 1 && (#[trigger] self@[i as int].kids[d])
                                != 0 implies !dead(self@, self@[i as int].kids[d] as int)
                                && live_edges_from(self@, self@[i as int].kids[d] as int) by {
                                if d < c {
                                    let kid = self@[i as int].kids[d];
                                    assert(kid == gstart[i as int].kids[d]);
                                    assert(!dead(gstart, kid as int));
                                    let v = choose|v: Seq<u8>| accepts(gstart, kid as int, v);
                                    assert(accepts(self@, kid as int, v));
                                    lemma_live_edges_stable(gstart, self@, kid as int);
                                } else {
                                    assert(self@[i as int].kids[c as int] == t);
                                }
                            }
                        }
                    }
                }
            } else {
                proof {
                    if empty {
                        assert forall|d: int|
                            0 <= d < c + 1 implies #[trigger] self@[i as int].kids[d] == 0 by {
                            if d == c {
                                assert(self@[i as int].kids[c as int] == 0);
                            }
                        }
                    }
                }
            }
            c += 1;
        }
        proof {
            if empty {
                assert(dead(self@, i as int)) by {
                    assert forall|w: Seq<u8>| !accepts(self@, i as int, w) by {
                        if w.len() > 0 && w[0] < 26 {
                            assert(self@[i as int].kids[w[0] as int] == 0);
                        } else if w.len() == 0 {
                            assert(!self@[i as int].end);
                        }
                    }
                }
            }
            if walk_bounded(g0, i as int, fuel as nat) && !empty {
                if g0[i as int].end {
                    assert(accepts(g0, i as int, Seq::<u8>::empty()));
                } else {
                    let d = choose|d: int|
                        0 <= d < 26 && #[trigger] g0[i as int].kids[d] != 0 && !dead(
                            g0,
                            g0[i as int].kids[d] as int,
                        );
                    let t = g0[i as int].kids[d];
                    let w = choose|w: Seq<u8>| accepts(g0, t as int, w);
                    let full = seq![d as u8] + w;
                    assert(full[0] == d && full.drop_first() =~= w);
                    assert(accepts(g0, i as int, full));
                }
                assert(!dead(g0, i as int) ==> !empty);
            }
            if walk_bounded(g0, i as int, fuel as nat) {
                // every surviving edge below this node is live: the node's own
                // edges by the sweep, deeper ones by the children's sweeps
                assert forall|w: Seq<u8>, c2: int|
                    0 <= c2 < 26 && walk(self@, i as int, w) >= 0 && (#[trigger] self@[walk(
                        self@,
                        i as int,
                        w,
                    )].kids[c2]) != 0 implies !dead(
                    self@,
                    self@[walk(self@, i as int, w)].kids[c2] as int,
                ) by {
                    if w.len() == 0 {
                        assert(walk(self@, i as int, w) == i);
                    } else {
                        let d = w[0];
                        assert(w =~= seq![d] + w.drop_first());
                        lemma_walk_step(self@, i as int, d);
                        lemma_walk_append(self@, i as int, seq![d], w.drop_first());
                        let t = self@[i as int].kids[d as int];
                        assert(t != 0);
                        assert(live_edges_from(self@, t as int));
                        assert(walk(self@, t as int, w.drop_first()) == walk(self@, i as int, w));
                    }
                }
                assert(live_edges_from(self@, i as int));
            }
        }
        empty
    }

    /// Zeroes every edge leading to a subgraph without words, leaving orphaned
    /// slots behind; returns whether the whole graph is now word-free.  The
    /// word set is untouched, and afterwards every edge surviving anywhere
    /// below the root leads to a subgraph holding a word.
    pub fn unlink(&mut self) -> (r: bool)
        requires
            old(self).wf(),
        ensures
            final(self).wf(),
            final(self)@.len() == old(self)@.len(),
            forall|j: int| 0 <= j < old(self)@.len() ==> final(self)@[j].end == old(self)@[j].end,
            forall|j: int, d: int|
                0 <= j < old(self)@.len() && 0 <= d < 26 ==> ((#[trigger] final(self)@[j].kids[d])
                    == old(self)@[j].kids[d] || final(self)@[j].kids[d] == 0),
            forall|j: int, w: Seq<u8>| accepts(final(self)@, j, w) == accepts(old(self)@, j, w),
            forward(old(self)@) ==> forward(final(self)@),
            acyclic(old(self)@) ==> acyclic(final(self)@),
            unshared(old(self)@) ==> unshared(final(self)@),
            r ==> dead(final(self)@, 0),
            acyclic(old(self)@) ==> r == dead(old(self)@, 0),
            acyclic(old(self)@) ==> live_edges_from(final(self)@, 0),
    {
        let ghost g0 = self@;
        let n = self.nodes.len();
        let r = self.unlink_at(0, n);
        proof {
            if acyclic(g0) {
                assert(walk_bounded(g0, 0, n as nat));
            }
            if acyclic(g0) {
                assert forall|w: Seq<u8>| walk(self@, 0, w) >= 0 implies w.len() < self@.len() by {
                    assert(walk(self@, 0, w) == walk(g0, 0, w));
                }
            }
            if unshared(g0) {
                assert forall|w1: Seq<u8>, w2: Seq<u8>|
                    #[trigger] walk(self@, 0, w1) >= 0 && walk(self@, 0, w1) == #[trigger] walk(
                        self@,
                        0,
                        w2,
                    ) implies w1 == w2 by {
                    assert(walk(self@, 0, w1) == walk(g0, 0, w1));
                    assert(walk(self@, 0, w2) == walk(g0, 0, w2));
                }
            }
        }
        r
    }
}

/// Whether `x` is the registered representative of some table entry.
pub open spec fn is_rep(tbl: Seq<(WideNode, usize)>, x: usize) -> bool {
    exists|k: int| 0 <= k < tbl.len() && (#[trigger] tbl[k]).1 == x
}

/// A node value all of whose present children are registered representatives.
pub open spec fn canonical_node(tbl: Seq<(WideNode, usize)>, n: SpecNode) -> bool {
    forall|c: int| 0 <= c < 26 ==> (#[trigger] n.kids[c]) == 0 || is_rep(tbl, n.kids[c])
}

/// The canonicalisation table: each entry pairs a node value (the key) with
/// the first slot seen holding it (the representative).  Keys are pairwise
/// distinct, every representative still holds its key, and each key's present
/// children are representatives themselves.
pub open spec fn table_ok(g: Seq<SpecNode>, tbl: Seq<(WideNode, usize)>) -> bool {
    (forall|k: int| 0 <= k < tbl.len() ==> (#[trigger] tbl[k].0).wf() && 0 < tbl[k].1 < g.len())
        && (forall|k: int| 0 <= k < tbl.len() ==> g[(#[trigger] tbl[k]).1 as int] == tbl[k].0@)
        && (forall|k1: int, k2: int|
        0 <= k1 < k2 < tbl.len() ==> (#[trigger] tbl[k1].0)@ != (#[trigger] tbl[k2].0)@)
        && (forall|k: int, c: int|
        0 <= k < tbl.len() && 0 <= c < 26 && (#[trigger] tbl[k].0@.kids[c]) != 0 ==> is_rep(
            tbl,
            tbl[k].0@.kids[c],
        ))
}

/// An entry list that grew keeps its representatives and canonical values.
proof fn lemma_table_grow(t1: Seq<(WideNode, usize)>, t2: Seq<(WideNode, usize)>, n: SpecNode)
    requires
        t1.len() <= t2.len(),
        forall|k: int| 0 <= k < t1.len() ==> t2[k] == t1[k],
    ensures
        forall|x: usize| is_rep(t1, x) ==> is_rep(t2, x),
        canonical_node(t1, n) ==> canonical_node(t2, n),
{
    assert forall|x: usize| is_rep(t1, x) implies is_rep(t2, x) by {
        let k = choose|k: int| 0 <= k < t1.len() && (#[trigger] t1[k]).1 == x;
        assert(t2[k].1 == x);
    }
    if canonical_node(t1, n) {
        assert forall|c: int| 0 <= c < 26 implies (#[trigger] n.kids[c]) == 0 || is_rep(
            t2,
            n.kids[c],
        ) by {}
    }
}

/// A self-loop admits walks of every length.
proof fn lemma_loop_walk(g: Seq<SpecNode>, i: int, c: u8, k: nat)
    requires
        graph_wf(g),
        0 <= i < g.len(),
        c < 26,
        g[i].kids[c as int] == i,
        i != 0,
    ensures
        exists|w: Seq<u8>| #[trigger] walk(g, i, w) == i && w.len() == k,
    decreases k,
{
    if k == 0 {
        assert(walk(g, i, Seq::<u8>::empty()) == i);
    } else {
        lemma_loop_walk(g, i, c, (k - 1) as nat);
        let w0 = choose|w0: Seq<u8>| #[trigger] walk(g, i, w0) == i && w0.len() == k - 1;
        let w = w0 + seq![c];
        lemma_walk_append(g, i, w0, seq![c]);
        lemma_walk_step(g, i, c);
        assert(walk(g, i, w) == i && w.len() == k);
    }
}

/// The first table slot whose key equals `n`, if any.
fn table_find(tbl: &Vec<(WideNode, usize)>, n: &WideNode) -> (r: Option<usize>)
    requires
        forall|k: int| 0 <= k < tbl@.len() ==> (#[trigger] tbl@[k].0).wf(),
        n.wf(),
    ensures
        match r {
            Some(rep) => exists|k: int|
                0 <= k < tbl@.len() && (#[trigger] tbl@[k].0)@ == n@ && tbl@[k].1 == rep,
            None => forall|k: int| 0 <= k < tbl@.len() ==> (#[trigger] tbl@[k].0)@ != n@,
        },
{
    let mut k: usize = 0;
    while k < tbl.len()
        invariant
            forall|j: int| 0 <= j < tbl@.len() ==> (#[trigger] tbl@[j].0).wf(),
            n.wf(),
            k <= tbl@.len(),
            forall|j: int| 0 <= j < k ==> (#[trigger] tbl@[j].0)@ != n@,
        decreases tbl@.len() - k,
    {
        if tbl[k].0.same_as(n) {
            return Some(tbl[k].1);
        }
        k += 1;
    }
    None
}

impl FlatDawg {
    /// Repoints the edge `(i, c)` at the registered representative of the
    /// child's value.  Since the representative holds the very same value, no
    /// acceptance changes anywhere and no new walk appears.
    fn redirect_to_rep(&mut self, i: usize, c: u8, rep: usize, tbl: &Vec<(WideNode, usize)>)
        requires
            old(self).wf(),
            i < old(self)@.len(),
            c < 26,
            old(self)@[i as int].kids[c as int] != 0,
            table_ok(old(self)@, tbl@),
            exists|k: int|
                0 <= k < tbl@.len() && (#[trigger] tbl@[k].0)@ == old(self)@[old(self)@[
                i as int].kids[c as int] as int] && tbl@[k].1 == rep,
            rep != old(self)@[i as int].kids[c as int],
        ensures
            final(self).wf(),
            final(self)@.len() == old(self)@.len(),
            table_ok(final(self)@, tbl@),
            forall|j: int, w: Seq<u8>| accepts(final(self)@, j, w) == accepts(old(self)@, j, w),
            forall|j: int, w: Seq<u8>|
                walk(final(self)@, j, w) >= 0 ==> walk(old(self)@, j, w) >= 0,
            forall|j: int| 0 <= j < old(self)@.len() ==> final(self)@[j].end == old(self)@[j].end,
            forall|j: int|
                0 <= j < old(self)@.len() && j != i ==> final(self)@[j] == old(self)@[j],
            final(self)@[i as int] == (SpecNode {
                end: old(self)@[i as int].end,
                kids: old(self)@[i as int].kids.update(c as int, rep),
            }),
            is_rep(tbl@, rep),
    {
        let ghost gz = self@;
        let ghost t = gz[i as int].kids[c as int];
        proof {
            let k = choose|k: int|
                0 <= k < tbl@.len() && (#[trigger] tbl@[k].0)@ == gz[t as int] && tbl@[k].1 == rep;
            assert(gz[rep as int] == tbl@[k].0@);
            assert(gz[rep as int] == gz[t as int]);
            assert(0 < rep < gz.len());
            // `i` holds no table key: otherwise its child would be a
            // representative holding its own key, and the lookup would have
            // returned the child itself
            assert(!is_rep(tbl@, i)) by {
                if is_rep(tbl@, i) {
                    let m = choose|m: int| 0 <= m < tbl@.len() && (#[trigger] tbl@[m]).1 == i;
                    assert(tbl@[m].0@ == gz[i as int]);
                    assert(tbl@[m].0@.kids[c as int] == t);
                    assert(is_rep(tbl@, t as usize));
                    let m2 = choose|m2: int|
                        0 <= m2 < tbl@.len() && (#[trigger] tbl@[m2]).1 == t as usize;
                    assert(tbl@[m2].0@ == gz[t as int]);
                    assert(tbl@[m2].0@ == tbl@[k].0@);
                    assert(m2 == k);
                    assert(rep == t);
                }
            }
        }
        let node = &mut self.nodes[i];
        node.set_kid(c, rep);
        proof {
            assert(self@ =~= set_kid(gz, i as int, c as int, rep));
            lemma_redirect_quant(gz, i as int, c as int, rep);
            assert forall|k: int|
                0 <= k < tbl@.len() implies self@[(#[trigger] tbl@[k]).1 as int] == tbl@[k].0@ by {
                assert(tbl@[k].1 != i);
                assert(self@[tbl@[k].1 as int] == gz[tbl@[k].1 as int]);
            }
            assert(table_ok(self@, tbl@));
        }
    }

    /// Records slot `i` as the representative of its (canonical, fresh) value.
    fn register_rep(
        tbl: &mut Vec<(WideNode, usize)>,
        node: &WideNode,
        i: usize,
        Ghost(g): Ghost<Seq<SpecNode>>,
    )
        requires
            graph_wf(g),
            table_ok(g, old(tbl)@),
            node.wf(),
            0 < i < g.len(),
            node@ == g[i as int],
            forall|k: int| 0 <= k < old(tbl)@.len() ==> (#[trigger] old(tbl)@[k].0)@ != node@,
            canonical_node(old(tbl)@, node@),
        ensures
            table_ok(g, final(tbl)@),
            final(tbl)@.len() == old(tbl)@.len() + 1,
            forall|k: int| 0 <= k < old(tbl)@.len() ==> final(tbl)@[k] == old(tbl)@[k],
            (#[trigger] final(tbl)@[old(tbl)@.len() as int]).0@ == node@,
            final(tbl)@[old(tbl)@.len() as int].1 == i,
    {
        let dup = node.duplicate();
        let ghost tpre = tbl@;
        tbl.push((dup, i));
        proof {
            assert(tbl@ == tpre.push((dup, i)));
            assert forall|k: int|
                0 <= k < tbl@.len() implies (#[trigger] tbl@[k].0).wf() && 0 < tbl@[k].1
                < g.len() by {
                if k < tpre.len() {
                    assert(tbl@[k] == tpre[k]);
                }
            }
            assert forall|k: int|
                0 <= k < tbl@.len() implies g[(#[trigger] tbl@[k]).1 as int] == tbl@[k].0@ by {
                if k < tpre.len() {
                    assert(tbl@[k] == tpre[k]);
                }
            }
            assert forall|k1: int, k2: int|
                0 <= k1 < k2 < tbl@.len() implies (#[trigger] tbl@[k1].0)@ != (#[trigger] tbl@[
            k2].0)@ by {
                assert(tbl@[k1] == tpre[k1]);
                if k2 < tpre.len() {
                    assert(tbl@[k2] == tpre[k2]);
                }
            }
            assert forall|k: int, c: int|
                0 <= k < tbl@.len() && 0 <= c < 26 && (#[trigger] tbl@[k].0@.kids[c])
                != 0 implies is_rep(tbl@, tbl@[k].0@.kids[c]) by {
                if k < tpre.len() {
                    assert(tbl@[k] == tpre[k]);
                    assert(is_rep(tpre, tpre[k].0@.kids[c]));
                    lemma_table_grow(tpre, tbl@, node@);
                } else {
                    assert(tbl@[k].0@ == node@);
                    assert(is_rep(tpre, node@.kids[c]));
                    lemma_table_grow(tpre, tbl@, node@);
                }
            }
            assert(table_ok(g, tbl@));
        }
    }

    /// Post-order canonicalisation below node `i`: rewrites child edges to the
    /// registered representative of an equal node, then registers this node's
    /// own value if it is new.  Acceptance stays exactly as it was at every
    /// node, and no new walk appears.
    #[verifier::rlimit(100)]
    #[verifier::spinoff_prover]
    fn minimise_at(&mut self, i: usize, fuel: usize, tbl: &mut Vec<(WideNode, usize)>)
        requires
            old(self).wf(),
            i < old(self)@.len(),
            table_ok(old(self)@, old(tbl)@),
        ensures
            final(self).wf(),
            final(self)@.len() == old(self)@.len(),
            table_ok(final(self)@, final(tbl)@),
            old(tbl)@.len() <= final(tbl)@.len(),
            forall|k: int| 0 <= k < old(tbl)@.len() ==> final(tbl)@[k] == old(tbl)@[k],
            forall|j: int| 0 <= j < old(self)@.len() ==> final(self)@[j].end == old(self)@[j].end,
            forall|j: int, w: Seq<u8>| accepts(final(self)@, j, w) == accepts(old(self)@, j, w),
            forall|j: int, w: Seq<u8>|
                walk(final(self)@, j, w) >= 0 ==> walk(old(self)@, j, w) >= 0,
            forall|j: int|
                0 <= j < old(self)@.len() && canonical_node(old(tbl)@, old(self)@[j])
                    ==> final(self)@[j] == old(self)@[j],
            forall|j: int, d: int|
                0 <= j < old(self)@.len() && 0 <= d < 26 && (#[trigger] final(self)@[j].kids[d])
                    != old(self)@[j].kids[d] ==> is_rep(final(tbl)@, final(self)@[j].kids[d]),
            walk_bounded(old(self)@, i as int, fuel as nat) ==> canonical_node(
                final(tbl)@,
                final(self)@[i as int],
            ),
            walk_bounded(old(self)@, i as int, fuel as nat) && i != 0 ==> (exists|k: int|
                0 <= k < final(tbl)@.len() && (#[trigger] final(tbl)@[k].0)@ == final(self)@[
                i as int]),
        decreases fuel, 27int,
    {
        let ghost g0 = self@;
        let ghost tbl0 = tbl@;
        if fuel == 0 {
            proof {
                assert(walk(g0, i as int, Seq::<u8>::empty()) == i);
            }
            return;
        }
        // canonicalise the subgraphs below each child
        let mut c: u8 = 0;
        while c < 26
            invariant
                self.wf(),
                graph_wf(g0),
                i < self@.len(),
                self@.len() == g0.len(),
                c <= 26,
                fuel >= 1,
                table_ok(self@, tbl@),
                tbl0.len() <= tbl@.len(),
                forall|k: int| 0 <= k < tbl0.len() ==> tbl@[k] == tbl0[k],
                forall|j: int| 0 <= j < g0.len() ==> self@[j].end == g0[j].end,
                forall|j: int, w: Seq<u8>| accepts(self@, j, w) == accepts(g0, j, w),
                forall|j: int, w: Seq<u8>| walk(self@, j, w) >= 0 ==> walk(g0, j, w) >= 0,
                forall|j: int|
                    0 <= j < g0.len() && canonical_node(tbl0, g0[j]) ==> self@[j] == g0[j],
                forall|j: int, d: int|
                    0 <= j < g0.len() && 0 <= d < 26 && (#[trigger] self@[j].kids[d]) != g0[
                    j].kids[d] ==> is_rep(tbl@, self@[j].kids[d]),
                walk_bounded(g0, i as int, fuel as nat) ==> (forall|d: int|
                    0 <= d < c && (#[trigger] self@[i as int].kids[d]) != 0 ==> canonical_node(
                        tbl@,
                        self@[self@[i as int].kids[d] as int],
                    ) && (exists|k: int|
                        0 <= k < tbl@.len() && (#[trigger] tbl@[k].0)@ == self@[self@[
                        i as int].kids[d] as int])),
            decreases fuel, 26 - c,
        {
            let ghost gpre = self@;
            let ghost tpre = tbl@;
            proof {
                assert(gpre[i as int] == self.nodes@[i as int]@);
            }
            let t = self.nodes[i].get(c);
            if t != 0 {
                proof {
                    assert(0 <= t < g0.len());
                    if walk_bounded(g0, i as int, fuel as nat) && t == g0[i as int].kids[
                        c as int] {
                        assert forall|w: Seq<u8>| walk(gpre, t as int, w) >= 0 implies w.len()
                            < fuel - 1 by {
                            assert(walk(g0, t as int, w) >= 0);
                            lemma_walk_step(g0, i as int, c);
                            lemma_walk_append(g0, i as int, seq![c], w);
                            assert((seq![c] + w).len() == 1 + w.len());
                            assert(walk(g0, i as int, seq![c] + w) >= 0);
                        }
                        assert(walk_bounded(gpre, t as int, (fuel - 1) as nat));
                    }
                }
                self.minimise_at(t, fuel - 1, tbl);
                proof {
                    if walk_bounded(g0, i as int, fuel as nat) {
                        if t != g0[i as int].kids[c as int] {
                            // the edge was already repointed at a
                            // representative, whose value is canonical,
                            // registered and left untouched
                            assert(is_rep(tpre, t as usize));
                            let m = choose|m: int|
                                0 <= m < tpre.len() && (#[trigger] tpre[m]).1 == t as usize;
                            assert(gpre[t as int] == tpre[m].0@);
                            assert(canonical_node(tpre, gpre[t as int]));
                            assert(self@[t as int] == gpre[t as int]);
                            lemma_table_grow(tpre, tbl@, self@[t as int]);
                            assert(tbl@[m].0@ == self@[t as int]);
                        }
                    }
                }
            }
            proof {
                if walk_bounded(g0, i as int, fuel as nat) {
                    assert forall|d: int|
                        0 <= d < c + 1 && (#[trigger] self@[i as int].kids[d])
                        != 0 implies canonical_node(tbl@, self@[self@[i as int].kids[d] as int])
                        && (exists|k: int|
                        0 <= k < tbl@.len() && (#[trigger] tbl@[k].0)@ == self@[self@[
                        i as int].kids[d] as int]) by {
                        if d < c {
                            // earlier children stay canonical: their values
                            // were canonical before this child's call
                            let kd = gpre[i as int].kids[d];
                            assert(self@[i as int].kids[d] == kd || is_rep(
                                tbl@,
                                self@[i as int].kids[d],
                            ));
                            if self@[i as int].kids[d] == kd {
                                assert(canonical_node(tpre, gpre[kd as int]));
                                assert(self@[kd as int] == gpre[kd as int]);
                                lemma_table_grow(tpre, tbl@, gpre[kd as int]);
                                let k0 = choose|k0: int|
                                    0 <= k0 < tpre.len() && (#[trigger] tpre[k0].0)@ == gpre[
                                    kd as int];
                                assert(tbl@[k0].0@ == self@[kd as int]);
                            } else {
                                let kd2 = self@[i as int].kids[d];
                                let m = choose|m: int|
                                    0 <= m < tbl@.len() && (#[trigger] tbl@[m]).1 == kd2;
                                assert(self@[kd2 as int] == tbl@[m].0@);
                                assert forall|e: int|
                                    0 <= e < 26 implies (#[trigger] self@[kd2 as int].kids[e]) == 0
                                    || is_rep(tbl@, self@[kd2 as int].kids[e]) by {
                                    if self@[kd2 as int].kids[e] != 0 {
                                        assert(tbl@[m].0@.kids[e] != 0);
                                    }
                                }
                            }
                        }
                    }
                }
            }
            c += 1;
        }
        // repoint each child edge at its registered representative
        let ghost gmid = self@;
        let ghost tmid = tbl@;
        let mut all_canon = true;
        let mut c: u8 = 0;
        while c < 26
            invariant
                self.wf(),
                graph_wf(g0),
                graph_wf(gmid),
                i < self@.len(),
                self@.len() == g0.len(),
                gmid.len() == g0.len(),
                c <= 26,
                table_ok(self@, tbl@),
                tbl@ == tmid,
                tbl0.len() <= tbl@.len(),
                forall|k: int| 0 <= k < tbl0.len() ==> tbl@[k] == tbl0[k],
                forall|j: int| 0 <= j < g0.len() ==> self@[j].end == g0[j].end,
                forall|j: int, w: Seq<u8>| accepts(self@, j, w) == accepts(g0, j, w),
                forall|j: int, w: Seq<u8>| walk(self@, j, w) >= 0 ==> walk(g0, j, w) >= 0,
                forall|j: int|
                    0 <= j < g0.len() && canonical_node(tbl0, g0[j]) ==> self@[j] == g0[j],
                forall|j: int, d: int|
                    0 <= j < g0.len() && 0 <= d < 26 && (#[trigger] self@[j].kids[d]) != g0[
                    j].kids[d] ==> is_rep(tbl@, self@[j].kids[d]),
                forall|j: int| 0 <= j < g0.len() && j != i ==> self@[j] == gmid[j],
                forall|d: int|
                    c <= d < 26 ==> #[trigger] self@[i as int].kids[d] == gmid[i as int].kids[d],
                all_canon ==> (forall|d: int|
                    0 <= d < c ==> (#[trigger] self@[i as int].kids[d]) == 0 || is_rep(
                        tbl@,
                        self@[i as int].kids[d],
                    )),
                walk_bounded(g0, i as int, fuel as nat) ==> all_canon,
                walk_bounded(g0, i as int, fuel as nat) ==> (forall|d: int|
                    0 <= d < 26 && (#[trigger] gmid[i as int].kids[d]) != 0 ==> (exists|k: int|
                        0 <= k < tbl@.len() && (#[trigger] tbl@[k].0)@ == gmid[gmid[i as int].kids[
                        d] as int]) && gmid[gmid[i as int].kids[d] as int] == self@[gmid[
                        i as int].kids[d] as int]),
            decreases 26 - c,
        {
            proof {
                assert(self@[i as int] == self.nodes@[i as int]@);
            }
            let t = self.nodes[i].get(c);
            if t != 0 {
                proof {
                    assert(0 <= t < self@.len());
                    assert(self@[t as int] == self.nodes@[t as int]@);
                    if walk_bounded(g0, i as int, fuel as nat) {
                        // a self-loop would make walks of every length
                        if t == i {
                            lemma_loop_walk(self@, i as int, c, fuel as nat);
                            let w = choose|w: Seq<u8>|
                                #[trigger] walk(self@, i as int, w) == i && w.len() == fuel;
                            assert(walk(g0, i as int, w) >= 0);
                        }
                        assert(t != i);
                    }
                }
                let found = table_find(tbl, &self.nodes[t]);
                match found {
                    Some(rep) => {
                        if rep != t {
                            self.redirect_to_rep(i, c, rep, tbl);
                        }
                        proof {
                            assert(is_rep(tbl@, self@[i as int].kids[c as int])) by {
                                if rep != t {
                                } else {
                                    let k = choose|k: int|
                                        0 <= k < tbl@.len() && (#[trigger] tbl@[k].0)@ == self@[
                                        t as int] && tbl@[k].1 == rep;
                                    assert(tbl@[k].1 == t);
                                }
                            }
                        }
                    },
                    None => {
                        all_canon = false;
                        proof {
                            if walk_bounded(g0, i as int, fuel as nat) {
                                // the child's value is registered and stable,
                                // so the lookup cannot miss
                                assert(gmid[i as int].kids[c as int] == t);
                                let k = choose|k: int|
                                    0 <= k < tbl@.len() && (#[trigger] tbl@[k].0)@ == gmid[
                                    t as int];
                                assert(self@[t as int] == gmid[t as int]);
                                assert(tbl@[k].0@ == self@[t as int]);
                                assert(false);
                            }
                        }
                    },
                }
            }
            c += 1;
        }
        // register this node's (now canonical) value if it is new
        proof {
            assert(self@[i as int] == self.nodes@[i as int]@);
        }
        if i != 0 && all_canon {
            let found = table_find(tbl, &self.nodes[i]);
            match found {
                Some(_) => {},
                None => {
                    let ghost gfin = self@;
                    let node = &self.nodes[i];
                    FlatDawg::register_rep(tbl, node, i, Ghost(self@));
                    proof {
                        lemma_table_grow(tmid, tbl@, gfin[i as int]);
                    }
                },
            }
            proof {
                if walk_bounded(g0, i as int, fuel as nat) {
                    assert(exists|k: int|
                        0 <= k < tbl@.len() && (#[trigger] tbl@[k].0)@ == self@[i as int]);
                }
            }
        }
        proof {
            if walk_bounded(g0, i as int, fuel as nat) {
                assert(canonical_node(tbl@, self@[i as int]));
            }
        }
    }

    /// Rewrites edges so that equal subgraphs share one slot, leaving orphaned
    /// duplicates behind.  Membership of every word is unchanged everywhere,
    /// acyclicity is kept, and afterwards no two slots reachable from the
    /// root hold the same node value.
    pub fn minimise(&mut self)
        requires
            old(self).wf(),
        ensures
            final(self).wf(),
            final(self)@.len() == old(self)@.len(),
            forall|j: int| 0 <= j < old(self)@.len() ==> final(self)@[j].end == old(self)@[j].end,
            forall|j: int, w: Seq<u8>| accepts(final(self)@, j, w) == accepts(old(self)@, j, w),
            forall|j: int, w: Seq<u8>|
                walk(final(self)@, j, w) >= 0 ==> walk(old(self)@, j, w) >= 0,
            acyclic(old(self)@) ==> acyclic(final(self)@),
            acyclic(old(self)@) ==> (forall|x: int, y: int|
                reached(final(self)@, x) && reached(final(self)@, y) && x != y ==> final(self)@[x]
                    != final(self)@[y]),
    {
        let ghost g0 = self@;
        let mut tbl: Vec<(WideNode, usize)> = Vec::new();
        let n = self.nodes.len();
        self.minimise_at(0, n, &mut tbl);
        proof {
            let g2 = self@;
            if acyclic(g0) {
                assert(walk_bounded(g0, 0, n as nat));
                assert(acyclic(g2)) by {
                    assert forall|w: Seq<u8>| walk(g2, 0, w) >= 0 implies w.len() < g2.len() by {
                        assert(walk(g0, 0, w) >= 0);
                    }
                }
                assert(g2.len() <= usize::MAX) by {
                    assert(g2.len() == n);
                }
                assert forall|x: int, y: int|
                    reached(g2, x) && reached(g2, y) && x != y implies g2[x] != g2[y] by {
                    lemma_reached_is_rep(g2, tbl@, x);
                    lemma_reached_is_rep(g2, tbl@, y);
                    assert(x as usize as int == x && y as usize as int == y);
                    if x != 0 && y != 0 {
                        let kx = choose|kx: int|
                            0 <= kx < tbl@.len() && (#[trigger] tbl@[kx]).1 == x as usize;
                        let ky = choose|ky: int|
                            0 <= ky < tbl@.len() && (#[trigger] tbl@[ky]).1 == y as usize;
                        if g2[x] == g2[y] {
                            assert(tbl@[kx].0@ == g2[x]);
                            assert(tbl@[ky].0@ == g2[y]);
                            assert(kx == ky);
                        }
                    } else if g2[x] == g2[y] {
                        // one of them is the root: pumping the path to the
                        // other gives walks of every length
                        let j = if x == 0 {
                            y
                        } else {
                            x
                        };
                        assert(reached(g2, j));
                        let p = choose|p: Seq<u8>| #[trigger] walk(g2, 0, p) == j && j >= 0;
                        lemma_walk_range(g2, 0, p);
                        assert(0 <= j < g2.len());
                        assert(p.len() >= 1) by {
                            if p.len() == 0 {
                                assert(walk(g2, 0, p) == 0);
                            }
                        }
                        lemma_same_value(g2, 0, j, p);
                        assert(walk(g2, j, p) == j);
                        lemma_pump(g2, j, p);
                    }
                }
            }
        }
    }
}

/// After a full canonicalisation, every slot reachable from the root other
/// than the root itself is a registered representative.
proof fn lemma_reached_is_rep(g: Seq<SpecNode>, tbl: Seq<(WideNode, usize)>, x: int)
    requires
        graph_wf(g),
        g.len() <= usize::MAX,
        table_ok(g, tbl),
        canonical_node(tbl, g[0]),
        reached(g, x),
    ensures
        0 <= x < g.len(),
        x == 0 || is_rep(tbl, x as usize),
{
    let w = choose|w: Seq<u8>| #[trigger] walk(g, 0, w) == x && x >= 0;
    lemma_walk_range(g, 0, w);
    lemma_reached_is_rep_walk(g, tbl, w);
}

/// The walk-indexed form of [`lemma_reached_is_rep`].
proof fn lemma_reached_is_rep_walk(g: Seq<SpecNode>, tbl: Seq<(WideNode, usize)>, w: Seq<u8>)
    requires
        graph_wf(g),
        g.len() <= usize::MAX,
        table_ok(g, tbl),
        canonical_node(tbl, g[0]),
        walk(g, 0, w) >= 0,
    ensures
        walk(g, 0, w) == 0 || is_rep(tbl, walk(g, 0, w) as usize),
    decreases w.len(),
{
    if w.len() > 0 {
        let pre = w.drop_last();
        let last = w.last();
        assert(w =~= pre + seq![last]);
        lemma_walk_append(g, 0, pre, seq![last]);
        assert(walk(g, 0, pre) >= 0);
        lemma_reached_is_rep_walk(g, tbl, pre);
        let u = walk(g, 0, pre);
        lemma_walk_range(g, 0, pre);
        lemma_walk_step(g, u, last);
        if last < 26 && g[u].kids[last as int] != 0 {
            let v = g[u].kids[last as int];
            if u == 0 {
                assert(is_rep(tbl, v));
            } else {
                let k = choose|k: int| 0 <= k < tbl.len() && (#[trigger] tbl[k]).1 == u as usize;
                assert(0 <= u < g.len());
                assert(u as usize as int == u);
                assert(g[u] == tbl[k].0@);
                assert(tbl[k].0@.kids[last as int] != 0);
                assert(is_rep(tbl, v));
            }
        }
    }
}

/// A sequence of distinct values below `n` has at most `n` entries.
proof fn lemma_distinct_bound(s: Seq<usize>, n: int)
    requires
        0 <= n,
        forall|q: int| 0 <= q < s.len() ==> (#[trigger] s[q]) < n,
        forall|q1: int, q2: int| 0 <= q1 < q2 < s.len() ==> s[q1] != s[q2],
    ensures
        s.len() <= n,
{
    let si = s.map_values(|x: usize| x as int);
    assert(si.len() == s.len());
    assert forall|q1: int, q2: int|
        0 <= q1 < si.len() && 0 <= q2 < si.len() && q1 != q2 implies si[q1] != si[q2] by {
        assert(si[q1] == s[q1] as int && si[q2] == s[q2] as int);
    }
    assert(si.no_duplicates());
    si.unique_seq_to_set();
    assert forall|x: int| si.to_set().contains(x) implies vstd::set_lib::set_int_range(
        0,
        n,
    ).contains(x) by {
        assert(si.contains(x));
        let q = choose|q: int| 0 <= q < si.len() && si[q] == x;
        assert(s[q] < n);
    }
    assert(si.to_set().subset_of(vstd::set_lib::set_int_range(0, n)));
    vstd::set_lib::lemma_int_range(0, n);
    vstd::set_lib::lemma_len_subset(si.to_set(), vstd::set_lib::set_int_range(0, n));
}

/// Acceptance carries over from an old graph to its reordered copy: slot `q`
/// of the new graph is old slot `order[q]` with every edge renumbered.
proof fn lemma_remap_accepts(
    g: Seq<SpecNode>,
    g2: Seq<SpecNode>,
    order: Seq<usize>,
    idx_map: Seq<usize>,
    q: int,
    w: Seq<u8>,
)
    requires
        graph_wf(g),
        g2.len() == order.len(),
        0 <= q < order.len(),
        forall|x: int| 0 <= x < order.len() ==> (#[trigger] order[x]) < g.len(),
        idx_map.len() == g.len(),
        forall|j: int|
            0 <= j < g.len() && #[trigger] idx_map[j] != 0 ==> idx_map[j] < order.len() && order[
                idx_map[j] as int] == j,
        forall|x: int|
            0 <= x < order.len() ==> (#[trigger] g2[x]).end == g[order[x] as int].end
                && g2[x].kids.len() == 26,
        forall|x: int, d: int|
            0 <= x < order.len() && 0 <= d < 26 ==> #[trigger] g2[x].kids[d] == (if g[
                order[x] as int].kids[d] == 0 {
                0usize
            } else {
                idx_map[g[order[x] as int].kids[d] as int]
            }),
        forall|x: int, d: int|
            0 <= x < order.len() && 0 <= d < 26 && #[trigger] g[order[x] as int].kids[d] != 0
                ==> idx_map[g[order[x] as int].kids[d] as int] != 0,
    ensures
        accepts(g2, q, w) == accepts(g, order[q] as int, w),
    decreases w.len(),
{
    let i_old = order[q] as int;
    if w.len() == 0 {
    } else if w[0] < 26 {
        let t_old = g[i_old].kids[w[0] as int];
        let t_new = g2[q].kids[w[0] as int];
        if t_old != 0 {
            assert(t_new == idx_map[t_old as int]);
            assert(t_new != 0);
            assert(t_new < order.len() && order[t_new as int] == t_old);
            lemma_remap_accepts(g, g2, order, idx_map, t_new as int, w.drop_first());
        } else {
            assert(t_new == 0);
        }
    }
}

/// Walks carry over between an old graph and its reordered copy.
proof fn lemma_remap_walk(
    g: Seq<SpecNode>,
    g2: Seq<SpecNode>,
    order: Seq<usize>,
    idx_map: Seq<usize>,
    q: int,
    w: Seq<u8>,
)
    requires
        remap_shape(g, g2, order, idx_map),
        0 <= q < order.len(),
        q == idx_map[order[q] as int],
    ensures
        (walk(g2, q, w) >= 0) == (walk(g, order[q] as int, w) >= 0),
        walk(g, order[q] as int, w) >= 0 ==> walk(g2, q, w) == idx_map[walk(
            g,
            order[q] as int,
            w,
        ) as int],
    decreases w.len(),
{
    let i_old = order[q] as int;
    if w.len() == 0 {
    } else if w[0] < 26 {
        let t_old = g[i_old].kids[w[0] as int];
        let t_new = g2[q].kids[w[0] as int];
        if t_old != 0 {
            assert(t_new == idx_map[t_old as int]);
            assert(t_new != 0);
            assert(t_new < order.len() && order[t_new as int] == t_old);
            lemma_remap_walk(g, g2, order, idx_map, t_new as int, w.drop_first());
            if walk(g, i_old, w) >= 0 {
                lemma_walk_range(g, i_old, w);
            }
        } else {
            assert(t_new == 0);
        }
    }
}

/// Every root-reachable slot was discovered by the breadth-first scan: the
/// scan's closure leaves no walk endpoint unmapped.
proof fn lemma_reached_mapped(
    g: Seq<SpecNode>,
    order: Seq<usize>,
    idx_map: Seq<usize>,
    w: Seq<u8>,
)
    requires
        graph_wf(g),
        order.len() >= 1,
        order[0] == 0,
        idx_map.len() == g.len(),
        idx_map[0] == 0,
        forall|x: int| 0 <= x < order.len() ==> (#[trigger] order[x]) < g.len(),
        forall|j: int|
            0 <= j < g.len() && #[trigger] idx_map[j] != 0 ==> idx_map[j] < order.len() && order[
                idx_map[j] as int] == j,
        forall|x: int, d: int|
            0 <= x < order.len() && 0 <= d < 26 && #[trigger] g[order[x] as int].kids[d] != 0
                ==> idx_map[g[order[x] as int].kids[d] as int] != 0,
        walk(g, 0, w) >= 0,
    ensures
        walk(g, 0, w) == 0 || idx_map[walk(g, 0, w)] != 0,
    decreases w.len(),
{
    if w.len() > 0 {
        let pre = w.drop_last();
        let last = w.last();
        assert(w =~= pre + seq![last]);
        lemma_walk_append(g, 0, pre, seq![last]);
        assert(walk(g, 0, pre) >= 0);
        lemma_reached_mapped(g, order, idx_map, pre);
        let u = walk(g, 0, pre);
        lemma_walk_range(g, 0, pre);
        lemma_walk_step(g, u, last);
        if last < 26 && g[u].kids[last as int] != 0 {
            let x = if u == 0 {
                0int
            } else {
                idx_map[u] as int
            };
            assert(0 <= x < order.len() && order[x] == u);
            assert(idx_map[g[order[x] as int].kids[last as int] as int] != 0);
        }
    }
}

/// Every slot the breadth-first scan discovered is reachable from the root,
/// chasing each slot's discoverer back to the start.
proof fn lemma_order_reached(
    g: Seq<SpecNode>,
    order: Seq<usize>,
    idx_map: Seq<usize>,
    disc: Map<int, (int, int)>,
    q: int,
)
    requires
        graph_wf(g),
        order.len() >= 1,
        order[0] == 0,
        0 <= q < order.len(),
        forall|x: int| 0 <= x < order.len() ==> (#[trigger] order[x]) < g.len(),
        forall|x: int|
            1 <= x < order.len() ==> idx_map[#[trigger] order[x] as int] == x && order[x] != 0,
        idx_map.len() == g.len(),
        forall|x: int|
            0 <= x < g.len() && #[trigger] idx_map[x] != 0 ==> disc.contains_key(x) && 0 <= disc[
                x].0 && disc[x].0 < idx_map[x] && 0 <= disc[x].1 < 26 && disc[x].0 < order.len()
                && g[order[disc[x].0] as int].kids[disc[x].1] == x,
    ensures
        reached(g, order[q] as int),
    decreases q,
{
    if q == 0 {
        assert(walk(g, 0, Seq::<u8>::empty()) == 0);
        assert(reached(g, 0));
    } else {
        let x = order[q] as int;
        assert(idx_map[x] == q && x != 0);
        let qd = disc[x].0;
        let cd = disc[x].1;
        assert(qd < q);
        lemma_order_reached(g, order, idx_map, disc, qd);
        let u = order[qd] as int;
        let w0 = choose|w0: Seq<u8>| #[trigger] walk(g, 0, w0) == u && u >= 0;
        let w = w0 + seq![cd as u8];
        lemma_walk_append(g, 0, w0, seq![cd as u8]);
        lemma_walk_step(g, u, cd as u8);
        assert(walk(g, 0, w) == x);
        assert(reached(g, x));
    }
}

/// The shared shape facts between an old graph and its reordered copy.
spec fn remap_shape(
    g: Seq<SpecNode>,
    g2: Seq<SpecNode>,
    order: Seq<usize>,
    idx_map: Seq<usize>,
) -> bool {
    &&& graph_wf(g)
    &&& g2.len() == order.len()
    &&& order.len() >= 1
    &&& order[0] == 0
    &&& idx_map[0] == 0
    &&& (forall|x: int| 0 <= x < order.len() ==> (#[trigger] order[x]) < g.len())
    &&& (forall|x: int|
        1 <= x < order.len() ==> idx_map[#[trigger] order[x] as int] == x && order[x] != 0)
    &&& idx_map.len() == g.len()
    &&& (forall|j: int|
        0 <= j < g.len() && #[trigger] idx_map[j] != 0 ==> idx_map[j] < order.len() && order[
            idx_map[j] as int] == j && j != 0)
    &&& (forall|x: int|
        0 <= x < order.len() ==> (#[trigger] g2[x]).end == g[order[x] as int].end
            && g2[x].kids.len() == 26)
    &&& (forall|x: int, d: int|
        0 <= x < order.len() && 0 <= d < 26 ==> #[trigger] g2[x].kids[d] == (if g[
            order[x] as int].kids[d] == 0 {
            0usize
        } else {
            idx_map[g[order[x] as int].kids[d] as int]
        }))
    &&& (forall|x: int, d: int|
        0 <= x < order.len() && 0 <= d < 26 && #[trigger] g[order[x] as int].kids[d] != 0
            ==> idx_map[g[order[x] as int].kids[d] as int] != 0)
}

/// The reordered copy of an acyclic graph is acyclic: a walk as long as the
/// copy revisits a slot, and pumping that loop would make walks longer than
/// the old graph allows.
#[verifier::rlimit(100)]
#[verifier::spinoff_prover]
proof fn lemma_trim_acyclic(
    g: Seq<SpecNode>,
    g2: Seq<SpecNode>,
    order: Seq<usize>,
    idx_map: Seq<usize>,
)
    requires
        remap_shape(g, g2, order, idx_map),
        g2.len() <= usize::MAX,
        acyclic(g),
    ensures
        acyclic(g2),
{
    let m2 = g2.len() as int;
    assert forall|w: Seq<u8>| walk(g2, 0, w) >= 0 implies w.len() < g2.len() by {
        if w.len() >= g2.len() {
            let visited = Seq::<usize>::new(
                (m2 + 1) as nat,
                |k: int| walk(g2, 0, w.take(k)) as usize,
            );
            assert forall|k: int| 0 <= k < m2 + 1 implies 0 <= walk(
                g2,
                0,
                #[trigger] w.take(k),
            ) < m2 by {
                crate::model::lemma_walk_prefix(g2, 0, w, k);
                lemma_walk_range(g2, 0, w.take(k));
            }
            if forall|q1: int, q2: int|
                0 <= q1 < q2 < visited.len() ==> visited[q1] != visited[q2] {
                assert forall|q1: int|
                    0 <= q1 < visited.len() implies (#[trigger] visited[q1]) < m2 by {
                    assert(visited[q1] == walk(g2, 0, w.take(q1)) as usize);
                }
                lemma_distinct_bound(visited, m2);
            } else {
                let (q1, q2) = choose|q1: int, q2: int|
                    0 <= q1 < q2 < visited.len() && #[trigger] visited[q1] == #[trigger] visited[
                    q2];
                let v = walk(g2, 0, w.take(q1));
                assert(walk(g2, 0, w.take(q2)) == v) by {
                    crate::model::lemma_walk_prefix(g2, 0, w, q1);
                    crate::model::lemma_walk_prefix(g2, 0, w, q2);
                    assert(0 <= walk(g2, 0, w.take(q1)) < m2);
                    assert(0 <= walk(g2, 0, w.take(q2)) < m2);
                    assert(visited[q1] == walk(g2, 0, w.take(q1)) as usize);
                    assert(visited[q2] == walk(g2, 0, w.take(q2)) as usize);
                }
                let pre = w.take(q1);
                let p = w.subrange(q1, q2);
                assert(w.take(q2) =~= pre + p);
                lemma_walk_append(g2, 0, pre, p);
                assert(walk(g2, v, p) == v);
                lemma_pump_path(g2, pre, v, p, g.len() + 1);
                let wl = choose|wl: Seq<u8>|
                    #[trigger] walk(g2, 0, wl) == v && wl.len() >= g.len() + 1;
                lemma_remap_walk(g, g2, order, idx_map, 0, wl);
                assert(walk(g, 0, wl) >= 0);
            }
        }
    }
}

/// When no two reachable slots of the old graph hold the same value, no two
/// slots of the reordered copy do: the renumbering is injective on values.
#[verifier::rlimit(100)]
#[verifier::spinoff_prover]
proof fn lemma_trim_distinct(
    g: Seq<SpecNode>,
    g2: Seq<SpecNode>,
    order: Seq<usize>,
    idx_map: Seq<usize>,
)
    requires
        remap_shape(g, g2, order, idx_map),
        forall|x: int| 0 <= x < order.len() ==> reached(g, (#[trigger] order[x]) as int),
        forall|x: int, y: int| reached(g, x) && reached(g, y) && x != y ==> g[x] != g[y],
    ensures
        forall|q1: int, q2: int| 0 <= q1 < q2 < g2.len() ==> g2[q1] != g2[q2],
{
    assert forall|q1: int, q2: int| 0 <= q1 < q2 < g2.len() implies g2[q1] != g2[q2] by {
        let i = order[q1] as int;
        let j = order[q2] as int;
        assert(reached(g, i) && reached(g, j));
        assert(i != j) by {
            if order[q1] == order[q2] {
                if q1 == 0 {
                    assert(order[q2] != 0);
                } else {
                    assert(idx_map[order[q1] as int] == q1);
                    assert(idx_map[order[q2] as int] == q2);
                }
            }
        }
        assert(g[i] != g[j]);
        if g2[q1] == g2[q2] {
            assert(g[i].end == g[j].end);
            assert forall|d: int| 0 <= d < 26 implies g[i].kids[d] == g[j].kids[d] by {
                assert(g2[q1].kids[d] == g2[q2].kids[d]);
                if g[i].kids[d] == 0 || g[j].kids[d] == 0 {
                    if g[i].kids[d] != 0 {
                        assert(idx_map[g[i].kids[d] as int] != 0);
                        assert(g2[q1].kids[d] != 0);
                    }
                    if g[j].kids[d] != 0 {
                        assert(idx_map[g[j].kids[d] as int] != 0);
                        assert(g2[q2].kids[d] != 0);
                    }
                } else {
                    let a = g[i].kids[d];
                    let b = g[j].kids[d];
                    assert(idx_map[a as int] != 0 && idx_map[b as int] != 0);
                    assert(g2[q1].kids[d] == idx_map[a as int]);
                    assert(g2[q2].kids[d] == idx_map[b as int]);
                    assert(order[idx_map[a as int] as int] == a);
                    assert(order[idx_map[b as int] as int] == b);
                }
            }
            assert(g[i].kids =~= g[j].kids);
            assert(g[i] == g[j]);
        }
    }
}

/// Corresponding walk endpoints of an old graph and its reordered copy
/// accept the same words.
#[verifier::rlimit(100)]
#[verifier::spinoff_prover]
proof fn lemma_trim_endpoints(
    g: Seq<SpecNode>,
    g2: Seq<SpecNode>,
    order: Seq<usize>,
    idx_map: Seq<usize>,
)
    requires
        remap_shape(g, g2, order, idx_map),
    ensures
        forall|w: Seq<u8>, v: Seq<u8>|
            walk(g, 0, w) >= 0 ==> accepts(g2, walk(g2, 0, w), v) == accepts(
                g,
                walk(g, 0, w),
                v,
            ),
{
    assert forall|w: Seq<u8>, v: Seq<u8>| walk(g, 0, w) >= 0 implies accepts(
        g2,
        walk(g2, 0, w),
        v,
    ) == accepts(g, walk(g, 0, w), v) by {
        let x = walk(g, 0, w);
        lemma_walk_range(g, 0, w);
        lemma_remap_walk(g, g2, order, idx_map, 0, w);
        lemma_reached_mapped(g, order, idx_map, w);
        let x2 = walk(g2, 0, w);
        assert(x2 == idx_map[x]);
        assert(0 <= x2 < order.len() && order[x2] == x) by {
            if x == 0 {
                assert(idx_map[0] == 0);
            }
        }
        lemma_remap_accepts(g, g2, order, idx_map, x2, v);
    }
}

/// The reordered copy has exactly one slot per root-reachable old slot.
#[verifier::rlimit(100)]
#[verifier::spinoff_prover]
proof fn lemma_trim_count(
    g: Seq<SpecNode>,
    g2: Seq<SpecNode>,
    order: Seq<usize>,
    idx_map: Seq<usize>,
)
    requires
        graph_wf(g),
        g2.len() == order.len(),
        order.len() >= 1,
        order[0] == 0,
        idx_map.len() == g.len(),
        idx_map[0] == 0,
        forall|x: int| 0 <= x < order.len() ==> (#[trigger] order[x]) < g.len(),
        forall|x: int|
            1 <= x < order.len() ==> idx_map[#[trigger] order[x] as int] == x && order[x] != 0,
        forall|j: int|
            0 <= j < g.len() && #[trigger] idx_map[j] != 0 ==> idx_map[j] < order.len() && order[
                idx_map[j] as int] == j,
        forall|x: int, d: int|
            0 <= x < order.len() && 0 <= d < 26 && #[trigger] g[order[x] as int].kids[d] != 0
                ==> idx_map[g[order[x] as int].kids[d] as int] != 0,
        forall|x: int| 0 <= x < order.len() ==> reached(g, (#[trigger] order[x]) as int),
    ensures
        g2.len() == reached_count(g),
{
    let s_reach = Set::new(|i: int| reached(g, i));
    let oi = order.map_values(|x: usize| x as int);
    assert(oi.len() == order.len());
    assert forall|q1: int, q2: int|
        0 <= q1 < oi.len() && 0 <= q2 < oi.len() && q1 != q2 implies oi[q1] != oi[q2] by {
        assert(oi[q1] == order[q1] as int && oi[q2] == order[q2] as int);
        if order[q1] == order[q2] {
            if q1 == 0 || q2 == 0 {
                assert(order[if q1 == 0 {
                    q2
                } else {
                    q1
                }] != 0);
            } else {
                assert(idx_map[order[q1] as int] == q1);
                assert(idx_map[order[q2] as int] == q2);
            }
        }
    }
    assert forall|x: int| #[trigger] s_reach.contains(x) implies oi.contains(x) by {
        assert(reached(g, x));
        let w = choose|w: Seq<u8>| #[trigger] walk(g, 0, w) == x && x >= 0;
        lemma_walk_range(g, 0, w);
        lemma_reached_mapped(g, order, idx_map, w);
        if x == 0 {
            assert(oi[0] == 0);
        } else {
            assert(idx_map[x] != 0);
            assert(order[idx_map[x] as int] == x);
            assert(oi[idx_map[x] as int] == x);
        }
        assert(oi.contains(x));
    }
    assert forall|x: int| #[trigger] oi.contains(x) implies s_reach.contains(x) by {
        let q = choose|q: int| 0 <= q < oi.len() && oi[q] == x;
        assert(order[q] as int == x);
        assert(reached(g, x));
    }
    lemma_distinct_exact_count(oi, s_reach);
}

/// A set matched exactly by a duplicate-free listing has the listing's length.
proof fn lemma_distinct_exact_count(oi: Seq<int>, s: Set<int>)
    requires
        forall|q1: int, q2: int|
            0 <= q1 < oi.len() && 0 <= q2 < oi.len() && q1 != q2 ==> oi[q1] != oi[q2],
        forall|x: int| #[trigger] s.contains(x) <==> oi.contains(x),
    ensures
        s.len() == oi.len(),
{
    assert(oi.no_duplicates());
    oi.unique_seq_to_set();
    assert(oi.to_set() =~= s);
}

impl FlatDawg {
    /// Renumbers the reachable slots in breadth-first order from the root and
    /// drops the rest: the same words walk in both graphs, corresponding walk
    /// endpoints accept the same words, slot 0 carries the old root, and the
    /// result has exactly one slot per root-reachable old slot.  Acyclicity
    /// and value-distinctness are kept, and when no slot had two parents every
    /// edge climbs and children sit in symbol order.
    #[verifier::rlimit(100)]
    #[verifier::spinoff_prover]
    pub fn trim(&mut self)
        requires
            old(self).wf(),
        ensures
            final(self).wf(),
            final(self)@.len() <= old(self)@.len(),
            forall|w: Seq<u8>| accepts(final(self)@, 0, w) == accepts(old(self)@, 0, w),
            single_parent(old(self)@) ==> forward(final(self)@),
            single_parent(old(self)@) ==> (forall|q: int, d1: int, d2: int|
                0 <= q < final(self)@.len() && 0 <= d1 < d2 < 26
                    && (#[trigger] final(self)@[q].kids[d1]) != 0
                    && (#[trigger] final(self)@[q].kids[d2]) != 0
                    ==> final(self)@[q].kids[d1] < final(self)@[q].kids[d2]),
            acyclic(old(self)@) ==> acyclic(final(self)@),
            forall|q: int| 0 <= q < final(self)@.len() ==> reached(final(self)@, q),
            forall|w: Seq<u8>| (walk(final(self)@, 0, w) >= 0) == (walk(old(self)@, 0, w) >= 0),
            forall|w: Seq<u8>, v: Seq<u8>|
                walk(old(self)@, 0, w) >= 0 ==> accepts(
                    final(self)@,
                    walk(final(self)@, 0, w),
                    v,
                ) == accepts(old(self)@, walk(old(self)@, 0, w), v),
            final(self)@[0].end == old(self)@[0].end,
            forall|c: int|
                0 <= c < 26 ==> ((#[trigger] final(self)@[0].kids[c]) == 0) == (old(self)@[0].kids[
                    c] == 0),
            final(self)@.len() == reached_count(old(self)@),
            (forall|x: int, y: int|
                reached(old(self)@, x) && reached(old(self)@, y) && x != y ==> old(self)@[x] != old(
                    self,
                )@[y]) ==> (forall|q1: int, q2: int|
                0 <= q1 < q2 < final(self)@.len() ==> final(self)@[q1] != final(self)@[q2]),
    {
        let ghost g = self@;
        let n = self.nodes.len();
        let mut idx_map: Vec<usize> = Vec::new();
        let mut j: usize = 0;
        while j < n
            invariant
                idx_map@.len() == j,
                j <= n,
                forall|x: int| 0 <= x < j ==> idx_map@[x] == 0,
            decreases n - j,
        {
            idx_map.push(0);
            j += 1;
        }
        let mut order: Vec<usize> = Vec::new();
        order.push(0);
        let ghost mut disc: Map<int, (int, int)> = Map::empty();
        let mut p: usize = 0;
        while p < order.len()
            invariant
                self.wf(),
                g == self@,
                self@.len() == n,
                idx_map@.len() == n,
                order@.len() >= 1,
                order@[0] == 0,
                idx_map@[0] == 0,
                p <= order@.len(),
                order@.len() <= n,
                forall|q: int| 0 <= q < order@.len() ==> (#[trigger] order@[q]) < n,
                forall|q: int|
                    1 <= q < order@.len() ==> idx_map@[#[trigger] order@[q] as int] == q && order@[q]
                        != 0,
                forall|x: int|
                    0 <= x < n && #[trigger] idx_map@[x] != 0 ==> idx_map@[x] < order@.len()
                        && order@[idx_map@[x] as int] == x && x != 0,
                forall|q: int, d: int|
                    0 <= q < p && 0 <= d < 26 && #[trigger] g[order@[q] as int].kids[d] != 0
                        ==> idx_map@[g[order@[q] as int].kids[d] as int] != 0,
                forall|x: int|
                    0 <= x < n && #[trigger] idx_map@[x] != 0 ==> disc.contains_key(x) && 0 <= disc[
                        x].0 < p && disc[x].0 < idx_map@[x] && 0 <= disc[x].1 < 26 && g[order@[disc[
                        x].0] as int].kids[disc[x].1] == x,
                single_parent(g) ==> (forall|q: int, d: int|
                    0 <= q < p && 0 <= d < 26 && #[trigger] g[order@[q] as int].kids[d] != 0
                        ==> idx_map@[g[order@[q] as int].kids[d] as int] > q),
                single_parent(g) ==> (forall|q: int, d1: int, d2: int|
                    0 <= q < p && 0 <= d1 < d2 < 26 && #[trigger] g[order@[q] as int].kids[d1] != 0
                        && #[trigger] g[order@[q] as int].kids[d2] != 0 ==> idx_map@[g[
                        order@[q] as int].kids[d1] as int] < idx_map@[g[order@[q] as int].kids[
                        d2] as int]),
            decreases n - p,
        {
            let i_old = order[p];
            proof {
                assert(g[i_old as int] == self.nodes@[i_old as int]@);
            }
            let mut c: u8 = 0;
            while c < 26
                invariant
                    self.wf(),
                    g == self@,
                    self@.len() == n,
                    idx_map@.len() == n,
                    order@.len() >= 1,
                    order@[0] == 0,
                    idx_map@[0] == 0,
                    p < order@.len(),
                    order@.len() <= n,
                    i_old == order@[p as int],
                    i_old < n,
                    c <= 26,
                    forall|q: int| 0 <= q < order@.len() ==> (#[trigger] order@[q]) < n,
                    forall|q: int|
                        1 <= q < order@.len() ==> idx_map@[#[trigger] order@[q] as int] == q
                            && order@[q] != 0,
                    forall|x: int|
                        0 <= x < n && #[trigger] idx_map@[x] != 0 ==> idx_map@[x] < order@.len()
                            && order@[idx_map@[x] as int] == x && x != 0,
                    forall|q: int, d: int|
                        0 <= q < p && 0 <= d < 26 && #[trigger] g[order@[q] as int].kids[d] != 0
                            ==> idx_map@[g[order@[q] as int].kids[d] as int] != 0,
                    forall|d: int|
                        0 <= d < c && #[trigger] g[i_old as int].kids[d] != 0 ==> idx_map@[g[
                        i_old as int].kids[d] as int] != 0,
                    forall|x: int|
                        0 <= x < n && #[trigger] idx_map@[x] != 0 ==> disc.contains_key(x) && 0
                            <= disc[x].0 && disc[x].0 < idx_map@[x] && 0 <= disc[x].1 < 26 && disc[
                        x].0 < order@.len() && g[order@[disc[x].0] as int].kids[disc[x].1] == x && (
                        disc[x].0 < p || (disc[x].0 == p && disc[x].1 < c)),
                    single_parent(g) ==> (forall|q: int, d: int|
                        0 <= q < p && 0 <= d < 26 && #[trigger] g[order@[q] as int].kids[d] != 0
                            ==> idx_map@[g[order@[q] as int].kids[d] as int] > q),
                    single_parent(g) ==> (forall|d: int|
                        0 <= d < c && #[trigger] g[i_old as int].kids[d] != 0 ==> idx_map@[g[
                        i_old as int].kids[d] as int] > p),
                    single_parent(g) ==> (forall|q: int, d1: int, d2: int|
                        0 <= q < p && 0 <= d1 < d2 < 26 && #[trigger] g[order@[q] as int].kids[d1]
                            != 0 && #[trigger] g[order@[q] as int].kids[d2] != 0 ==> idx_map@[g[
                            order@[q] as int].kids[d1] as int] < idx_map@[g[order@[q] as int].kids[
                            d2] as int]),
                    single_parent(g) ==> (forall|d1: int, d2: int|
                        0 <= d1 < d2 < c && #[trigger] g[i_old as int].kids[d1] != 0 && #[trigger]
                            g[i_old as int].kids[d2] != 0 ==> idx_map@[g[i_old as int].kids[
                            d1] as int] < idx_map@[g[i_old as int].kids[d2] as int]),
                decreases 26 - c,
            {
                proof {
                    assert(g[i_old as int] == self.nodes@[i_old as int]@);
                }
                let t = self.nodes[i_old].get(c);
                if t != 0 {
                    proof {
                        assert(t == g[i_old as int].kids[c as int]);
                        assert(0 <= t < n);
                    }
                    if idx_map[t] == 0 {
                        let pos = order.len();
                        let ghost order_pre = order@;
                        let slot = &mut idx_map[t];
                        *slot = pos;
                        order.push(t);
                        proof {
                            disc = disc.insert(t as int, (p as int, c as int));
                            assert(order@ == order_pre.push(t));
                            assert forall|q1: int, q2: int|
                                0 <= q1 < q2 < order@.len() implies order@[q1] != order@[q2] by {
                                if q2 < order@.len() - 1 {
                                    if q1 == 0 {
                                        assert(order@[q2] != 0);
                                    } else {
                                        assert(idx_map@[order@[q1] as int] == q1);
                                        assert(idx_map@[order@[q2] as int] == q2);
                                    }
                                } else {
                                    // the pushed entry was unmapped before
                                    if q1 == 0 {
                                        assert(order@[q2] == t && t != 0);
                                    } else {
                                        assert(order@[q1] == order_pre[q1]);
                                    }
                                }
                            }
                            lemma_distinct_bound(order@, n as int);
                        }
                    } else {
                        proof {
                            if single_parent(g) {
                                // a second edge into an already-discovered
                                // node contradicts the single-parent shape
                                let qd = disc[t as int].0;
                                let cd = disc[t as int].1;
                                assert(g[order@[qd] as int].kids[cd] == t);
                                assert(g[i_old as int].kids[c as int] == t);
                                assert(qd < p || (qd == p && cd < c));
                                if qd != p {
                                    assert(order@[qd] != order@[p as int]) by {
                                        if order@[qd] == order@[p as int] {
                                            if qd >= 1 && p >= 1 {
                                                assert(idx_map@[order@[qd] as int] == qd);
                                            } else if qd == 0 {
                                                assert(order@[p as int] != 0);
                                            } else {
                                                assert(order@[qd] != 0);
                                            }
                                        }
                                    }
                                    assert(order@[qd] as int == i_old as int && cd == c as int);
                                    assert(false);
                                } else {
                                    assert(cd == c as int);
                                    assert(false);
                                }
                            }
                        }
                    }
                }
                c += 1;
            }
            p += 1;
        }
        proof {
            // every discovered slot is reachable, chasing discoverers back to
            // the root
            assert forall|q: int| 0 <= q < order@.len() implies reached(
                g,
                order@[q] as int,
            ) by {
                lemma_order_reached(g, order@, idx_map@, disc, q);
            }
        }
        // rebuild the node array in the new order
        let m = order.len();
        let mut new_nodes: Vec<WideNode> = Vec::new();
        let mut q: usize = 0;
        while q < m
            invariant
                self.wf(),
                g == self@,
                self@.len() == n,
                idx_map@.len() == n,
                m == order@.len(),
                order@.len() >= 1,
                order@[0] == 0,
                q <= m,
                new_nodes@.len() == q,
                forall|x: int| 0 <= x < order@.len() ==> (#[trigger] order@[x]) < n,
                forall|x: int| 0 <= x < order@.len() ==> reached(g, (#[trigger] order@[x]) as int),
                forall|x: int|
                    1 <= x < order@.len() ==> idx_map@[#[trigger] order@[x] as int] == x && order@[x]
                        != 0,
                forall|x: int|
                    0 <= x < n && #[trigger] idx_map@[x] != 0 ==> idx_map@[x] < order@.len()
                        && order@[idx_map@[x] as int] == x && x != 0,
                forall|x: int, d: int|
                    0 <= x < order@.len() && 0 <= d < 26 && #[trigger] g[order@[x] as int].kids[d]
                        != 0 ==> idx_map@[g[order@[x] as int].kids[d] as int] != 0,
                single_parent(g) ==> (forall|x: int, d: int|
                    0 <= x < order@.len() && 0 <= d < 26 && #[trigger] g[order@[x] as int].kids[d]
                        != 0 ==> idx_map@[g[order@[x] as int].kids[d] as int] > x),
                single_parent(g) ==> (forall|x: int, d1: int, d2: int|
                    0 <= x < order@.len() && 0 <= d1 < d2 < 26 && #[trigger] g[
                    order@[x] as int].kids[d1] != 0 && #[trigger] g[order@[x] as int].kids[d2] != 0
                        ==> idx_map@[g[order@[x] as int].kids[d1] as int] < idx_map@[g[
                        order@[x] as int].kids[d2] as int]),
                forall|x: int|
                    0 <= x < q ==> (#[trigger] new_nodes@[x]@).end == g[order@[x] as int].end
                        && new_nodes@[x]@.kids.len() == 26,
                forall|x: int, d: int|
                    0 <= x < q && 0 <= d < 26 ==> #[trigger] new_nodes@[x]@.kids[d] == (if g[
                    order@[x] as int].kids[d] == 0 {
                        0usize
                    } else {
                        idx_map@[g[order@[x] as int].kids[d] as int]
                    }),
            decreases m - q,
        {
            let i_old = order[q];
            proof {
                assert(g[i_old as int] == self.nodes@[i_old as int]@);
            }
            let end = self.nodes[i_old].is_end();
            let mut kids: Vec<usize> = Vec::new();
            let mut d: u8 = 0;
            while d < 26
                invariant
                    self.wf(),
                    g == self@,
                    self@.len() == n,
                    idx_map@.len() == n,
                    i_old == order@[q as int],
                    q < order@.len(),
                    i_old < n,
                    d <= 26,
                    kids@.len() == d,
                    forall|x: int|
                        0 <= x < n && #[trigger] idx_map@[x] != 0 ==> idx_map@[x] < order@.len(),
                    forall|e: int|
                        0 <= e < d ==> #[trigger] kids@[e] == (if g[i_old as int].kids[e] == 0 {
                            0usize
                        } else {
                            idx_map@[g[i_old as int].kids[e] as int]
                        }),
                decreases 26 - d,
            {
                proof {
                    assert(g[i_old as int] == self.nodes@[i_old as int]@);
                }
                let t = self.nodes[i_old].get(d);
                if t == 0 {
                    kids.push(0);
                } else {
                    proof {
                        assert(t == g[i_old as int].kids[d as int]);
                        assert(0 <= t < n);
                    }
                    kids.push(idx_map[t]);
                }
                d += 1;
            }
            new_nodes.push(WideNode { end, kids });
            q += 1;
        }
        let ghost order_s = order@;
        let ghost idx_map_s = idx_map@;
        self.nodes = new_nodes;
        proof {
            let g2 = self@;
            assert(g2.len() == order_s.len());
            assert forall|x: int| 0 <= x < order_s.len() implies (#[trigger] g2[x]).end == g[
                order_s[x] as int].end && g2[x].kids.len() == 26 by {
                assert(g2[x] == self.nodes@[x]@);
            }
            assert forall|x: int, d: int|
                0 <= x < order_s.len() && 0 <= d < 26 implies #[trigger] g2[x].kids[d] == (if g[
            order_s[x] as int].kids[d] == 0 {
                0usize
            } else {
                idx_map_s[g[order_s[x] as int].kids[d] as int]
            }) by {
                assert(g2[x] == self.nodes@[x]@);
            }
            assert(graph_wf(g2)) by {
                assert forall|x: int| 0 <= x < g2.len() implies crate::model::node_wf(
                    #[trigger] g2[x],
                    g2.len() as int,
                ) by {
                    assert forall|d: int| 0 <= d < 26 implies (#[trigger] g2[x].kids[d])
                        < g2.len() by {
                        if g[order_s[x] as int].kids[d] != 0 {
                            assert(idx_map_s[g[order_s[x] as int].kids[d] as int] != 0);
                        }
                    }
                }
            }
            assert forall|w: Seq<u8>| accepts(g2, 0, w) == accepts(g, 0, w) by {
                lemma_remap_accepts(g, g2, order_s, idx_map_s, 0, w);
            }
            assert(remap_shape(g, g2, order_s, idx_map_s));
            assert forall|w: Seq<u8>| (walk(g2, 0, w) >= 0) == (walk(g, 0, w) >= 0) by {
                lemma_remap_walk(g, g2, order_s, idx_map_s, 0, w);
            }
            lemma_trim_endpoints(g, g2, order_s, idx_map_s);
            lemma_trim_count(g, g2, order_s, idx_map_s);
            assert(g2[0].end == g[0].end);
            assert forall|c: int|
                0 <= c < 26 implies ((#[trigger] g2[0].kids[c]) == 0) == (g[0].kids[c] == 0) by {
                if g[0].kids[c] != 0 {
                    assert(idx_map_s[g[0].kids[c] as int] != 0);
                }
            }
            assert forall|q: int| 0 <= q < g2.len() implies reached(g2, q) by {
                // carry the old reachability witness through the renumbering
                let v = order_s[q] as int;
                assert(reached(g, v));
                let w = choose|w: Seq<u8>| #[trigger] walk(g, 0, w) == v && v >= 0;
                lemma_remap_walk(g, g2, order_s, idx_map_s, 0, w);
                assert(walk(g2, 0, w) == idx_map_s[v]);
                if q == 0 {
                    assert(walk(g2, 0, w) == 0);
                } else {
                    assert(idx_map_s[order_s[q] as int] == q);
                }
                assert(walk(g2, 0, w) == q);
            }
            if acyclic(g) {
                assert(g2.len() <= usize::MAX) by {
                    assert(g2.len() == m);
                }
                lemma_trim_acyclic(g, g2, order_s, idx_map_s);
            }
            if forall|x: int, y: int|
                reached(g, x) && reached(g, y) && x != y ==> g[x] != g[y] {
                lemma_trim_distinct(g, g2, order_s, idx_map_s);
            }
            if single_parent(g) {
                assert(forward(g2)) by {
                    assert forall|q: int, d: int|
                        0 <= q < g2.len() && 0 <= d < 26 && g2[q].kids.len() == 26 && #[trigger] g2[
                    q].kids[d] != 0 implies q < g2[q].kids[d] < g2.len() by {
                        assert(g[order_s[q] as int].kids[d] != 0);
                        assert(g2[q].kids[d] == idx_map_s[g[order_s[q] as int].kids[d] as int]);
                    }
                }
                assert forall|q: int, d1: int, d2: int|
                    0 <= q < g2.len() && 0 <= d1 < d2 < 26 && #[trigger] g2[q].kids[d1] != 0
                        && #[trigger] g2[q].kids[d2] != 0 implies g2[q].kids[d1] < g2[q].kids[
                    d2] by {
                    assert(g[order_s[q] as int].kids[d1] != 0 && g[order_s[q] as int].kids[d2]
                        != 0);
                }
            }
        }
    }

    /// The composite pipeline: drop word-free subgraphs, share equal
    /// subgraphs, renumber breadth-first.  The word set is exactly preserved,
    /// acyclicity is kept, every surviving slot is reachable, every non-empty
    /// walk extends to an accepted word, no two slots hold the same node
    /// value, and a word-free graph collapses to the lone root.
    pub fn clean(&mut self)
        requires
            old(self).wf(),
        ensures
            final(self).wf(),
            forall|w: Seq<u8>| accepts(final(self)@, 0, w) == accepts(old(self)@, 0, w),
            acyclic(old(self)@) ==> acyclic(final(self)@),
            forall|q: int| 0 <= q < final(self)@.len() ==> reached(final(self)@, q),
            acyclic(old(self)@) ==> (forall|w: Seq<u8>|
                walk(final(self)@, 0, w) >= 0 ==> w.len() == 0 || exists|v: Seq<u8>|
                    accepts(final(self)@, 0, w + v)),
            acyclic(old(self)@) ==> (forall|q1: int, q2: int|
                0 <= q1 < q2 < final(self)@.len() ==> final(self)@[q1] != final(self)@[q2]),
            acyclic(old(self)@) && (forall|w: Seq<u8>| !accepts(old(self)@, 0, w))
                ==> final(self)@.len() == 1 && !final(self)@[0].end && (forall|c: int|
                0 <= c < 26 ==> final(self)@[0].kids[c] == 0),
    {
        if self.unlink() {
            let ghost gu = self@;
            *self = FlatDawg::new();
            proof {
                assert forall|w: Seq<u8>| accepts(self@, 0, w) == accepts(gu, 0, w) by {
                    assert(!accepts(gu, 0, w));
                }
                assert(walk(self@, 0, Seq::<u8>::empty()) == 0);
                assert(reached(self@, 0));
                assert forall|w: Seq<u8>| walk(self@, 0, w) >= 0 implies w.len() == 0 by {
                    if w.len() > 0 && w[0] < 26 {
                        assert(self@[0].kids[w[0] as int] == 0);
                    }
                }
            }
            return;
        }
        let ghost gu = self@;
        self.minimise();
        let ghost gm = self@;
        self.trim();
        proof {
            if acyclic(old(self)@) {
                // a walk of the result is a walk of the swept graph, where
                // every surviving edge leads to a word
                assert forall|w: Seq<u8>|
                    walk(self@, 0, w) >= 0 && w.len() > 0 implies exists|v: Seq<u8>|
                    accepts(self@, 0, w + v) by {
                    assert(walk(gm, 0, w) >= 0);
                    assert(walk(gu, 0, w) >= 0);
                    lemma_live_edges_words(gu, w);
                    let v = choose|v: Seq<u8>| accepts(gu, 0, w + v);
                    assert(accepts(gm, 0, w + v));
                    assert(accepts(self@, 0, w + v));
                }
            }
        }
    }
}

} // verus!

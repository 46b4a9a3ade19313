//! The mathematical model of a flat word graph.
//!
//! A graph is a sequence of nodes; each node carries an accepting flag and,
//! for each of the 26 symbols, the index of the child reached by that symbol.
//! Index `0` is the root and also serves as the "no child" sentinel, so no
//! edge ever points at the root.  All contracts of the executable types are
//! stated over this model.

use vstd::prelude::*;

verus! {

/// The shape of one node: an accepting flag and 26 child indices (0 = absent).
pub struct SpecNode {
    pub end: bool,
    pub kids: Seq<usize>,
}

/// A node is well formed w.r.t. a graph of `len` nodes when it has exactly 26
/// child slots, each pointing inside the graph.
pub open spec fn node_wf(n: SpecNode, len: int) -> bool {
    n.kids.len() == 26 && forall|c: int| 0 <= c < 26 ==> (#[trigger] n.kids[c]) < len
}

/// A well-formed graph has a root and only in-range edges.
pub open spec fn graph_wf(g: Seq<SpecNode>) -> bool {
    g.len() >= 1 && forall|i: int| 0 <= i < g.len() ==> node_wf(#[trigger] g[i], g.len() as int)
}

/// Every present edge climbs to a strictly larger index.  This holds for
/// trie-built graphs and after `trim`; it is the simplest witness of
/// acyclicity.
pub open spec fn forward(g: Seq<SpecNode>) -> bool {
    forall|i: int, c: int|
        0 <= i < g.len() && 0 <= c < 26 && g[i].kids.len() == 26 && #[trigger] g[i].kids[c] != 0
            ==> i < g[i].kids[c] < g.len()
}

/// Whether the word `w` is accepted starting from node `i`.
pub open spec fn accepts(g: Seq<SpecNode>, i: int, w: Seq<u8>) -> bool
    decreases w.len(),
{
    if !(0 <= i < g.len()) {
        false
    } else if w.len() == 0 {
        g[i].end
    } else if w[0] >= 26 || g[i].kids.len() != 26 {
        false
    } else {
        let t = g[i].kids[w[0] as int];
        t != 0 && accepts(g, t as int, w.drop_first())
    }
}

/// The node reached from `i` by following `w`, or `-1` when an edge is missing.
pub open spec fn walk(g: Seq<SpecNode>, i: int, w: Seq<u8>) -> int
    decreases w.len(),
{
    if !(0 <= i < g.len()) {
        -1
    } else if w.len() == 0 {
        i
    } else if w[0] >= 26 || g[i].kids.len() != 26 {
        -1
    } else {
        let t = g[i].kids[w[0] as int];
        if t == 0 {
            -1
        } else {
            walk(g, t as int, w.drop_first())
        }
    }
}

/// No path from the root is as long as the graph itself: the graph has no
/// cycle reachable from the root.
pub open spec fn acyclic(g: Seq<SpecNode>) -> bool {
    forall|w: Seq<u8>| walk(g, 0, w) >= 0 ==> w.len() < g.len()
}

/// Every symbol of the word is one of the 26 real symbols.
pub open spec fn valid_word(w: Seq<u8>) -> bool {
    forall|k: int| 0 <= k < w.len() ==> w[k] < 26
}

/// A node from which no word at all is accepted.
pub open spec fn dead(g: Seq<SpecNode>, i: int) -> bool {
    forall|w: Seq<u8>| !accepts(g, i, w)
}

/// No two edges share a target: every node has at most one parent.  Word
/// addition keeps this; `minimise` deliberately breaks it by sharing
/// subgraphs.
pub open spec fn single_parent(g: Seq<SpecNode>) -> bool {
    forall|i1: int, c1: int, i2: int, c2: int|
        0 <= i1 < g.len() && 0 <= c1 < 26 && 0 <= i2 < g.len() && 0 <= c2 < 26 && #[trigger] g[
        i1].kids[c1] != 0 && #[trigger] g[i2].kids[c2] != 0 && g[i1].kids[c1] == g[i2].kids[c2]
            ==> i1 == i2 && c1 == c2
}

/// Each graph node is reached from the root by at most one word: the graph is
/// a prefix tree.  Word addition keeps this; `minimise` deliberately breaks it.
pub open spec fn unshared(g: Seq<SpecNode>) -> bool {
    forall|w1: Seq<u8>, w2: Seq<u8>|
        #[trigger] walk(g, 0, w1) >= 0 && walk(g, 0, w1) == #[trigger] walk(g, 0, w2) ==> w1 == w2
}

/// Accepting is walking to an accepting node.
pub proof fn lemma_accepts_walk(g: Seq<SpecNode>, i: int, w: Seq<u8>)
    ensures
        accepts(g, i, w) <==> (walk(g, i, w) >= 0 && 0 <= walk(g, i, w) < g.len() && g[walk(
            g,
            i,
            w,
        )].end),
    decreases w.len(),
{
    if 0 <= i < g.len() && w.len() > 0 && w[0] < 26 && g[i].kids.len() == 26 {
        let t = g[i].kids[w[0] as int];
        if t != 0 {
            lemma_accepts_walk(g, t as int, w.drop_first());
        }
    }
}

/// Walking a concatenation walks the first part, then the second.
pub proof fn lemma_walk_append(g: Seq<SpecNode>, i: int, a: Seq<u8>, b: Seq<u8>)
    ensures
        walk(g, i, a + b) == (if walk(g, i, a) >= 0 {
            walk(g, walk(g, i, a), b)
        } else {
            -1int
        }),
    decreases a.len(),
{
    if !(0 <= i < g.len()) {
        assert(walk(g, i, a + b) == -1);
    } else if a.len() == 0 {
        assert(a + b =~= b);
    } else {
        assert((a + b)[0] == a[0]);
        if a[0] < 26 && g[i].kids.len() == 26 {
            let t = g[i].kids[a[0] as int];
            if t != 0 {
                assert((a + b).drop_first() =~= a.drop_first() + b);
                lemma_walk_append(g, t as int, a.drop_first(), b);
            }
        }
    }
}

/// In a forward graph a walk from node `i` climbs one index per step.
pub proof fn lemma_forward_walk(g: Seq<SpecNode>, i: int, w: Seq<u8>)
    requires
        forward(g),
        walk(g, i, w) >= 0,
    ensures
        i + w.len() < g.len() || w.len() == 0,
        walk(g, i, w) >= i,
    decreases w.len(),
{
    if 0 <= i < g.len() && w.len() > 0 && w[0] < 26 && g[i].kids.len() == 26 {
        let t = g[i].kids[w[0] as int];
        if t != 0 {
            lemma_forward_walk(g, t as int, w.drop_first());
        }
    }
}

/// Forward graphs are acyclic.
pub proof fn lemma_forward_acyclic(g: Seq<SpecNode>)
    requires
        forward(g),
    ensures
        acyclic(g),
{
    assert forall|w: Seq<u8>| walk(g, 0, w) >= 0 implies w.len() < g.len() by {
        lemma_forward_walk(g, 0, w);
        if w.len() > 0 {
        } else {
            assert(0 <= walk(g, 0, w) < g.len());
        }
    }
}

/// In an acyclic graph every accepted word is shorter than the graph.
pub proof fn lemma_acyclic_word_len(g: Seq<SpecNode>, w: Seq<u8>)
    requires
        acyclic(g),
        accepts(g, 0, w),
    ensures
        w.len() < g.len(),
{
    lemma_accepts_walk(g, 0, w);
}

/// 26 absent children.
pub open spec fn zero_kids() -> Seq<usize> {
    Seq::new(26, |c: int| 0usize)
}

/// The graph `g` with node `t`'s accepting flag set to `b`.
pub open spec fn set_end(g: Seq<SpecNode>, t: int, b: bool) -> Seq<SpecNode> {
    g.update(t, SpecNode { end: b, kids: g[t].kids })
}

/// The graph `g` with node `p`'s child for symbol `c` pointed at `t`.
pub open spec fn set_kid(g: Seq<SpecNode>, p: int, c: int, t: usize) -> Seq<SpecNode> {
    g.update(p, SpecNode { end: g[p].end, kids: g[p].kids.update(c, t) })
}

/// The graph `g` with a fresh childless node appended and node `p`'s child
/// for symbol `c` (previously absent) pointed at it.
pub open spec fn attach(g: Seq<SpecNode>, p: int, c: int) -> Seq<SpecNode> {
    set_kid(g, p, c, g.len() as usize).push(SpecNode { end: false, kids: zero_kids() })
}

/// Toggling an accepting flag moves no edge: walks are untouched, and exactly
/// the words walking to the toggled node change their acceptance.
pub proof fn lemma_set_end(g: Seq<SpecNode>, t: int, b: bool, i: int, w: Seq<u8>)
    requires
        graph_wf(g),
        0 <= t < g.len(),
    ensures
        graph_wf(set_end(g, t, b)),
        walk(set_end(g, t, b), i, w) == walk(g, i, w),
        accepts(set_end(g, t, b), i, w) == (if walk(g, i, w) == t {
            b
        } else {
            accepts(g, i, w)
        }),
    decreases w.len(),
{
    let g2 = set_end(g, t, b);
    assert(g2.len() == g.len());
    assert(forall|j: int| 0 <= j < g.len() ==> g2[j].kids == g[j].kids);
    if 0 <= i < g.len() && w.len() > 0 && w[0] < 26 && g[i].kids.len() == 26 {
        let tc = g[i].kids[w[0] as int];
        if tc != 0 {
            lemma_set_end(g, t, b, tc as int, w.drop_first());
        }
    }
}

/// Zeroing an edge that leads to a dead node (one accepting nothing) keeps
/// every acceptance, and only removes walks.
pub proof fn lemma_zero_dead_edge(g: Seq<SpecNode>, p: int, c: int, i: int, w: Seq<u8>)
    requires
        graph_wf(g),
        0 <= p < g.len(),
        0 <= c < 26,
        dead(g, g[p].kids[c] as int),
    ensures
        graph_wf(set_kid(g, p, c, 0)),
        accepts(set_kid(g, p, c, 0), i, w) == accepts(g, i, w),
        walk(set_kid(g, p, c, 0), i, w) >= 0 ==> walk(set_kid(g, p, c, 0), i, w) == walk(g, i, w),
    decreases w.len(),
{
    let g2 = set_kid(g, p, c, 0);
    assert(g2.len() == g.len());
    if 0 <= i < g.len() && w.len() > 0 && w[0] < 26 && g[i].kids.len() == 26 {
        let t1 = g[i].kids[w[0] as int];
        let t2 = g2[i].kids[w[0] as int];
        if i == p && w[0] == c {
            assert(t2 == 0);
            if t1 != 0 {
                assert(!accepts(g, t1 as int, w.drop_first()));
            }
        } else {
            assert(t2 == t1);
            if t1 != 0 {
                lemma_zero_dead_edge(g, p, c, t1 as int, w.drop_first());
            }
        }
    }
}

/// The quantified corollaries of [`lemma_zero_dead_edge`] used by `unlink`.
pub proof fn lemma_zero_dead_quant(g: Seq<SpecNode>, p: int, c: int)
    requires
        graph_wf(g),
        0 <= p < g.len(),
        0 <= c < 26,
        dead(g, g[p].kids[c] as int),
    ensures
        graph_wf(set_kid(g, p, c, 0)),
        set_kid(g, p, c, 0).len() == g.len(),
        forall|i: int, w: Seq<u8>| accepts(set_kid(g, p, c, 0), i, w) == accepts(g, i, w),
        forall|i: int, w: Seq<u8>|
            walk(set_kid(g, p, c, 0), i, w) >= 0 ==> walk(set_kid(g, p, c, 0), i, w) == walk(
                g,
                i,
                w,
            ),
        forward(g) ==> forward(set_kid(g, p, c, 0)),
        acyclic(g) ==> acyclic(set_kid(g, p, c, 0)),
        unshared(g) ==> unshared(set_kid(g, p, c, 0)),
{
    let g2 = set_kid(g, p, c, 0);
    lemma_zero_dead_edge(g, p, c, 0, Seq::<u8>::empty());
    assert forall|i: int, w: Seq<u8>| accepts(g2, i, w) == accepts(g, i, w) by {
        lemma_zero_dead_edge(g, p, c, i, w);
    }
    assert forall|i: int, w: Seq<u8>| walk(g2, i, w) >= 0 implies walk(g2, i, w) == walk(
        g,
        i,
        w,
    ) by {
        lemma_zero_dead_edge(g, p, c, i, w);
    }
    if forward(g) {
        assert forall|i: int, d: int|
            0 <= i < g2.len() && 0 <= d < 26 && g2[i].kids.len() == 26 && #[trigger] g2[i].kids[d]
                != 0 implies i < g2[i].kids[d] < g2.len() by {
            if i == p {
                assert(g2[i].kids == g[p].kids.update(c, 0usize));
                if d != c {
                    assert(g2[i].kids[d] == g[i].kids[d]);
                }
            } else {
                assert(g2[i].kids == g[i].kids);
            }
        }
    }
    if unshared(g) {
        assert forall|w1: Seq<u8>, w2: Seq<u8>|
            #[trigger] walk(g2, 0, w1) >= 0 && walk(g2, 0, w1) == #[trigger] walk(
                g2,
                0,
                w2,
            ) implies w1 == w2 by {
            lemma_zero_dead_edge(g, p, c, 0, w1);
            lemma_zero_dead_edge(g, p, c, 0, w2);
        }
    }
}

/// Whether node `i` is reachable from the root.
pub open spec fn reached(g: Seq<SpecNode>, i: int) -> bool {
    exists|w: Seq<u8>| #[trigger] walk(g, 0, w) == i && i >= 0
}

/// How many slots are reachable from the root.
pub open spec fn reached_count(g: Seq<SpecNode>) -> nat {
    Set::new(|i: int| reached(g, i)).len()
}

/// Two slots holding the same node value behave alike: they accept the same
/// words, and any non-empty walk from one goes where it goes from the other.
pub proof fn lemma_same_value(g: Seq<SpecNode>, a: int, b: int, w: Seq<u8>)
    requires
        0 <= a < g.len(),
        0 <= b < g.len(),
        g[a] == g[b],
    ensures
        accepts(g, a, w) == accepts(g, b, w),
        w.len() >= 1 ==> walk(g, a, w) == walk(g, b, w),
{
}

/// Redirecting an edge to a slot holding the same node value changes no
/// acceptance, and any surviving walk existed before.
pub proof fn lemma_redirect_edge(g: Seq<SpecNode>, p: int, c: int, t2: usize, i: int, w: Seq<u8>)
    requires
        graph_wf(g),
        0 <= p < g.len(),
        0 <= c < 26,
        g[p].kids[c] != 0,
        t2 != 0,
        0 < t2 < g.len(),
        g[t2 as int] == g[g[p].kids[c] as int],
    ensures
        graph_wf(set_kid(g, p, c, t2)),
        accepts(set_kid(g, p, c, t2), i, w) == accepts(g, i, w),
        walk(set_kid(g, p, c, t2), i, w) >= 0 ==> walk(g, i, w) >= 0,
    decreases w.len(),
{
    let g2 = set_kid(g, p, c, t2);
    assert(g2.len() == g.len());
    if 0 <= i < g.len() && w.len() > 0 && w[0] < 26 && g[i].kids.len() == 26 {
        let ta = g[i].kids[w[0] as int];
        let tb = g2[i].kids[w[0] as int];
        if i == p && w[0] == c {
            assert(tb == t2);
            lemma_redirect_edge(g, p, c, t2, t2 as int, w.drop_first());
            lemma_same_value(g, t2 as int, ta as int, w.drop_first());
            if walk(g2, i, w) >= 0 {
                assert(walk(g, t2 as int, w.drop_first()) >= 0);
                if w.drop_first().len() == 0 {
                    assert(walk(g, ta as int, w.drop_first()) == ta);
                }
            }
        } else {
            assert(tb == ta);
            if ta != 0 {
                lemma_redirect_edge(g, p, c, t2, ta as int, w.drop_first());
            }
        }
    }
}

/// The quantified corollaries of [`lemma_redirect_edge`] used by `minimise`.
pub proof fn lemma_redirect_quant(g: Seq<SpecNode>, p: int, c: int, t2: usize)
    requires
        graph_wf(g),
        0 <= p < g.len(),
        0 <= c < 26,
        g[p].kids[c] != 0,
        t2 != 0,
        0 < t2 < g.len(),
        g[t2 as int] == g[g[p].kids[c] as int],
    ensures
        graph_wf(set_kid(g, p, c, t2)),
        set_kid(g, p, c, t2).len() == g.len(),
        forall|i: int, w: Seq<u8>| accepts(set_kid(g, p, c, t2), i, w) == accepts(g, i, w),
        forall|i: int, w: Seq<u8>|
            walk(set_kid(g, p, c, t2), i, w) >= 0 ==> walk(g, i, w) >= 0,
        forall|j: int| 0 <= j < g.len() ==> set_kid(g, p, c, t2)[j].end == g[j].end,
        forall|j: int| 0 <= j < g.len() && j != p ==> set_kid(g, p, c, t2)[j] == g[j],
{
    let g2 = set_kid(g, p, c, t2);
    lemma_redirect_edge(g, p, c, t2, 0, Seq::<u8>::empty());
    assert forall|i: int, w: Seq<u8>| accepts(g2, i, w) == accepts(g, i, w) by {
        lemma_redirect_edge(g, p, c, t2, i, w);
    }
    assert forall|i: int, w: Seq<u8>| walk(g2, i, w) >= 0 implies walk(g, i, w) >= 0 by {
        lemma_redirect_edge(g, p, c, t2, i, w);
    }
}

/// Pumping a loop at a node reached by `pre` yields a walk at least `target`
/// long.
pub proof fn lemma_pump_path(g: Seq<SpecNode>, pre: Seq<u8>, j: int, p: Seq<u8>, target: nat)
    requires
        walk(g, 0, pre) == j,
        walk(g, j, p) == j,
        p.len() >= 1,
        j >= 0,
    ensures
        exists|w: Seq<u8>| #[trigger] walk(g, 0, w) == j && w.len() >= target,
{
    lemma_pump_grow(g, pre, j, p, target);
    let w = choose|w: Seq<u8>|
        #[trigger] walk(g, 0, w) == j && w.len() == pre.len() + p.len() * target;
    vstd::arithmetic::mul::lemma_mul_inequality(1, p.len() as int, target as int);
    assert(w.len() >= target);
}

/// Pumping a root-reachable loop makes walks of any length: the graph cannot
/// be acyclic.
pub proof fn lemma_pump(g: Seq<SpecNode>, j: int, p: Seq<u8>)
    requires
        walk(g, 0, p) == j,
        walk(g, j, p) == j,
        p.len() >= 1,
        j >= 0,
    ensures
        !acyclic(g),
{
    lemma_pump_path(g, p, j, p, g.len() + 1);
    let w = choose|w: Seq<u8>| #[trigger] walk(g, 0, w) == j && w.len() >= g.len() + 1;
}

/// A walk of `pre` followed by `k` copies of the loop exists.
proof fn lemma_pump_grow(g: Seq<SpecNode>, pre: Seq<u8>, j: int, p: Seq<u8>, k: nat)
    requires
        walk(g, 0, pre) == j,
        walk(g, j, p) == j,
        p.len() >= 1,
        j >= 0,
    ensures
        exists|w: Seq<u8>| #[trigger] walk(g, 0, w) == j && w.len() == pre.len() + p.len() * k,
    decreases k,
{
    if k == 0 {
        assert(walk(g, 0, pre) == j && pre.len() == pre.len() + p.len() * 0);
    } else {
        lemma_pump_grow(g, pre, j, p, (k - 1) as nat);
        let w0 = choose|w0: Seq<u8>|
            #[trigger] walk(g, 0, w0) == j && w0.len() == pre.len() + p.len() * (k - 1);
        let w = w0 + p;
        lemma_walk_append(g, 0, w0, p);
        assert(walk(g, 0, w) == j);
        assert(w.len() == pre.len() + p.len() * (k - 1) + p.len());
        assert(p.len() * (k as int) == p.len() * (k - 1) + p.len()) by {
            vstd::arithmetic::mul::lemma_mul_is_distributive_add(
                p.len() as int,
                k as int - 1,
                1,
            );
        }
    }
}

/// A word accepted from a walk's endpoint extends to a word accepted from
/// the walk's start.
pub proof fn lemma_accepts_compose(g: Seq<SpecNode>, i: int, w: Seq<u8>, v: Seq<u8>)
    requires
        walk(g, i, w) >= 0,
        accepts(g, walk(g, i, w), v),
    ensures
        accepts(g, i, w + v),
{
    lemma_walk_append(g, i, w, v);
    lemma_accepts_walk(g, walk(g, i, w), v);
    lemma_accepts_walk(g, i, w + v);
}

/// How many leading symbols of `w` can be walked from node `i` before an
/// edge is missing.
pub open spec fn walked_prefix(g: Seq<SpecNode>, i: int, w: Seq<u8>) -> int
    decreases w.len(),
{
    if !(0 <= i < g.len()) || w.len() == 0 || w[0] >= 26 || g[i].kids.len() != 26 {
        0
    } else {
        let t = g[i].kids[w[0] as int];
        if t == 0 {
            0
        } else {
            1 + walked_prefix(g, t as int, w.drop_first())
        }
    }
}

/// The walked prefix is the longest walkable one: it walks, and one more
/// symbol does not.
pub proof fn lemma_walked_prefix(g: Seq<SpecNode>, i: int, w: Seq<u8>)
    requires
        graph_wf(g),
        0 <= i < g.len(),
    ensures
        0 <= walked_prefix(g, i, w) <= w.len(),
        walk(g, i, w.take(walked_prefix(g, i, w))) >= 0,
        walked_prefix(g, i, w) < w.len() ==> walk(g, i, w.take(walked_prefix(g, i, w) + 1)) < 0,
    decreases w.len(),
{
    let p = walked_prefix(g, i, w);
    if w.len() == 0 {
        assert(w.take(0) =~= Seq::<u8>::empty());
    } else if w[0] >= 26 {
        assert(w.take(0) =~= Seq::<u8>::empty());
        assert(walk(g, i, w.take(1)) < 0) by {
            assert(w.take(1)[0] == w[0]);
        }
    } else {
        let t = g[i].kids[w[0] as int];
        if t == 0 {
            assert(w.take(0) =~= Seq::<u8>::empty());
            assert(walk(g, i, w.take(1)) < 0) by {
                assert(w.take(1)[0] == w[0]);
            }
        } else {
            assert(0 <= t < g.len());
            lemma_walked_prefix(g, t as int, w.drop_first());
            let p1 = walked_prefix(g, t as int, w.drop_first());
            assert(p == 1 + p1);
            assert(w.take(p)[0] == w[0]);
            assert(w.take(p).drop_first() =~= w.drop_first().take(p1));
            if p < w.len() {
                assert(w.take(p + 1)[0] == w[0]);
                assert(w.take(p + 1).drop_first() =~= w.drop_first().take(p1 + 1));
            }
        }
    }
}

/// Every prefix of a successful walk succeeds.
pub proof fn lemma_walk_prefix(g: Seq<SpecNode>, i: int, w: Seq<u8>, k: int)
    requires
        walk(g, i, w) >= 0,
        0 <= k <= w.len(),
    ensures
        walk(g, i, w.take(k)) >= 0,
{
    assert(w =~= w.take(k) + w.skip(k));
    lemma_walk_append(g, i, w.take(k), w.skip(k));
}

/// A successful walk lands inside the graph.
pub proof fn lemma_walk_range(g: Seq<SpecNode>, i: int, w: Seq<u8>)
    ensures
        walk(g, i, w) >= 0 ==> walk(g, i, w) < g.len(),
    decreases w.len(),
{
    if 0 <= i < g.len() && w.len() > 0 && w[0] < 26 && g[i].kids.len() == 26 {
        let t = g[i].kids[w[0] as int];
        if t != 0 {
            lemma_walk_range(g, t as int, w.drop_first());
        }
    }
}

/// Attaching a fresh childless node behind a previously absent edge accepts
/// nothing new; the only new walks are those ending at the fresh node through
/// the new edge.
pub proof fn lemma_attach(g: Seq<SpecNode>, p: int, c: int, i: int, w: Seq<u8>)
    requires
        graph_wf(g),
        g.len() < usize::MAX,
        0 <= p < g.len(),
        0 <= c < 26,
        g[p].kids[c] == 0,
    ensures
        graph_wf(attach(g, p, c)),
        attach(g, p, c).len() == g.len() + 1,
        0 <= i < g.len() ==> accepts(attach(g, p, c), i, w) == accepts(g, i, w),
        !accepts(attach(g, p, c), g.len() as int, w),
        walk(attach(g, p, c), g.len() as int, w) >= 0 ==> w.len() == 0,
        walk(g, i, w) >= 0 ==> walk(attach(g, p, c), i, w) == walk(g, i, w),
        (0 <= i < g.len() && walk(attach(g, p, c), i, w) >= 0) ==> (walk(attach(g, p, c), i, w)
            == walk(g, i, w) || (walk(attach(g, p, c), i, w) == g.len() && w.len() >= 1 && w[w.len()
            - 1] == c && walk(g, i, w.drop_last()) == p)),
    decreases w.len(),
{
    let g2 = attach(g, p, c);
    let n = g.len() as int;
    assert(g2.len() == n + 1);
    assert(zero_kids().len() == 26);
    assert(forall|d: int| 0 <= d < 26 ==> zero_kids()[d] == 0);
    assert forall|j: int| 0 <= j < g2.len() implies node_wf(#[trigger] g2[j], n + 1) by {
        if j < n {
            assert(node_wf(g[j], n));
        }
    }
    if w.len() == 0 {
        // acceptance and walks at length zero read only the node itself
    } else {
        let c0 = w[0];
        let w1 = w.drop_first();
        if i == n {
            assert(g2[i].kids == zero_kids());
        } else if 0 <= i < n {
            if c0 < 26 {
                let t1 = g[i].kids[c0 as int];
                let t2 = g2[i].kids[c0 as int];
                if i == p && c0 == c {
                    assert(g2[i] == set_kid(g, p, c, g.len() as usize)[i]);
                    assert(g2[i].kids == g[p].kids.update(c, g.len() as usize));
                    assert(t1 == 0 && t2 == g.len());
                    lemma_attach(g, p, c, n, w1);
                    if walk(g2, n, w1) >= 0 {
                        assert(w1.len() == 0);
                        assert(walk(g2, i, w) == n);
                        assert(w.drop_last() =~= Seq::<u8>::empty());
                        assert(walk(g, i, w.drop_last()) == i);
                    }
                } else {
                    assert(t2 == t1);
                    if t1 != 0 {
                        assert(0 <= t1 < n);
                        lemma_attach(g, p, c, t1 as int, w1);
                        if walk(g2, t1 as int, w1) >= 0 && walk(g2, t1 as int, w1) != walk(
                            g,
                            t1 as int,
                            w1,
                        ) {
                            // the walk below used the new edge; lift the split one level
                            assert(w1.len() >= 1);
                            assert(w.len() >= 2);
                            assert(w.drop_last().len() == w.len() - 1);
                            assert(w.drop_last()[0] == c0);
                            assert(w.drop_last().drop_first() =~= w1.drop_last());
                            assert(walk(g, i, w.drop_last()) == walk(
                                g,
                                t1 as int,
                                w1.drop_last(),
                            ));
                            assert(w[w.len() - 1] == w1[w1.len() - 1]);
                        }
                    }
                }
            }
        }
    }
}

/// Walking a single symbol follows exactly that edge.
pub proof fn lemma_walk_step(g: Seq<SpecNode>, i: int, c: u8)
    requires
        graph_wf(g),
        0 <= i < g.len(),
        c < 26,
    ensures
        walk(g, i, seq![c]) == (if g[i].kids[c as int] != 0 {
            g[i].kids[c as int] as int
        } else {
            -1int
        }),
{
    let s = seq![c];
    assert(s.drop_first() =~= Seq::<u8>::empty());
    let t = g[i].kids[c as int];
    assert(node_wf(g[i], g.len() as int));
    if t != 0 {
        assert(0 <= t < g.len());
        assert(walk(g, t as int, Seq::<u8>::empty()) == t);
    }
}

/// The quantified corollaries of [`lemma_set_end`] used by word addition and
/// removal.
pub proof fn lemma_set_end_quant(g: Seq<SpecNode>, t: int, b: bool)
    requires
        graph_wf(g),
        0 <= t < g.len(),
    ensures
        graph_wf(set_end(g, t, b)),
        set_end(g, t, b).len() == g.len(),
        forall|i: int, w: Seq<u8>| walk(set_end(g, t, b), i, w) == walk(g, i, w),
        forall|i: int, w: Seq<u8>|
            accepts(set_end(g, t, b), i, w) == (if walk(g, i, w) == t {
                b
            } else {
                accepts(g, i, w)
            }),
        forward(g) ==> forward(set_end(g, t, b)),
        acyclic(g) ==> acyclic(set_end(g, t, b)),
        unshared(g) ==> unshared(set_end(g, t, b)),
        single_parent(g) ==> single_parent(set_end(g, t, b)),
{
    let g2 = set_end(g, t, b);
    lemma_set_end(g, t, b, 0, Seq::<u8>::empty());
    assert forall|i: int, w: Seq<u8>| walk(g2, i, w) == walk(g, i, w) by {
        lemma_set_end(g, t, b, i, w);
    }
    assert forall|i: int, w: Seq<u8>|
        accepts(g2, i, w) == (if walk(g, i, w) == t {
            b
        } else {
            accepts(g, i, w)
        }) by {
        lemma_set_end(g, t, b, i, w);
    }
    if forward(g) {
        assert forall|i: int, c: int|
            0 <= i < g2.len() && 0 <= c < 26 && g2[i].kids.len() == 26 && #[trigger] g2[i].kids[c]
                != 0 implies i < g2[i].kids[c] < g2.len() by {
            assert(g2[i].kids == g[i].kids);
        }
    }
    if single_parent(g) {
        assert forall|i1: int, c1: int, i2: int, c2: int|
            0 <= i1 < g2.len() && 0 <= c1 < 26 && 0 <= i2 < g2.len() && 0 <= c2 < 26 && #[trigger]
                g2[i1].kids[c1] != 0 && #[trigger] g2[i2].kids[c2] != 0 && g2[i1].kids[c1] == g2[
            i2].kids[c2] implies i1 == i2 && c1 == c2 by {
            assert(g2[i1].kids == g[i1].kids && g2[i2].kids == g[i2].kids);
        }
    }
}

/// The quantified corollaries of [`lemma_attach`] used by word addition.
pub proof fn lemma_attach_quant(g: Seq<SpecNode>, p: int, c: int)
    requires
        graph_wf(g),
        g.len() < usize::MAX,
        0 <= p < g.len(),
        0 <= c < 26,
        g[p].kids[c] == 0,
    ensures
        graph_wf(attach(g, p, c)),
        attach(g, p, c).len() == g.len() + 1,
        forall|i: int, w: Seq<u8>|
            0 <= i < g.len() ==> accepts(attach(g, p, c), i, w) == accepts(g, i, w),
        forall|i: int, w: Seq<u8>|
            walk(g, i, w) >= 0 ==> walk(attach(g, p, c), i, w) == walk(g, i, w),
        forall|w: Seq<u8>| !accepts(attach(g, p, c), g.len() as int, w),
        acyclic(g) ==> acyclic(attach(g, p, c)),
        unshared(g) && acyclic(g) ==> unshared(attach(g, p, c)),
        forward(g) ==> forward(attach(g, p, c)),
        single_parent(g) ==> single_parent(attach(g, p, c)),
{
    let g2 = attach(g, p, c);
    let n = g.len() as int;
    lemma_attach(g, p, c, 0, Seq::<u8>::empty());
    if forward(g) {
        assert forall|i: int, d: int|
            0 <= i < g2.len() && 0 <= d < 26 && g2[i].kids.len() == 26 && #[trigger] g2[i].kids[d]
                != 0 implies i < g2[i].kids[d] < g2.len() by {
            if i == n {
                assert(g2[i].kids == zero_kids());
                assert(g2[i].kids[d] == 0);
            } else if i == p {
                assert(g2[i].kids == g[p].kids.update(c, g.len() as usize));
                if d != c {
                    assert(g2[i].kids[d] == g[i].kids[d]);
                }
            } else {
                assert(g2[i].kids == g[i].kids);
            }
        }
    }
    if single_parent(g) {
        // old edges stay below the fresh slot; only the one new edge reaches it
        assert forall|i1: int, d1: int, i2: int, d2: int|
            0 <= i1 < g2.len() && 0 <= d1 < 26 && 0 <= i2 < g2.len() && 0 <= d2 < 26 && #[trigger]
                g2[i1].kids[d1] != 0 && #[trigger] g2[i2].kids[d2] != 0 && g2[i1].kids[d1] == g2[
        i2].kids[d2] implies i1 == i2 && d1 == d2 by {
            assert(g2[n].kids == zero_kids());
            assert(i1 != n && i2 != n);
            let e1_new = i1 == p && d1 == c;
            let e2_new = i2 == p && d2 == c;
            if e1_new && e2_new {
            } else if e1_new {
                assert(g2[i2].kids[d2] == g[i2].kids[d2]);
                assert(g[i2].kids[d2] < g.len());
                assert(g2[i1].kids[d1] == g.len());
                assert(false);
            } else if e2_new {
                assert(g2[i1].kids[d1] == g[i1].kids[d1]);
                assert(g[i1].kids[d1] < g.len());
                assert(g2[i2].kids[d2] == g.len());
                assert(false);
            } else {
                assert(g2[i1].kids[d1] == g[i1].kids[d1]);
                assert(g2[i2].kids[d2] == g[i2].kids[d2]);
            }
        }
    }
    assert forall|i: int, w: Seq<u8>| 0 <= i < g.len() implies accepts(g2, i, w) == accepts(
        g,
        i,
        w,
    ) by {
        lemma_attach(g, p, c, i, w);
    }
    assert forall|i: int, w: Seq<u8>| walk(g, i, w) >= 0 implies walk(g2, i, w) == walk(
        g,
        i,
        w,
    ) by {
        lemma_attach(g, p, c, i, w);
    }
    assert forall|w: Seq<u8>| !accepts(g2, n, w) by {
        lemma_attach(g, p, c, n, w);
    }
    if acyclic(g) {
        assert forall|w: Seq<u8>| walk(g2, 0, w) >= 0 implies w.len() < g2.len() by {
            lemma_attach(g, p, c, 0, w);
            if walk(g2, 0, w) == walk(g, 0, w) {
            } else {
                assert(walk(g, 0, w.drop_last()) >= 0);
            }
        }
        if unshared(g) {
            assert forall|w1: Seq<u8>, w2: Seq<u8>|
                #[trigger] walk(g2, 0, w1) >= 0 && walk(g2, 0, w1) == #[trigger] walk(
                    g2,
                    0,
                    w2,
                ) implies w1 == w2 by {
                lemma_attach(g, p, c, 0, w1);
                lemma_attach(g, p, c, 0, w2);
                lemma_walk_range(g, 0, w1);
                lemma_walk_range(g, 0, w2);
                if walk(g2, 0, w1) == walk(g, 0, w1) && walk(g2, 0, w2) == walk(g, 0, w2) {
                    assert(w1 == w2);
                } else if walk(g2, 0, w1) == walk(g, 0, w1) {
                    // w2 ends at the fresh node, so walk(g, 0, w1) == g.len(): impossible
                    assert(false);
                } else if walk(g2, 0, w2) == walk(g, 0, w2) {
                    assert(false);
                } else {
                    assert(walk(g, 0, w1.drop_last()) == p && walk(g, 0, w2.drop_last()) == p);
                    assert(w1.drop_last() == w2.drop_last());
                    assert(w1.len() == w2.len());
                    assert forall|k: int| 0 <= k < w1.len() implies w1[k] == w2[k] by {
                        if k < w1.len() - 1 {
                            assert(w1.drop_last()[k] == w2.drop_last()[k]);
                        } else {
                            assert(w1[k] == c && w2[k] == c);
                        }
                    }
                    assert(w1 =~= w2);
                }
            }
        }
    }
}

} // verus!

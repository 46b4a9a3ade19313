//! Lifting a pattern into the graph world.  The editing form gets one node
//! per position, every permitted symbol stepping to the next; the storage
//! form replicates each position once per predecessor edge so that children
//! stay contiguous.  Both accept exactly the pattern's words.

use vstd::prelude::*;

use crate::dawg::flat::FlatDawg;
use crate::dawg::read::ReadDawg;
use crate::model::{accepts, acyclic, forward, graph_wf, lemma_forward_acyclic, node_wf, valid_word, SpecNode};
use crate::node::wide::WideNode;
use crate::dawg::thin::ThinDawg;
use crate::node::thin::{t_end, t_kid, thin_view, ThinNode};
use crate::pattern::{mask_bits, mask_count, mask_has, pat_accepts, Pattern};

verus! {

/// The node shape `to_flat` produces: a chain of position nodes ending in one
/// accepting node.
pub open spec fn pat_chain(masks: Seq<u32>, g: Seq<SpecNode>) -> bool {
    g.len() == masks.len() + 1 && (forall|j: int|
        0 <= j < masks.len() ==> !(#[trigger] g[j]).end && g[j].kids.len() == 26) && (forall|
        j: int,
        c: int,
    |
        0 <= j < masks.len() && 0 <= c < 26 ==> #[trigger] g[j].kids[c] == (if mask_has(
            masks[j],
            c as u8,
        ) {
            (j + 1) as usize
        } else {
            0usize
        })) && g[masks.len() as int].end && g[masks.len() as int].kids.len() == 26 && (forall|
        c: int,
    | 0 <= c < 26 ==> g[masks.len() as int].kids[c] == 0)
}

/// From node `k` of a pattern chain, exactly the pattern's tails from
/// position `k` are accepted.
proof fn lemma_pat_chain_accepts(masks: Seq<u32>, g: Seq<SpecNode>, k: int, w: Seq<u8>)
    requires
        masks.len() < usize::MAX,
        pat_chain(masks, g),
        0 <= k <= masks.len(),
    ensures
        accepts(g, k, w) == (w.len() == masks.len() - k && (forall|q: int|
            0 <= q < w.len() ==> mask_has(#[trigger] masks[k + q], w[q]))),
    decreases w.len(),
{
    if k == masks.len() {
        if w.len() > 0 && w[0] < 26 {
            assert(g[k].kids[w[0] as int] == 0);
        }
    } else {
        if w.len() == 0 {
            assert(!g[k].end);
        } else {
            let c = w[0];
            if c < 26 {
                let t = g[k].kids[c as int];
                if mask_has(masks[k], c) {
                    assert(t == k + 1);
                    lemma_pat_chain_accepts(masks, g, k + 1, w.drop_first());
                    assert forall|q: int|
                        0 <= q < w.drop_first().len() implies w.drop_first()[q] == w[q + 1] by {}
                    if accepts(g, k, w) {
                        assert forall|q: int| 0 <= q < w.len() implies mask_has(
                            #[trigger] masks[k + q],
                            w[q],
                        ) by {
                            if q > 0 {
                                assert(mask_has(masks[k + 1 + (q - 1)], w.drop_first()[q - 1]));
                            }
                        }
                    }
                    if w.len() == masks.len() - k && (forall|q: int|
                        0 <= q < w.len() ==> mask_has(#[trigger] masks[k + q], w[q])) {
                        assert forall|q: int| 0 <= q < w.drop_first().len() implies mask_has(
                            #[trigger] masks[k + 1 + q],
                            w.drop_first()[q],
                        ) by {
                            assert(mask_has(masks[k + (q + 1)], w[q + 1]));
                        }
                    }
                } else {
                    assert(t == 0);
                    assert(!mask_has(masks[k + 0], w[0]));
                }
            } else {
                assert(!mask_has(masks[k + 0], w[0]));
            }
        }
    }
}

impl Pattern {
    /// The pattern as a flat graph accepting exactly the pattern's words.
    pub fn to_flat(&self) -> (d: FlatDawg)
        ensures
            d.wf(),
            forward(d@),
            acyclic(d@),
            forall|w: Seq<u8>| accepts(d@, 0, w) == pat_accepts(self@, w),
    {
        let m = self.masks.len();
        if m == 0 {
            let d = FlatDawg::new();
            proof {
                assert(forall|w: Seq<u8>| !pat_accepts(self@, w));
            }
            return d;
        }
        let mut nodes: Vec<WideNode> = Vec::new();
        let mut k: usize = 0;
        while k < m
            invariant
                m == self@.len(),
                k <= m,
                nodes@.len() == k,
                forall|j: int|
                    0 <= j < k ==> !(#[trigger] nodes@[j]@).end && nodes@[j]@.kids.len() == 26,
                forall|j: int, c: int|
                    0 <= j < k && 0 <= c < 26 ==> #[trigger] nodes@[j]@.kids[c] == (if mask_has(
                        self@[j],
                        c as u8,
                    ) {
                        (j + 1) as usize
                    } else {
                        0usize
                    }),
            decreases m - k,
        {
            let mask = self.masks[k];
            let mut kids: Vec<usize> = Vec::new();
            let mut c: u8 = 0;
            while c < 26
                invariant
                    c <= 26,
                    k < m,
                    mask == self@[k as int],
                    kids@.len() == c,
                    forall|e: int|
                        0 <= e < c ==> #[trigger] kids@[e] == (if mask_has(self@[k as int], e as u8) {
                            (k + 1) as usize
                        } else {
                            0usize
                        }),
                decreases 26 - c,
            {
                if (mask >> (c as u32)) & 1 == 1 {
                    kids.push(k + 1);
                    proof {
                        assert(mask_has(self@[k as int], c));
                    }
                } else {
                    kids.push(0);
                    proof {
                        assert(!mask_has(self@[k as int], c));
                    }
                }
                c += 1;
            }
            nodes.push(WideNode { end: false, kids });
            k += 1;
        }
        let mut tail = WideNode::new();
        tail.set_end(true);
        nodes.push(tail);
        let total = nodes.len();
        let d = FlatDawg { nodes };
        proof {
            assert(total == m + 1);
            assert(self@.len() < usize::MAX);
            assert forall|j: int| 0 <= j < d@.len() implies d@[j] == d.nodes@[j]@ by {}
            assert(pat_chain(self@, d@));
            assert(graph_wf(d@)) by {
                assert forall|j: int| 0 <= j < d@.len() implies node_wf(
                    #[trigger] d@[j],
                    d@.len() as int,
                ) by {
                    assert forall|c: int| 0 <= c < 26 implies (#[trigger] d@[j].kids[c])
                        < d@.len() by {
                        if j < m {
                            assert(d@[j].kids[c] == (if mask_has(self@[j], c as u8) {
                                (j + 1) as usize
                            } else {
                                0usize
                            }));
                        }
                    }
                }
            }
            assert(forward(d@)) by {
                assert forall|j: int, c: int|
                    0 <= j < d@.len() && 0 <= c < 26 && d@[j].kids.len() == 26 && #[trigger] d@[
                j].kids[c] != 0 implies j < d@[j].kids[c] < d@.len() by {
                    if j < m {
                        assert(d@[j].kids[c] == (if mask_has(self@[j], c as u8) {
                            (j + 1) as usize
                        } else {
                            0usize
                        }));
                    }
                }
            }
            lemma_forward_acyclic(d@);
            assert forall|w: Seq<u8>| accepts(d@, 0, w) == pat_accepts(self@, w) by {
                lemma_pat_chain_accepts(self@, d@, 0, w);
                if accepts(d@, 0, w) {
                    assert(w.len() == self@.len());
                    assert forall|q: int| 0 <= q < w.len() implies mask_has(
                        #[trigger] self@[q],
                        w[q],
                    ) by {
                        assert(mask_has(self@[0 + q], w[q]));
                    }
                    assert(pat_accepts(self@, w));
                } else if pat_accepts(self@, w) {
                    assert forall|q: int| 0 <= q < w.len() implies mask_has(
                        #[trigger] self@[0 + q],
                        w[q],
                    ) by {
                        assert(mask_has(self@[q], w[q]));
                    }
                    assert(accepts(d@, 0, w));
                }
            }
        }
        d
    }
}

/// A present symbol is counted by every span that passes it.
proof fn lemma_mask_count_strict(m: u32, c: u8)
    requires
        mask_has(m, c),
    ensures
        mask_count(m, c as int) < mask_count(m, 26),
    decreases 26 - c,
{
    assert(mask_count(m, c as int + 1) == mask_count(m, c as int) + 1);
    lemma_mask_count_le(m, c as int + 1, 26);
}

/// Counting more symbol slots never counts fewer symbols.
proof fn lemma_mask_count_le(m: u32, a: int, b: int)
    requires
        0 <= a <= b,
    ensures
        mask_count(m, a) <= mask_count(m, b),
    decreases b - a,
{
    if a < b {
        lemma_mask_count_le(m, a, b - 1);
    }
}

/// The node layout `to_thin` produces: consecutive segments of identical
/// nodes, one segment per position, each node pointing its permitted symbols
/// at consecutive slots of the next segment, and a final segment of accepting
/// childless nodes.  `starts` holds the segment boundaries.
pub open spec fn rep_chain(masks: Seq<u32>, g: Seq<SpecNode>, starts: Seq<int>) -> bool {
    let m = masks.len() as int;
    &&& starts.len() == m + 2
    &&& starts[0] == 0
    &&& (forall|k: int| 0 <= k <= m ==> #[trigger] starts[k] < starts[k + 1])
    &&& (forall|k: int| 0 <= k < starts.len() ==> 0 <= #[trigger] starts[k] <= g.len())
    &&& starts[m + 1] == g.len()
    &&& g.len() <= usize::MAX
    &&& (forall|k: int, j: int|
        #![trigger starts[k], g[j]]
        0 <= k < m && starts[k] <= j < starts[k + 1] ==> !g[j].end && g[j].kids.len() == 26)
    &&& (forall|k: int, j: int, c: int|
        #![trigger starts[k], g[j].kids[c]]
        0 <= k < m && starts[k] <= j < starts[k + 1] && 0 <= c < 26 ==> g[j].kids[c] == (
        if mask_has(masks[k], c as u8) {
            (starts[k + 1] + mask_count(masks[k], c)) as usize
        } else {
            0usize
        }))
    &&& (forall|k: int|
        0 <= k < m ==> #[trigger] starts[k + 2] - starts[k + 1] >= mask_count(masks[k], 26))
    &&& (forall|j: int| starts[m] <= j < starts[m + 1] ==> (#[trigger] g[j]).end && g[j].kids.len() == 26)
    &&& (forall|j: int, c: int|
        starts[m] <= j < starts[m + 1] && 0 <= c < 26 ==> #[trigger] g[j].kids[c] == 0)
}

/// From any node of segment `k` of a replicated chain, exactly the pattern's
/// tails from position `k` are accepted.
/// Whether `w` matches the pattern's positions from `k` on, mirroring the
/// step shape of graph acceptance.
pub open spec fn pat_tail(masks: Seq<u32>, k: int, w: Seq<u8>) -> bool
    decreases w.len(),
{
    if w.len() == 0 {
        k == masks.len()
    } else {
        0 <= k < masks.len() && w[0] < 26 && mask_has(masks[k], w[0]) && pat_tail(
            masks,
            k + 1,
            w.drop_first(),
        )
    }
}

/// The tail match spelt out: the right length, every symbol permitted.
proof fn lemma_pat_tail_iff(masks: Seq<u32>, k: int, w: Seq<u8>)
    requires
        0 <= k <= masks.len(),
    ensures
        pat_tail(masks, k, w) == (w.len() == masks.len() - k && (forall|q: int|
            0 <= q < w.len() ==> mask_has(#[trigger] masks[k + q], w[q]))),
    decreases w.len(),
{
    if w.len() > 0 && k < masks.len() {
        lemma_pat_tail_iff(masks, k + 1, w.drop_first());
        if pat_tail(masks, k, w) {
            assert forall|q: int| 0 <= q < w.len() implies mask_has(
                #[trigger] masks[k + q],
                w[q],
            ) by {
                if q > 0 {
                    assert(mask_has(masks[k + 1 + (q - 1)], w.drop_first()[q - 1]));
                }
            }
        }
        if w.len() == masks.len() - k && (forall|q: int|
            0 <= q < w.len() ==> mask_has(#[trigger] masks[k + q], w[q])) {
            assert(mask_has(masks[k + 0], w[0]));
            assert forall|q: int| 0 <= q < w.drop_first().len() implies mask_has(
                #[trigger] masks[k + 1 + q],
                w.drop_first()[q],
            ) by {
                assert(mask_has(masks[k + (q + 1)], w[q + 1]));
            }
        }
    }
}

/// From any node of segment `k` of a replicated chain, exactly the pattern's
/// tails from position `k` are accepted.
#[verifier::spinoff_prover]
proof fn lemma_rep_chain_accepts(
    masks: Seq<u32>,
    g: Seq<SpecNode>,
    starts: Seq<int>,
    k: int,
    j: int,
    w: Seq<u8>,
)
    requires
        rep_chain(masks, g, starts),
        0 <= k <= masks.len(),
        starts[k] <= j < starts[k + 1],
    ensures
        accepts(g, j, w) == pat_tail(masks, k, w),
    decreases w.len(),
{
    let m = masks.len() as int;
    assert(0 <= j < g.len());
    if k == m {
        if w.len() > 0 && w[0] < 26 {
            assert(g[j].kids[w[0] as int] == 0);
        }
    } else {
        if w.len() == 0 {
            assert(!g[j].end);
        } else {
            let c = w[0];
            if c < 26 {
                let t = g[j].kids[c as int];
                if mask_has(masks[k], c) {
                    lemma_mask_count_strict(masks[k], c);
                    assert(starts[k + 1] >= 1) by {
                        assert(starts[0] < starts[1]);
                        if k > 0 {
                            assert(starts[k] < starts[k + 1]);
                            assert(starts[k] >= 0);
                        }
                    }
                    assert(g[j].kids[c as int] == (starts[k + 1] + mask_count(
                        masks[k],
                        c as int,
                    )) as usize);
                    assert(starts[k + 2] - starts[k + 1] >= mask_count(masks[k], 26));
                    assert(starts[k + 1] + mask_count(masks[k], c as int) < starts[k + 2]);
                    assert(starts[k + 2] <= g.len());
                    assert(t == starts[k + 1] + mask_count(masks[k], c as int));
                    assert(t != 0);
                    assert(starts[k + 1] <= t < starts[k + 2]);
                    lemma_rep_chain_accepts(masks, g, starts, k + 1, t as int, w.drop_first());
                } else {
                    assert(t == 0);
                }
            }
        }
    }
}

impl Pattern {
    /// The pattern as a storage-form graph accepting exactly the pattern's
    /// words: each position is replicated once per predecessor edge, so that
    /// every node's children sit at consecutive slots, and one accepting
    /// replica per final symbol closes the chain.
    #[verifier::rlimit(100)]
    #[verifier::spinoff_prover]
    pub fn to_thin(&self) -> (t: ThinDawg)
        requires
            27 * self@.len() + 52 <= usize::MAX,
            forall|k: int| 0 <= k < self@.len() ==> (#[trigger] self@[k]) < 0x400_0000,
        ensures
            t.wf(),
            forall|w: Seq<u8>| accepts(t@, 0, w) == pat_accepts(self@, w),
    {
        let m = self.masks.len();
        if m == 0 {
            let t = ThinDawg { nodes: vec![ThinNode::new(0, 0)] };
            proof {
                assert(t@[0] == thin_view(ThinNode { idx: 0, mask: 0 }));
                assert(!t@[0].end) by {
                    assert((0u32 >> 26) & 1 == 0) by (bit_vector);
                }
                assert forall|c: int| 0 <= c < 26 implies t@[0].kids[c] == 0 by {
                    let cb: u8 = c as u8;
                    assert((0u32 >> (cb as u32)) & 1 == 0) by (bit_vector);
                    assert(!mask_has(0u32, cb));
                }
                assert forall|w: Seq<u8>| !accepts(t@, 0, w) by {
                    if w.len() > 0 && w[0] < 26 {
                        assert(t@[0].kids[w[0] as int] == 0);
                    }
                }
            }
            return t;
        }
        let mut nodes: Vec<ThinNode> = Vec::new();
        let mut repeats: usize = 1;
        let ghost mut starts: Seq<int> = seq![0int];
        let mut k: usize = 0;
        while k < m
            invariant
                m == self@.len(),
                m >= 1,
                27 * m + 52 <= usize::MAX,
                forall|x: int| 0 <= x < m ==> (#[trigger] self@[x]) < 0x400_0000,
                k <= m,
                1 <= repeats <= 26,
                nodes@.len() <= 27 * k,
                starts.len() == k + 1,
                starts[0] == 0,
                starts[k as int] == nodes@.len(),
                forall|x: int| 0 <= x < k ==> #[trigger] starts[x] < starts[x + 1],
                forall|x: int| 0 <= x <= k ==> 0 <= #[trigger] starts[x] <= nodes@.len(),
                k == 0 ==> repeats == 1,
                k >= 1 ==> repeats >= mask_count(self@[k - 1], 26),
                forall|x: int, j: int|
                    #![trigger starts[x], nodes@[j]]
                    0 <= x < k && starts[x] <= j < starts[x + 1] ==> nodes@[j] == (ThinNode {
                        idx: starts[x + 1] as usize,
                        mask: self@[x],
                    }),
                forall|x: int|
                    0 <= x && x + 2 <= k ==> #[trigger] starts[x + 2] - starts[x + 1]
                        >= mask_count(self@[x], 26),
            decreases m - k,
        {
            let mask = self.masks[k];
            let next_reps = mask_bits(mask);
            let base = nodes.len() + repeats;
            let node = ThinNode { idx: base, mask };
            let ghost len0 = nodes@.len() as int;
            let mut rep: usize = 0;
            while rep < repeats
                invariant
                    rep <= repeats,
                    repeats <= 26,
                    nodes@.len() == len0 + rep,
                    0 <= len0,
                    base == len0 + repeats,
                    node == (ThinNode { idx: base, mask }),
                    starts.len() == k + 1,
                    starts[k as int] == len0,
                    forall|x: int| 0 <= x <= k ==> 0 <= #[trigger] starts[x] <= len0,
                    forall|x: int, j: int|
                        #![trigger starts[x], nodes@[j]]
                        0 <= x < k && starts[x] <= j < starts[x + 1] ==> nodes@[j] == (ThinNode {
                            idx: starts[x + 1] as usize,
                            mask: self@[x],
                        }),
                    forall|j: int| len0 <= j < nodes@.len() ==> #[trigger] nodes@[j] == node,
                decreases repeats - rep,
            {
                let ghost pre = nodes@;
                nodes.push(node);
                proof {
                    assert(nodes@ == pre.push(node));
                    assert forall|x: int, j: int|
                        #![trigger starts[x], nodes@[j]]
                        0 <= x < k && starts[x] <= j < starts[x + 1] implies nodes@[j] == (ThinNode {
                        idx: starts[x + 1] as usize,
                        mask: self@[x],
                    }) by {
                        assert(starts[x + 1] <= len0);
                        assert(pre.push(node)[j] == pre[j]);
                    }
                    assert forall|j: int| len0 <= j < nodes@.len() implies #[trigger] nodes@[j]
                        == node by {
                        if j < pre.len() {
                            assert(pre.push(node)[j] == pre[j]);
                        }
                    }
                }
                rep += 1;
            }
            proof {
                starts = starts.push(nodes@.len() as int);
                assert(starts[k + 1] == len0 + repeats);
                assert forall|x: int, j: int|
                    #![trigger starts[x], nodes@[j]]
                    0 <= x < k + 1 && starts[x] <= j < starts[x + 1] implies nodes@[j] == (ThinNode {
                    idx: starts[x + 1] as usize,
                    mask: self@[x],
                }) by {
                    if x < k {
                    } else {
                        assert(j >= len0);
                        assert(nodes@[j] == node);
                        assert(base == starts[x + 1]);
                    }
                }
            }
            repeats = if next_reps == 0 {
                1
            } else {
                next_reps
            };
            k += 1;
        }
        // the accepting tail replicas
        let tail = ThinNode { idx: 0, mask: 1u32 << 26u32 };
        proof {
            assert forall|c: u8| c < 26 implies !mask_has(tail.mask, c) by {
                assert(((1u32 << 26u32) >> (c as u32)) & 1 == 0) by (bit_vector)
                    requires
                        c < 26,
                ;
            }
            assert(t_end(tail)) by {
                assert(((1u32 << 26u32) >> 26) & 1 == 1) by (bit_vector);
            }
        }
        let mut rep: usize = 0;
        let ghost len1 = nodes@.len() as int;
        while rep < repeats
            invariant
                rep <= repeats,
                repeats <= 26,
                nodes@.len() == len1 + rep,
                len1 >= 0,
                tail.idx == 0,
                t_end(tail),
                forall|c: u8| c < 26 ==> !mask_has(tail.mask, c),
                starts.len() == m + 1,
                forall|x: int| 0 <= x <= m ==> 0 <= #[trigger] starts[x] <= len1,
                forall|x: int, j: int|
                    #![trigger starts[x], nodes@[j]]
                    0 <= x < m && starts[x] <= j < starts[x + 1] ==> nodes@[j] == (ThinNode {
                        idx: starts[x + 1] as usize,
                        mask: self@[x],
                    }),
                forall|j: int| len1 <= j < nodes@.len() ==> #[trigger] nodes@[j] == tail,
            decreases repeats - rep,
        {
            let ghost pre = nodes@;
            nodes.push(tail);
            proof {
                assert(nodes@ == pre.push(tail));
                assert forall|x: int, j: int|
                    #![trigger starts[x], nodes@[j]]
                    0 <= x < m && starts[x] <= j < starts[x + 1] implies nodes@[j] == (ThinNode {
                    idx: starts[x + 1] as usize,
                    mask: self@[x],
                }) by {
                    assert(starts[x + 1] <= len1);
                    assert(pre.push(tail)[j] == pre[j]);
                }
                assert forall|j: int| len1 <= j < nodes@.len() implies #[trigger] nodes@[j]
                    == tail by {
                    if j < pre.len() {
                        assert(pre.push(tail)[j] == pre[j]);
                    }
                }
            }
            rep += 1;
        }
        proof {
            starts = starts.push(nodes@.len() as int);
        }
        let t = ThinDawg { nodes };
        proof {
            let masks = self@;
            let mm = masks.len() as int;
            let g = t@;
            assert(g.len() == t.nodes@.len());
            assert forall|j: int| 0 <= j < g.len() implies g[j] == thin_view(t.nodes@[j]) by {}
            // the laid-out nodes form a replicated chain
            assert(rep_chain(masks, g, starts)) by {
                assert forall|x: int, j: int|
                    #![trigger starts[x], g[j]]
                    0 <= x < mm && starts[x] <= j < starts[x + 1] implies !g[j].end
                    && g[j].kids.len() == 26 by {
                    assert(t.nodes@[j] == (ThinNode { idx: starts[x + 1] as usize, mask: masks[x] }));
                    assert(masks[x] < 0x400_0000);
                    assert(!t_end(t.nodes@[j])) by {
                        let mk = masks[x];
                        assert((mk >> 26) & 1 == 0) by (bit_vector)
                            requires
                                mk < 0x400_0000u32,
                        ;
                    }
                }
                assert forall|x: int, j: int, c: int|
                    #![trigger starts[x], g[j].kids[c]]
                    0 <= x < mm && starts[x] <= j < starts[x + 1] && 0 <= c < 26 implies g[j].kids[c]
                    == (if mask_has(masks[x], c as u8) {
                    (starts[x + 1] + mask_count(masks[x], c)) as usize
                } else {
                    0usize
                }) by {
                    assert(t.nodes@[j] == (ThinNode { idx: starts[x + 1] as usize, mask: masks[x] }));
                    assert(g[j].kids[c] == t_kid(t.nodes@[j], c as u8));
                }
                assert forall|j: int| starts[mm] <= j < starts[mm + 1] implies (#[trigger] g[j]).end
                    && g[j].kids.len() == 26 by {
                    assert(t.nodes@[j] == tail);
                }
                assert forall|j: int, c: int|
                    starts[mm] <= j < starts[mm + 1] && 0 <= c < 26 implies #[trigger] g[j].kids[c]
                    == 0 by {
                    assert(t.nodes@[j] == tail);
                    assert(g[j].kids[c] == t_kid(tail, c as u8));
                }
            }
            // well-formedness follows from the chain shape
            assert(graph_wf(g)) by {
                assert forall|j: int| 0 <= j < g.len() implies node_wf(
                    #[trigger] g[j],
                    g.len() as int,
                ) by {
                    lemma_segment_of(starts, mm, j);
                    let x = choose|x: int|
                        0 <= x <= mm && starts[x] <= j < #[trigger] starts[x + 1];
                    assert forall|c: int| 0 <= c < 26 implies (#[trigger] g[j].kids[c])
                        < g.len() by {
                        if x < mm {
                            if mask_has(masks[x], c as u8) {
                                lemma_mask_count_strict(masks[x], c as u8);
                                assert(g[j].kids[c] == (starts[x + 1] + mask_count(
                                    masks[x],
                                    c,
                                )) as usize);
                                assert(starts[x + 2] - starts[x + 1] >= mask_count(masks[x], 26));
                                assert(starts[x + 1] + mask_count(masks[x], c) < starts[x + 2]);
                                assert(0 <= x + 2 < starts.len());
                                assert(starts[x + 2] <= g.len());
                            } else {
                                assert(g[j].kids[c] == 0);
                            }
                        } else {
                            assert(g[j].kids[c] == 0);
                        }
                    }
                }
            }
            assert forall|j: int|
                0 <= j < t.nodes@.len() implies (#[trigger] t.nodes@[j]).idx + 26
                <= usize::MAX by {
                lemma_segment_of(starts, mm, j);
                let x = choose|x: int| 0 <= x <= mm && starts[x] <= j < #[trigger] starts[x + 1];
                if x < mm {
                    assert(t.nodes@[j] == (ThinNode { idx: starts[x + 1] as usize, mask: masks[x] }));
                    assert(starts[x + 1] <= g.len());
                    assert(g.len() <= 27 * mm + 26);
                } else {
                    assert(t.nodes@[j] == tail);
                }
            }
            // the chain accepts exactly the pattern's words
            assert forall|w: Seq<u8>| accepts(g, 0, w) == pat_accepts(masks, w) by {
                assert(starts[0] == 0 && starts[0] < starts[1]);
                lemma_rep_chain_accepts(masks, g, starts, 0, 0, w);
                lemma_pat_tail_iff(masks, 0, w);
                if pat_tail(masks, 0, w) {
                    assert forall|q: int| 0 <= q < w.len() implies mask_has(
                        #[trigger] masks[q],
                        w[q],
                    ) by {
                        assert(mask_has(masks[0 + q], w[q]));
                    }
                    assert(pat_accepts(masks, w));
                } else if pat_accepts(masks, w) {
                    assert forall|q: int| 0 <= q < w.len() implies mask_has(
                        #[trigger] masks[0 + q],
                        w[q],
                    ) by {
                        assert(mask_has(masks[q], w[q]));
                    }
                    assert(pat_tail(masks, 0, w));
                }
            }
        }
        t
    }
}

/// Every slot of a segmented layout lies in some segment.
proof fn lemma_segment_of(starts: Seq<int>, m: int, j: int)
    requires
        starts.len() == m + 2,
        m >= 0,
        starts[0] == 0,
        forall|k: int| 0 <= k <= m ==> #[trigger] starts[k] < starts[k + 1],
        0 <= j < starts[m + 1],
    ensures
        exists|x: int| 0 <= x <= m && starts[x] <= j < #[trigger] starts[x + 1],
    decreases m,
{
    if j >= starts[m] {
        assert(0 <= m <= m && starts[m] <= j < starts[m + 1]);
    } else {
        lemma_segment_of(starts.drop_last(), m - 1, j);
        let x = choose|x: int|
            0 <= x <= m - 1 && starts.drop_last()[x] <= j < #[trigger] starts.drop_last()[x + 1];
        assert(starts[x] <= j < starts[x + 1]);
    }
}

impl ReadDawg for Pattern {
    /// A pattern is always ready to be read.
    open spec fn inv(&self) -> bool {
        true
    }

    open spec fn spec_has(&self, w: Seq<u8>) -> bool {
        pat_accepts(self@, w)
    }

    fn has(&self, word: &[u8]) -> (r: bool) {
        Pattern::has(self, word)
    }

    fn words(&self) -> (r: Vec<Vec<u8>>) {
        let d = self.to_flat();
        let r = d.word_vec();
        proof {
            let dv = r.deep_view();
            assert forall|k: int| 0 <= k < dv.len() implies self.spec_has(#[trigger] dv[k])
                && valid_word(dv[k]) by {
                assert(dv.contains(dv[k]));
                assert(pat_accepts(self@, dv[k]));
                assert forall|q: int| 0 <= q < dv[k].len() implies dv[k][q] < 26 by {
                    assert(mask_has(self@[q], dv[k][q]));
                }
            }
        }
        r
    }
}

} // verus!

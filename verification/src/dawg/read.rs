//! Reading words out of a DAWG: the read capability trait, the word
//! enumerator and the cycle check.

use vstd::prelude::*;

use crate::dawg::flat::FlatDawg;
use crate::model::{
    accepts, acyclic, lemma_acyclic_word_len, lemma_walk_append, lemma_walk_step, valid_word, walk,
};
use crate::words::lemma_accepts_symbols;
use crate::words::{
    lemma_word_list_mem, lemma_word_list_sorted, prepend_all, strictly_sorted, word_list,
    word_list_from,
};

verus! {

/// Read access shared by every DAWG shape: a flat graph, a pattern or a
/// combinator view.  `spec_has` is the accepted word set; `words` returns it
/// in strictly ascending lexicographic order.
pub trait ReadDawg: Sized {
    /// The well-formedness the read operations rely on.
    spec fn inv(&self) -> bool;

    /// Whether the DAWG accepts `w`.
    spec fn spec_has(&self, w: Seq<u8>) -> bool;

    /// Whether the DAWG contains the given word.
    fn has(&self, word: &[u8]) -> (r: bool)
        requires
            self.inv(),
        ensures
            r == self.spec_has(word@),
    ;

    /// Every accepted word, in strictly ascending lexicographic order.
    fn words(&self) -> (r: Vec<Vec<u8>>)
        requires
            self.inv(),
        ensures
            forall|k: int| 0 <= k < r.deep_view().len() ==> self.spec_has(#[trigger] r.deep_view()[k]),
            forall|k: int| 0 <= k < r.deep_view().len() ==> valid_word(#[trigger] r.deep_view()[k]),
            forall|w: Seq<u8>| self.spec_has(w) ==> r.deep_view().contains(w),
            strictly_sorted(r.deep_view()),
    ;
}

impl ReadDawg for FlatDawg {
    /// Reading relies on a well-formed, acyclic graph.
    open spec fn inv(&self) -> bool {
        self.wf() && acyclic(self@)
    }

    open spec fn spec_has(&self, w: Seq<u8>) -> bool {
        accepts(self@, 0, w)
    }

    fn has(&self, word: &[u8]) -> (r: bool) {
        FlatDawg::has(self, word)
    }

    fn words(&self) -> (r: Vec<Vec<u8>>) {
        let r = self.word_vec();
        proof {
            let dv = r.deep_view();
            assert forall|k: int| 0 <= k < dv.len() implies self.spec_has(#[trigger] dv[k])
                && valid_word(dv[k]) by {
                assert(dv.contains(dv[k]));
                lemma_accepts_symbols(self@, 0, dv[k]);
            }
        }
        r
    }
}

/// A copy of `w` with `c` put in front.
fn prepend_word(c: u8, w: &Vec<u8>) -> (r: Vec<u8>)
    ensures
        r@ == seq![c] + w@,
{
    let mut r: Vec<u8> = Vec::new();
    r.push(c);
    let mut j: usize = 0;
    while j < w.len()
        invariant
            j <= w@.len(),
            r@.len() == j + 1,
            r@[0] == c,
            forall|m: int| 0 <= m < j ==> r@[m + 1] == w@[m],
        decreases w@.len() - j,
    {
        r.push(w[j]);
        j += 1;
    }
    proof {
        assert(r@ =~= seq![c] + w@);
    }
    r
}

impl FlatDawg {
    /// All words accepted from node `i` whose length is under `fuel`,
    /// ascending: the executable form of [`word_list`].
    fn collect_from(&self, i: usize, fuel: usize) -> (r: Vec<Vec<u8>>)
        requires
            self.wf(),
            i < self@.len(),
        ensures
            r.deep_view() == word_list(self@, i as int, fuel as nat),
        decreases fuel,
    {
        let ghost g = self@;
        let mut out: Vec<Vec<u8>> = Vec::new();
        if fuel == 0 {
            proof {
                assert(out.deep_view() =~~= word_list(g, i as int, 0));
            }
            return out;
        }
        proof {
            assert(g[i as int] == self.nodes@[i as int]@);
        }
        let ghost base: Seq<Seq<u8>> = if g[i as int].end {
            seq![Seq::<u8>::empty()]
        } else {
            Seq::empty()
        };
        if self.nodes[i].is_end() {
            out.push(Vec::new());
        }
        proof {
            assert(out.deep_view() =~~= base);
        }
        let mut c: u8 = 0;
        while c < 26
            invariant
                self.wf(),
                g == self@,
                i < g.len(),
                c <= 26,
                fuel >= 1,
                out.deep_view() + word_list_from(g, i as int, c as int, fuel as nat) == word_list(
                    g,
                    i as int,
                    fuel as nat,
                ),
            decreases 26 - c,
        {
            proof {
                assert(g[i as int] == self.nodes@[i as int]@);
            }
            let t = self.nodes[i].get(c);
            let ghost before = out.deep_view();
            if t != 0 {
                proof {
                    assert(0 <= t < g.len());
                }
                let sub = self.collect_from(t, fuel - 1);
                let ghost subdv = sub.deep_view();
                let mut j: usize = 0;
                while j < sub.len()
                    invariant
                        j <= subdv.len(),
                        sub.deep_view() == subdv,
                        out.deep_view() == before + prepend_all(c, subdv).take(j as int),
                        c < 26,
                    decreases subdv.len() - j,
                {
                    let ghost outdv = out.deep_view();
                    let pw = prepend_word(c, &sub[j]);
                    out.push(pw);
                    proof {
                        assert(sub@[j as int]@ == subdv[j as int]);
                        assert(prepend_all(c, subdv)[j as int] == seq![c] + subdv[j as int]);
                        assert(out.deep_view() =~~= outdv.push(pw@));
                        assert(out.deep_view() =~~= before + prepend_all(c, subdv).take(j + 1));
                    }
                    j += 1;
                }
                proof {
                    assert(prepend_all(c, subdv).take(subdv.len() as int) =~= prepend_all(
                        c,
                        subdv,
                    ));
                    assert(out.deep_view() == before + prepend_all(c, subdv));
                    // one unfolding of word_list_from
                    assert(word_list_from(g, i as int, c as int, fuel as nat) == prepend_all(
                        c,
                        word_list(g, t as int, (fuel - 1) as nat),
                    ) + word_list_from(g, i as int, c + 1, fuel as nat));
                    assert(out.deep_view() + word_list_from(g, i as int, c + 1, fuel as nat)
                        =~~= before + word_list_from(g, i as int, c as int, fuel as nat));
                }
            } else {
                proof {
                    assert(word_list_from(g, i as int, c as int, fuel as nat) =~= Seq::<
                        Seq<u8>,
                    >::empty() + word_list_from(g, i as int, c + 1, fuel as nat));
                    assert(word_list_from(g, i as int, c as int, fuel as nat) == word_list_from(
                        g,
                        i as int,
                        c + 1,
                        fuel as nat,
                    ));
                }
            }
            c += 1;
        }
        proof {
            assert(word_list_from(g, i as int, 26, fuel as nat) =~= Seq::<Seq<u8>>::empty());
            assert(out.deep_view() =~~= out.deep_view() + word_list_from(g, i as int, 26, fuel as nat));
        }
        out
    }

    /// Every accepted word, ascending; the graph must be acyclic so that the
    /// enumeration is finite.
    pub fn word_vec(&self) -> (r: Vec<Vec<u8>>)
        requires
            self.wf(),
            acyclic(self@),
        ensures
            r.deep_view() == word_list(self@, 0, self@.len() as nat),
            forall|w: Seq<u8>| r.deep_view().contains(w) <==> accepts(self@, 0, w),
            strictly_sorted(r.deep_view()),
    {
        let r = self.collect_from(0, self.nodes.len());
        proof {
            lemma_word_list_sorted(self@, 0, self@.len() as nat);
            assert forall|w: Seq<u8>| r.deep_view().contains(w) <==> accepts(self@, 0, w) by {
                lemma_word_list_mem(self@, 0, self@.len() as nat, w);
                if accepts(self@, 0, w) {
                    lemma_acyclic_word_len(self@, w);
                }
            }
        }
        r
    }

    /// How many words the graph holds: the length of its word list.
    pub fn len(&self) -> (r: usize)
        requires
            self.wf(),
            acyclic(self@),
        ensures
            r == word_list(self@, 0, self@.len() as nat).len(),
    {
        let ws = self.word_vec();
        ws.len()
    }

    /// Whether the graph holds no word at all.
    pub fn is_empty(&self) -> (r: bool)
        requires
            self.wf(),
            acyclic(self@),
        ensures
            r == (forall|w: Seq<u8>| !accepts(self@, 0, w)),
    {
        let ws = self.word_vec();
        let r = ws.len() == 0;
        proof {
            let dv = ws.deep_view();
            if dv.len() == 0 {
                assert forall|w: Seq<u8>| !accepts(self@, 0, w) by {
                    if accepts(self@, 0, w) {
                        assert(dv.contains(w));
                    }
                }
            } else {
                assert(dv.contains(dv[0]));
                assert(accepts(self@, 0, dv[0]));
            }
        }
        r
    }

    /// Whether a walk from node `i` of exactly `fuel` steps exists.
    fn probe(&self, i: usize, fuel: usize) -> (r: bool)
        requires
            self.wf(),
            i < self@.len(),
        ensures
            r == exists|w: Seq<u8>| w.len() == fuel && walk(self@, i as int, w) >= 0,
        decreases fuel,
    {
        let ghost g = self@;
        if fuel == 0 {
            proof {
                let w = Seq::<u8>::empty();
                assert(w.len() == 0 && walk(g, i as int, w) >= 0);
            }
            return true;
        }
        let mut c: u8 = 0;
        while c < 26
            invariant
                self.wf(),
                g == self@,
                i < g.len(),
                c <= 26,
                fuel >= 1,
                forall|w: Seq<u8>|
                    w.len() == fuel && #[trigger] walk(g, i as int, w) >= 0 ==> w[0] >= c,
            decreases 26 - c,
        {
            proof {
                assert(g[i as int] == self.nodes@[i as int]@);
            }
            let t = self.nodes[i].get(c);
            if t != 0 {
                proof {
                    assert(0 <= t < g.len());
                }
                if self.probe(t, fuel - 1) {
                    proof {
                        let w1 = choose|w1: Seq<u8>|
                            w1.len() == fuel - 1 && walk(g, t as int, w1) >= 0;
                        let w = seq![c] + w1;
                        lemma_walk_step(g, i as int, c);
                        lemma_walk_append(g, i as int, seq![c], w1);
                        assert(w.len() == fuel && walk(g, i as int, w) >= 0);
                    }
                    return true;
                }
            }
            proof {
                assert forall|w: Seq<u8>|
                    w.len() == fuel && #[trigger] walk(g, i as int, w) >= 0 implies w[0]
                    >= c + 1 by {
                    if w[0] == c {
                        assert(w =~= seq![c] + w.drop_first());
                        lemma_walk_step(g, i as int, c);
                        lemma_walk_append(g, i as int, seq![c], w.drop_first());
                        if t != 0 {
                            assert(walk(g, t as int, w.drop_first()) >= 0);
                            assert(w.drop_first().len() == fuel - 1);
                        }
                    }
                }
            }
            c += 1;
        }
        proof {
            assert forall|w: Seq<u8>| !(w.len() == fuel && walk(g, i as int, w) >= 0) by {
                if w.len() == fuel && walk(g, i as int, w) >= 0 {
                    assert(w[0] >= 26);
                    assert(walk(g, i as int, w) == -1);
                }
            }
        }
        false
    }

    /// Whether the graph has a cycle reachable from the root.  Transformation
    /// entry points assume this is false; word-built graphs keep it false.
    pub fn is_cyclic(&self) -> (r: bool)
        requires
            self.wf(),
        ensures
            r == !acyclic(self@),
    {
        let ghost g = self@;
        let n = self.nodes.len();
        let r = self.probe(0, n);
        proof {
            if r {
                let w = choose|w: Seq<u8>| w.len() == n && walk(g, 0, w) >= 0;
                assert(!(w.len() < g.len()));
            } else {
                assert forall|w: Seq<u8>| walk(g, 0, w) >= 0 implies w.len() < g.len() by {
                    if w.len() >= g.len() {
                        assert(w =~= w.take(n as int) + w.skip(n as int));
                        lemma_walk_append(g, 0, w.take(n as int), w.skip(n as int));
                        assert(walk(g, 0, w.take(n as int)) >= 0);
                        assert(w.take(n as int).len() == n);
                    }
                }
            }
        }
        r
    }
}

} // verus!

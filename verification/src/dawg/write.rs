//! Editing a flat graph wholesale: building from word lists and the
//! set-algebra operations against any read-only DAWG.

use vstd::prelude::*;

use crate::dawg::flat::FlatDawg;
use crate::dawg::read::ReadDawg;
use crate::model::{accepts, acyclic, forward, single_parent, unshared, valid_word, walk, SpecNode};
use crate::words::lemma_accepts_symbols;

verus! {

/// What adding a word list does to one word's acceptance.
pub open spec fn added_at(g0: Seq<SpecNode>, g1: Seq<SpecNode>, ws: Seq<Seq<u8>>, v: Seq<u8>) -> bool {
    accepts(g1, 0, v) == (accepts(g0, 0, v) || ws.contains(v))
}

/// What taking the union with another DAWG does to one word's acceptance.
pub open spec fn union_at<D: ReadDawg>(
    g0: Seq<SpecNode>,
    g1: Seq<SpecNode>,
    other: &D,
    v: Seq<u8>,
) -> bool {
    accepts(g1, 0, v) == (accepts(g0, 0, v) || other.spec_has(v))
}

/// What taking the difference with another DAWG does to one word's acceptance.
pub open spec fn minus_at<D: ReadDawg>(
    g0: Seq<SpecNode>,
    g1: Seq<SpecNode>,
    other: &D,
    v: Seq<u8>,
) -> bool {
    accepts(g1, 0, v) == (accepts(g0, 0, v) && !other.spec_has(v))
}

/// What intersecting with another DAWG does to one word's acceptance.
pub open spec fn inter_at<D: ReadDawg>(
    g0: Seq<SpecNode>,
    g1: Seq<SpecNode>,
    other: &D,
    v: Seq<u8>,
) -> bool {
    accepts(g1, 0, v) == (accepts(g0, 0, v) && other.spec_has(v))
}

/// Whether the graph accepts exactly the listed words, at one word.
pub open spec fn holds_exactly(g: Seq<SpecNode>, ws: Seq<Seq<u8>>, v: Seq<u8>) -> bool {
    accepts(g, 0, v) == ws.contains(v)
}

/// What removing a word list does to one word's acceptance.
pub open spec fn removed_at(g0: Seq<SpecNode>, g1: Seq<SpecNode>, ws: Seq<Seq<u8>>, v: Seq<u8>) -> bool {
    accepts(g1, 0, v) == (accepts(g0, 0, v) && !ws.contains(v))
}


impl FlatDawg {
    /// Adds every word of `words`.  On a prefix-tree graph the accepted set
    /// grows by exactly those words.
    #[verifier::rlimit(50)]
    #[verifier::spinoff_prover]
    pub fn add_all(&mut self, words: &Vec<Vec<u8>>) -> (n: usize)
        requires
            old(self).wf(),
            acyclic(old(self)@),
            unshared(old(self)@),
            forall|k: int| 0 <= k < words.deep_view().len() ==> valid_word(#[trigger] words.deep_view()[k]),
        ensures
            final(self).wf(),
            acyclic(final(self)@),
            unshared(final(self)@),
            forward(old(self)@) ==> forward(final(self)@),
            single_parent(old(self)@) ==> single_parent(final(self)@),
            forall|v: Seq<u8>| #[trigger] added_at(old(self)@, final(self)@, words.deep_view(), v),
            n == words@.len(),
    {
        let ghost g0 = old(self)@;
        let ghost dv = words.deep_view();
        let mut k: usize = 0;
        while k < words.len()
            invariant
                self.wf(),
                acyclic(self@),
                unshared(self@),
                forward(g0) ==> forward(self@),
                single_parent(g0) ==> single_parent(self@),
                k <= dv.len(),
                words.deep_view() == dv,
                forall|j: int| 0 <= j < dv.len() ==> valid_word(#[trigger] dv[j]),
                forall|v: Seq<u8>|
                    accepts(self@, 0, v) == (accepts(g0, 0, v) || dv.take(k as int).contains(v)),
            decreases dv.len() - k,
        {
            let ghost gpre = self@;
            proof {
                assert(dv[k as int] == words@[k as int]@);
                assert(valid_word(dv[k as int]));
                assert forall|v: Seq<u8>|
                    accepts(gpre, 0, v) == (accepts(g0, 0, v) || dv.take(k as int).contains(
                        v,
                    )) by {}
            }
            self.add(&words[k]);
            proof {
                assert forall|v: Seq<u8>|
                    accepts(self@, 0, v) == (accepts(g0, 0, v) || dv.take(k + 1).contains(
                        v,
                    )) by {
                    assert(accepts(self@, 0, v) == (accepts(gpre, 0, v) || v == words@[k as int]@));
                    assert(accepts(self@, 0, v) == (accepts(gpre, 0, v) || v == dv[k as int]));
                    assert(accepts(gpre, 0, v) == (accepts(g0, 0, v) || dv.take(k as int).contains(
                        v,
                    )));
                    if dv.take(k + 1).contains(v) {
                        let j = choose|j: int| 0 <= j < k + 1 && #[trigger] dv.take(k + 1)[j] == v;
                        if j < k {
                            assert(dv.take(k as int)[j] == v);
                            assert(dv.take(k as int).contains(v));
                        }
                    }
                    if dv.take(k as int).contains(v) {
                        let j = choose|j: int| 0 <= j < k && #[trigger] dv.take(k as int)[j] == v;
                        assert(dv.take(k + 1)[j] == v);
                    }
                    if v == dv[k as int] {
                        assert(dv.take(k + 1)[k as int] == v);
                    }
                }
            }
            k += 1;
        }
        proof {
            assert(k == dv.len());
            assert(dv.take(k as int) =~= dv);
            assert forall|v: Seq<u8>|
                accepts(self@, 0, v) == (accepts(g0, 0, v) || words.deep_view().contains(v)) by {
                assert(accepts(self@, 0, v) == (accepts(g0, 0, v) || dv.take(k as int).contains(
                    v,
                )));
                assert(dv.take(k as int) == dv);
            }
            assert forall|v: Seq<u8>| #[trigger] added_at(g0, self@, words.deep_view(), v) by {
                assert(accepts(self@, 0, v) == (accepts(g0, 0, v) || words.deep_view().contains(
                    v,
                )));
            }
        }
        k
    }

    /// Builds a fresh prefix-tree graph accepting exactly the given words.
    pub fn from_words(words: &Vec<Vec<u8>>) -> (d: FlatDawg)
        requires
            forall|k: int| 0 <= k < words.deep_view().len() ==> valid_word(#[trigger] words.deep_view()[k]),
        ensures
            d.wf(),
            acyclic(d@),
            unshared(d@),
            forward(d@),
            single_parent(d@),
            forall|v: Seq<u8>| #[trigger] holds_exactly(d@, words.deep_view(), v),
    {
        let mut d = FlatDawg::new();
        let ghost g0 = d@;
        d.add_all(words);
        proof {
            assert forall|v: Seq<u8>| #[trigger] holds_exactly(d@, words.deep_view(), v) by {
                assert(added_at(g0, d@, words.deep_view(), v));
                assert(!accepts(g0, 0, v));
            }
        }
        d
    }

    /// Removes every word of `words` that was present.
    #[verifier::rlimit(50)]
    #[verifier::spinoff_prover]
    pub fn sub_all(&mut self, words: &Vec<Vec<u8>>)
        requires
            old(self).wf(),
            unshared(old(self)@),
            forall|k: int| 0 <= k < words.deep_view().len() ==> valid_word(#[trigger] words.deep_view()[k]),
        ensures
            final(self).wf(),
            final(self)@.len() == old(self)@.len(),
            unshared(final(self)@),
            acyclic(old(self)@) ==> acyclic(final(self)@),
            forward(old(self)@) ==> forward(final(self)@),
            single_parent(old(self)@) ==> single_parent(final(self)@),
            forall|i: int, w: Seq<u8>| walk(final(self)@, i, w) == walk(old(self)@, i, w),
            forall|v: Seq<u8>| #[trigger] removed_at(old(self)@, final(self)@, words.deep_view(), v),
    {
        let ghost g0 = old(self)@;
        let ghost dv = words.deep_view();
        let mut k: usize = 0;
        while k < words.len()
            invariant
                self.wf(),
                self@.len() == g0.len(),
                unshared(self@),
                acyclic(g0) ==> acyclic(self@),
                forward(g0) ==> forward(self@),
                single_parent(g0) ==> single_parent(self@),
                forall|i: int, w: Seq<u8>| walk(self@, i, w) == walk(g0, i, w),
                k <= dv.len(),
                words.deep_view() == dv,
                forall|j: int| 0 <= j < dv.len() ==> valid_word(#[trigger] dv[j]),
                forall|v: Seq<u8>|
                    accepts(self@, 0, v) == (accepts(g0, 0, v) && !dv.take(k as int).contains(v)),
            decreases dv.len() - k,
        {
            let ghost gpre = self@;
            proof {
                assert(dv[k as int] == words@[k as int]@);
                assert(valid_word(dv[k as int]));
                assert forall|v: Seq<u8>|
                    accepts(gpre, 0, v) == (accepts(g0, 0, v) && !dv.take(k as int).contains(
                        v,
                    )) by {}
            }
            self.sub(&words[k]);
            proof {
                assert forall|v: Seq<u8>|
                    accepts(self@, 0, v) == (accepts(g0, 0, v) && !dv.take(k + 1).contains(
                        v,
                    )) by {
                    assert(accepts(self@, 0, v) == (accepts(gpre, 0, v) && v != words@[k as int]@));
                    assert(accepts(self@, 0, v) == (accepts(gpre, 0, v) && v != dv[k as int]));
                    assert(accepts(gpre, 0, v) == (accepts(g0, 0, v) && !dv.take(k as int).contains(
                        v,
                    )));
                    if dv.take(k + 1).contains(v) {
                        let j = choose|j: int| 0 <= j < k + 1 && #[trigger] dv.take(k + 1)[j] == v;
                        if j < k {
                            assert(dv.take(k as int)[j] == v);
                            assert(dv.take(k as int).contains(v));
                        }
                    }
                    if dv.take(k as int).contains(v) {
                        let j = choose|j: int| 0 <= j < k && #[trigger] dv.take(k as int)[j] == v;
                        assert(dv.take(k + 1)[j] == v);
                    }
                    if v == dv[k as int] {
                        assert(dv.take(k + 1)[k as int] == v);
                    }
                }
            }
            k += 1;
        }
        proof {
            assert(k == dv.len());
            assert(dv.take(k as int) =~= dv);
            assert forall|v: Seq<u8>|
                accepts(self@, 0, v) == (accepts(g0, 0, v) && !words.deep_view().contains(v)) by {
                assert(accepts(self@, 0, v) == (accepts(g0, 0, v) && !dv.take(k as int).contains(
                    v,
                )));
                assert(dv.take(k as int) == dv);
            }
            assert forall|v: Seq<u8>| #[trigger] removed_at(g0, self@, words.deep_view(), v) by {
                assert(accepts(self@, 0, v) == (accepts(g0, 0, v) && !words.deep_view().contains(
                    v,
                )));
            }
        }
    }

    /// Re-expands the graph into prefix-tree form: the same words, one node
    /// per distinct prefix.  This restores the shape the in-place set-algebra
    /// operations need after `clean` has shared suffixes.
    pub fn rebuild(&mut self)
        requires
            old(self).wf(),
            acyclic(old(self)@),
        ensures
            final(self).wf(),
            acyclic(final(self)@),
            unshared(final(self)@),
            forward(final(self)@),
            single_parent(final(self)@),
            forall|w: Seq<u8>| accepts(final(self)@, 0, w) == accepts(old(self)@, 0, w),
    {
        let ws = self.word_vec();
        let ghost g0 = self@;
        proof {
            let dv = ws.deep_view();
            assert forall|k: int| 0 <= k < dv.len() implies valid_word(#[trigger] dv[k]) by {
                assert(dv.contains(dv[k]));
                lemma_accepts_symbols(g0, 0, dv[k]);
            }
        }
        *self = FlatDawg::from_words(&ws);
        proof {
            let dv = ws.deep_view();
            assert forall|w: Seq<u8>| accepts(self@, 0, w) == accepts(g0, 0, w) by {
                assert(holds_exactly(self@, dv, w));
                assert(dv.contains(w) == accepts(g0, 0, w)) by {
                    if dv.contains(w) {
                        let j = choose|j: int| 0 <= j < dv.len() && #[trigger] dv[j] == w;
                        assert(accepts(g0, 0, dv[j]));
                    }
                }
            }
        }
    }

    /// Adds every word of `other`: afterwards the graph accepts the union of
    /// the two word sets.  The mutated graph must be in prefix-tree form
    /// (`unshared`): on a graph with shared suffixes, adding into a shared
    /// node would add unintended words; `rebuild` restores the form.
    pub fn union<D: ReadDawg>(&mut self, other: &D)
        requires
            old(self).wf(),
            acyclic(old(self)@),
            unshared(old(self)@),
            other.inv(),
        ensures
            final(self).wf(),
            acyclic(final(self)@),
            unshared(final(self)@),
            forward(old(self)@) ==> forward(final(self)@),
            single_parent(old(self)@) ==> single_parent(final(self)@),
            forall|v: Seq<u8>| #[trigger] union_at(old(self)@, final(self)@, other, v),
    {
        let ws = other.words();
        self.add_all(&ws);
        proof {
            let dv = ws.deep_view();
            assert forall|v: Seq<u8>| dv.contains(v) == other.spec_has(v) by {
                if dv.contains(v) {
                    let j = choose|j: int| 0 <= j < dv.len() && #[trigger] dv[j] == v;
                    assert(other.spec_has(dv[j]));
                }
            }
            assert forall|v: Seq<u8>| #[trigger] union_at(old(self)@, self@, other, v) by {
                assert(added_at(old(self)@, self@, dv, v));
                assert(dv.contains(v) == other.spec_has(v));
            }
        }
    }

    /// Keeps exactly the words `other` also accepts: the intersection of the
    /// two word sets.  Only accepting flags change; the node count and every
    /// walk stay.  The mutated graph must be in prefix-tree form (`unshared`):
    /// clearing a flag on a shared node would drop co-walking words too.
    pub fn intersect<D: ReadDawg>(&mut self, other: &D)
        requires
            old(self).wf(),
            acyclic(old(self)@),
            unshared(old(self)@),
            other.inv(),
        ensures
            final(self).wf(),
            final(self)@.len() == old(self)@.len(),
            acyclic(final(self)@),
            unshared(final(self)@),
            forward(old(self)@) ==> forward(final(self)@),
            single_parent(old(self)@) ==> single_parent(final(self)@),
            forall|i: int, w: Seq<u8>| walk(final(self)@, i, w) == walk(old(self)@, i, w),
            forall|v: Seq<u8>| #[trigger] inter_at(old(self)@, final(self)@, other, v),
    {
        let ghost g0 = old(self)@;
        let mine = self.word_vec();
        let ghost dv = mine.deep_view();
        proof {
            assert forall|k: int| 0 <= k < dv.len() implies valid_word(#[trigger] dv[k]) by {
                assert(dv.contains(dv[k]));
                lemma_accepts_symbols(g0, 0, dv[k]);
            }
        }
        let mut k: usize = 0;
        while k < mine.len()
            invariant
                self.wf(),
                self@.len() == g0.len(),
                acyclic(self@),
                unshared(self@),
                forward(g0) ==> forward(self@),
                single_parent(g0) ==> single_parent(self@),
                forall|i: int, w: Seq<u8>| walk(self@, i, w) == walk(g0, i, w),
                other.inv(),
                k <= dv.len(),
                mine.deep_view() == dv,
                forall|j: int| 0 <= j < dv.len() ==> valid_word(#[trigger] dv[j]),
                forall|v: Seq<u8>|
                    accepts(self@, 0, v) == (accepts(g0, 0, v) && !(dv.take(k as int).contains(v)
                        && !other.spec_has(v))),
            decreases dv.len() - k,
        {
            let ghost gpre = self@;
            proof {
                assert(dv[k as int] == mine@[k as int]@);
                assert(valid_word(dv[k as int]));
                assert forall|v: Seq<u8>|
                    accepts(gpre, 0, v) == (accepts(g0, 0, v) && !(dv.take(k as int).contains(v)
                        && !other.spec_has(v))) by {}
            }
            let keep_it = other.has(&mine[k]);
            if !keep_it {
                self.sub(&mine[k]);
            }
            proof {
                assert forall|v: Seq<u8>|
                    accepts(self@, 0, v) == (accepts(g0, 0, v) && !(dv.take(k + 1).contains(v)
                        && !other.spec_has(v))) by {
                    assert(accepts(gpre, 0, v) == (accepts(g0, 0, v) && !(dv.take(
                        k as int,
                    ).contains(v) && !other.spec_has(v))));
                    if keep_it {
                        assert(accepts(self@, 0, v) == accepts(gpre, 0, v));
                    } else {
                        assert(accepts(self@, 0, v) == (accepts(gpre, 0, v) && v != mine@[
                            k as int]@));
                        assert(accepts(self@, 0, v) == (accepts(gpre, 0, v) && v != dv[k as int]));
                    }
                    if dv.take(k + 1).contains(v) {
                        let j = choose|j: int| 0 <= j < k + 1 && #[trigger] dv.take(k + 1)[j] == v;
                        if j < k {
                            assert(dv.take(k as int)[j] == v);
                            assert(dv.take(k as int).contains(v));
                        }
                    }
                    if dv.take(k as int).contains(v) {
                        let j = choose|j: int| 0 <= j < k && #[trigger] dv.take(k as int)[j] == v;
                        assert(dv.take(k + 1)[j] == v);
                    }
                    if v == dv[k as int] {
                        assert(dv.take(k + 1)[k as int] == v);
                    }
                }
            }
            k += 1;
        }
        proof {
            assert(dv.take(dv.len() as int) =~= dv);
            assert forall|v: Seq<u8>| #[trigger] inter_at(g0, self@, other, v) by {
                assert(accepts(self@, 0, v) == (accepts(g0, 0, v) && !(dv.take(
                    dv.len() as int,
                ).contains(v) && !other.spec_has(v))));
                if accepts(g0, 0, v) {
                    assert(dv.contains(v));
                }
            }
        }
    }

    /// Drops every word `other` accepts: the difference of the two word sets.
    /// Only accepting flags change; the node count and every walk stay.  The
    /// mutated graph must be in prefix-tree form (`unshared`): clearing a flag
    /// on a shared node would drop co-walking words too.
    pub fn remove<D: ReadDawg>(&mut self, other: &D)
        requires
            old(self).wf(),
            unshared(old(self)@),
            other.inv(),
        ensures
            final(self).wf(),
            final(self)@.len() == old(self)@.len(),
            unshared(final(self)@),
            acyclic(old(self)@) ==> acyclic(final(self)@),
            forward(old(self)@) ==> forward(final(self)@),
            single_parent(old(self)@) ==> single_parent(final(self)@),
            forall|i: int, w: Seq<u8>| walk(final(self)@, i, w) == walk(old(self)@, i, w),
            forall|v: Seq<u8>| #[trigger] minus_at(old(self)@, final(self)@, other, v),
    {
        let ws = other.words();
        self.sub_all(&ws);
        proof {
            let dv = ws.deep_view();
            assert forall|v: Seq<u8>| dv.contains(v) == other.spec_has(v) by {
                if dv.contains(v) {
                    let j = choose|j: int| 0 <= j < dv.len() && #[trigger] dv[j] == v;
                    assert(other.spec_has(dv[j]));
                }
            }
            assert forall|v: Seq<u8>| #[trigger] minus_at(old(self)@, self@, other, v) by {
                assert(removed_at(old(self)@, self@, dv, v));
                assert(dv.contains(v) == other.spec_has(v));
            }
        }
    }

    /// Keeps only the accepted words the predicate approves: a kept word was
    /// approved by a call of `f` on it, a dropped word was rejected by one.
    pub fn keep<F: Fn(&Vec<u8>) -> bool>(&mut self, f: F)
        requires
            old(self).wf(),
            acyclic(old(self)@),
            unshared(old(self)@),
            forall|v: &Vec<u8>| #[trigger] call_requires(f, (v,)),
        ensures
            final(self).wf(),
            final(self)@.len() == old(self)@.len(),
            acyclic(final(self)@),
            unshared(final(self)@),
            forward(old(self)@) ==> forward(final(self)@),
            single_parent(old(self)@) ==> single_parent(final(self)@),
            forall|i: int, w: Seq<u8>| walk(final(self)@, i, w) == walk(old(self)@, i, w),
            forall|v: Seq<u8>| accepts(final(self)@, 0, v) ==> accepts(old(self)@, 0, v),
            forall|v: Seq<u8>|
                accepts(final(self)@, 0, v) ==> exists|a: Vec<u8>|
                    a@ == v && #[trigger] call_ensures(f, (&a,), true),
            forall|v: Seq<u8>|
                accepts(old(self)@, 0, v) && !accepts(final(self)@, 0, v) ==> exists|a: Vec<u8>|
                    a@ == v && #[trigger] call_ensures(f, (&a,), false),
    {
        let ghost g0 = old(self)@;
        let mine = self.word_vec();
        let ghost dv = mine.deep_view();
        proof {
            assert forall|k: int| 0 <= k < dv.len() implies valid_word(#[trigger] dv[k]) by {
                assert(dv.contains(dv[k]));
                lemma_accepts_symbols(g0, 0, dv[k]);
            }
        }
        let mut k: usize = 0;
        while k < mine.len()
            invariant
                self.wf(),
                self@.len() == g0.len(),
                acyclic(self@),
                unshared(self@),
                forward(g0) ==> forward(self@),
                single_parent(g0) ==> single_parent(self@),
                forall|i: int, w: Seq<u8>| walk(self@, i, w) == walk(g0, i, w),
                forall|v: &Vec<u8>| #[trigger] call_requires(f, (v,)),
                k <= dv.len(),
                mine.deep_view() == dv,
                forall|j: int| 0 <= j < dv.len() ==> valid_word(#[trigger] dv[j]),
                forall|v: Seq<u8>| accepts(self@, 0, v) ==> accepts(g0, 0, v),
                forall|v: Seq<u8>|
                    accepts(g0, 0, v) && !dv.take(k as int).contains(v) ==> accepts(self@, 0, v),
                forall|v: Seq<u8>|
                    dv.take(k as int).contains(v) && accepts(self@, 0, v) ==> exists|a: Vec<u8>|
                        a@ == v && #[trigger] call_ensures(f, (&a,), true),
                forall|v: Seq<u8>|
                    dv.take(k as int).contains(v) && accepts(g0, 0, v) && !accepts(self@, 0, v)
                        ==> exists|a: Vec<u8>| a@ == v && #[trigger] call_ensures(f, (&a,), false),
            decreases dv.len() - k,
        {
            let ghost gpre = self@;
            proof {
                assert(dv[k as int] == mine@[k as int]@);
                assert(valid_word(dv[k as int]));
            }
            let keep_it = f(&mine[k]);
            if !keep_it {
                self.sub(&mine[k]);
            }
            proof {
                let w = dv[k as int];
                if keep_it {
                    assert(mine@[k as int]@ == w && call_ensures(f, (&mine@[k as int],), true));
                } else {
                    assert(mine@[k as int]@ == w && call_ensures(f, (&mine@[k as int],), false));
                    assert(forall|v: Seq<u8>|
                        accepts(self@, 0, v) == (accepts(gpre, 0, v) && v != w));
                }
                assert forall|v: Seq<u8>| dv.take(k + 1).contains(v) implies dv.take(
                    k as int,
                ).contains(v) || v == w by {
                    let j = choose|j: int| 0 <= j < k + 1 && #[trigger] dv.take(k + 1)[j] == v;
                    if j < k {
                        assert(dv.take(k as int)[j] == v);
                    }
                }
                assert forall|v: Seq<u8>|
                    dv.take(k as int).contains(v) || v == w implies dv.take(k + 1).contains(
                    v,
                ) by {
                    if dv.take(k as int).contains(v) {
                        let j = choose|j: int| 0 <= j < k && #[trigger] dv.take(k as int)[j] == v;
                        assert(dv.take(k + 1)[j] == v);
                    } else {
                        assert(dv.take(k + 1)[k as int] == v);
                    }
                }
            }
            k += 1;
        }
        proof {
            assert(dv.take(dv.len() as int) =~= dv);
            assert forall|v: Seq<u8>|
                accepts(g0, 0, v) && !accepts(self@, 0, v) implies dv.contains(v) by {}
        }
    }
}

} // verus!

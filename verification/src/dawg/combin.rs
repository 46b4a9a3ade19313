//! Combinator views over two read-only DAWGs: intersection and union of
//! their word sets, enumerated by filtering and merging the operands' own
//! enumerations — no product graph is ever built.

use vstd::prelude::*;

use crate::dawg::read::ReadDawg;
use crate::model::valid_word;
use crate::words::{lex_lt, strictly_sorted};

verus! {

/// A DAWG holding exactly the words present in both operands.
pub struct AllDawg<'x, A, B> {
    /// The first operand.
    pub a: &'x A,
    /// The second operand.
    pub b: &'x B,
}

/// A DAWG holding exactly the words present in both operands.
pub struct AndDawg<'x, A, B> {
    /// The first operand.
    pub a: &'x A,
    /// The second operand.
    pub b: &'x B,
}

/// A DAWG holding exactly the words present in either operand.
pub struct AnyDawg<'x, A, B> {
    /// The first operand.
    pub a: &'x A,
    /// The second operand.
    pub b: &'x B,
}

/// A DAWG holding exactly the words present in either operand.
pub struct OrDawg<'x, A, B> {
    /// The first operand.
    pub a: &'x A,
    /// The second operand.
    pub b: &'x B,
}

/// The words present in both operands, ascending: one operand's words,
/// filtered through the other's membership, with no graph built in between.
fn intersect_words<A: ReadDawg, B: ReadDawg>(a: &A, b: &B) -> (r: Vec<Vec<u8>>)
    requires
        a.inv(),
        b.inv(),
    ensures
        forall|k: int|
            0 <= k < r.deep_view().len() ==> a.spec_has(#[trigger] r.deep_view()[k]) && b.spec_has(
                r.deep_view()[k],
            ) && valid_word(r.deep_view()[k]),
        forall|w: Seq<u8>| a.spec_has(w) && b.spec_has(w) ==> r.deep_view().contains(w),
        strictly_sorted(r.deep_view()),
{
    let aw = a.words();
    let ghost adv = aw.deep_view();
    let mut out: Vec<Vec<u8>> = Vec::new();
    // which source position each kept word came from
    let ghost mut src: Seq<int> = Seq::empty();
    let mut k: usize = 0;
    while k < aw.len()
        invariant
            a.inv(),
            b.inv(),
            aw.deep_view() == adv,
            strictly_sorted(adv),
            forall|j: int| 0 <= j < adv.len() ==> a.spec_has(#[trigger] adv[j]),
            forall|j: int| 0 <= j < adv.len() ==> valid_word(#[trigger] adv[j]),
            forall|w: Seq<u8>| a.spec_has(w) ==> adv.contains(w),
            k <= adv.len(),
            src.len() == out.deep_view().len(),
            forall|x: int|
                0 <= x < src.len() ==> 0 <= #[trigger] src[x] < k && out.deep_view()[x] == adv[
                    src[x]] && b.spec_has(adv[src[x]]),
            forall|x1: int, x2: int| 0 <= x1 < x2 < src.len() ==> src[x1] < src[x2],
            forall|j: int|
                0 <= j < k && b.spec_has(#[trigger] adv[j]) ==> src.contains(j),
        decreases adv.len() - k,
    {
        proof {
            assert(adv[k as int] == aw@[k as int]@);
        }
        if b.has(&aw[k]) {
            let ghost pre = out.deep_view();
            let w = crate::pattern::iters::clone_word(&aw[k]);
            out.push(w);
            proof {
                let spre = src;
                src = src.push(k as int);
                assert(out.deep_view() =~~= pre.push(adv[k as int]));
                assert forall|j: int|
                    0 <= j < k + 1 && b.spec_has(#[trigger] adv[j]) implies src.contains(j) by {
                    if j < k {
                        assert(spre.contains(j));
                        let x = choose|x: int| 0 <= x < spre.len() && #[trigger] spre[x] == j;
                        assert(src[x] == spre[x]);
                        assert(src[x] == j);
                    } else {
                        assert(src[src.len() - 1] == j);
                    }
                }
            }
        } else {
            proof {
                assert forall|j: int|
                    0 <= j < k + 1 && b.spec_has(#[trigger] adv[j]) implies src.contains(j) by {
                    assert(j != k);
                }
            }
        }
        k += 1;
    }
    proof {
        assert forall|w: Seq<u8>| a.spec_has(w) && b.spec_has(w) implies out.deep_view().contains(
            w,
        ) by {
            assert(adv.contains(w));
            let j = choose|j: int| 0 <= j < adv.len() && #[trigger] adv[j] == w;
            assert(src.contains(j));
            let x = choose|x: int| 0 <= x < src.len() && #[trigger] src[x] == j;
            assert(out.deep_view()[x] == w);
        }
        assert forall|x1: int, x2: int|
            0 <= x1 < x2 < out.deep_view().len() implies lex_lt(
            #[trigger] out.deep_view()[x1],
            #[trigger] out.deep_view()[x2],
        ) by {
            assert(out.deep_view()[x1] == adv[src[x1]] && out.deep_view()[x2] == adv[src[x2]]);
            assert(src[x1] < src[x2]);
        }
        assert forall|x: int|
            0 <= x < out.deep_view().len() implies a.spec_has(#[trigger] out.deep_view()[x])
            && b.spec_has(out.deep_view()[x]) && valid_word(out.deep_view()[x]) by {
            assert(out.deep_view()[x] == adv[src[x]]);
        }
    }
    out
}

/// The words present in either operand, ascending: the two sorted
/// enumerations merged, with no graph built in between.
fn union_words<A: ReadDawg, B: ReadDawg>(a: &A, b: &B) -> (r: Vec<Vec<u8>>)
    requires
        a.inv(),
        b.inv(),
    ensures
        forall|k: int|
            0 <= k < r.deep_view().len() ==> (a.spec_has(#[trigger] r.deep_view()[k]) || b.spec_has(
                r.deep_view()[k],
            )) && valid_word(r.deep_view()[k]),
        forall|w: Seq<u8>| a.spec_has(w) || b.spec_has(w) ==> r.deep_view().contains(w),
        strictly_sorted(r.deep_view()),
{
    let aw = a.words();
    let bw = b.words();
    let r = crate::utils::merge::merge_words(&aw, &bw);
    proof {
        let adv = aw.deep_view();
        let bdv = bw.deep_view();
        let dv = r.deep_view();
        assert forall|k: int|
            0 <= k < dv.len() implies (a.spec_has(#[trigger] dv[k]) || b.spec_has(dv[k]))
            && valid_word(dv[k]) by {
            assert(dv.contains(dv[k]));
            if adv.contains(dv[k]) {
                let x = choose|x: int| 0 <= x < adv.len() && #[trigger] adv[x] == dv[k];
                assert(a.spec_has(adv[x]) && valid_word(adv[x]));
            } else {
                assert(bdv.contains(dv[k]));
                let x = choose|x: int| 0 <= x < bdv.len() && #[trigger] bdv[x] == dv[k];
                assert(b.spec_has(bdv[x]) && valid_word(bdv[x]));
            }
        }
    }
    r
}

impl<'x, A: ReadDawg, B: ReadDawg> ReadDawg for AllDawg<'x, A, B> {
    /// The view is readable when both operands are.
    open spec fn inv(&self) -> bool {
        self.a.inv() && self.b.inv()
    }

    open spec fn spec_has(&self, w: Seq<u8>) -> bool {
        self.a.spec_has(w) && self.b.spec_has(w)
    }

    fn has(&self, word: &[u8]) -> (r: bool) {
        self.a.has(word) && self.b.has(word)
    }

    fn words(&self) -> (r: Vec<Vec<u8>>) {
        intersect_words(self.a, self.b)
    }
}

impl<'x, A: ReadDawg, B: ReadDawg> ReadDawg for AndDawg<'x, A, B> {
    /// The view is readable when both operands are.
    open spec fn inv(&self) -> bool {
        self.a.inv() && self.b.inv()
    }

    open spec fn spec_has(&self, w: Seq<u8>) -> bool {
        self.a.spec_has(w) && self.b.spec_has(w)
    }

    fn has(&self, word: &[u8]) -> (r: bool) {
        self.a.has(word) && self.b.has(word)
    }

    fn words(&self) -> (r: Vec<Vec<u8>>) {
        intersect_words(self.a, self.b)
    }
}

impl<'x, A: ReadDawg, B: ReadDawg> ReadDawg for AnyDawg<'x, A, B> {
    /// The view is readable when both operands are.
    open spec fn inv(&self) -> bool {
        self.a.inv() && self.b.inv()
    }

    open spec fn spec_has(&self, w: Seq<u8>) -> bool {
        self.a.spec_has(w) || self.b.spec_has(w)
    }

    fn has(&self, word: &[u8]) -> (r: bool) {
        self.a.has(word) || self.b.has(word)
    }

    fn words(&self) -> (r: Vec<Vec<u8>>) {
        union_words(self.a, self.b)
    }
}

impl<'x, A: ReadDawg, B: ReadDawg> ReadDawg for OrDawg<'x, A, B> {
    /// The view is readable when both operands are.
    open spec fn inv(&self) -> bool {
        self.a.inv() && self.b.inv()
    }

    open spec fn spec_has(&self, w: Seq<u8>) -> bool {
        self.a.spec_has(w) || self.b.spec_has(w)
    }

    fn has(&self, word: &[u8]) -> (r: bool) {
        self.a.has(word) || self.b.has(word)
    }

    fn words(&self) -> (r: Vec<Vec<u8>>) {
        union_words(self.a, self.b)
    }
}

} // verus!

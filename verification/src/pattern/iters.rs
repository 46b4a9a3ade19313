//! Enumerating the words of a pattern in ascending order.

use vstd::prelude::*;

use crate::dawg::read::ReadDawg;
use crate::pattern::{pat_accepts, Pattern};
use crate::words::strictly_sorted;

verus! {

/// A walker over the words of a pattern, ascending.
pub struct WordIter {
    /// The words not yet handed out, ascending.
    pub words: Vec<Vec<u8>>,
    /// How many words have been handed out.
    pub at: usize,
}

impl WordIter {
    /// Starts an enumeration of the pattern's words.
    pub fn new(pat: &Pattern) -> (it: WordIter)
        ensures
            it.at == 0,
            strictly_sorted(it.words.deep_view()),
            forall|k: int|
                0 <= k < it.words.deep_view().len() ==> pat_accepts(
                    pat@,
                    #[trigger] it.words.deep_view()[k],
                ),
            forall|w: Seq<u8>| pat_accepts(pat@, w) ==> it.words.deep_view().contains(w),
    {
        WordIter { words: pat.words(), at: 0 }
    }

    /// The next word, if any.
    pub fn next(&mut self) -> (r: Option<Vec<u8>>)
        ensures
            final(self).words == old(self).words,
            match r {
                Some(w) => old(self).at < old(self).words@.len() && w@ == old(
                    self,
                ).words.deep_view()[old(self).at as int] && final(self).at == old(self).at + 1,
                None => old(self).at >= old(self).words@.len() && final(self).at == old(self).at,
            },
    {
        if self.at < self.words.len() {
            let w = clone_word(&self.words[self.at]);
            self.at += 1;
            Some(w)
        } else {
            None
        }
    }
}

/// An independent copy of a word.
pub(crate) fn clone_word(w: &Vec<u8>) -> (r: Vec<u8>)
    ensures
        r@ == w@,
{
    let mut r: Vec<u8> = Vec::new();
    let mut k: usize = 0;
    while k < w.len()
        invariant
            k <= w@.len(),
            r@ == w@.take(k as int),
        decreases w@.len() - k,
    {
        r.push(w[k]);
        proof {
            assert(w@.take(k + 1) =~= w@.take(k as int).push(w@[k as int]));
        }
        k += 1;
    }
    proof {
        assert(w@.take(w@.len() as int) =~= w@);
    }
    r
}

} // verus!

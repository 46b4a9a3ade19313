//! Enumerating the words of any read-only DAWG in ascending order.

use vstd::prelude::*;

use crate::dawg::read::ReadDawg;
use crate::pattern::iters::clone_word;
use crate::words::strictly_sorted;

verus! {

/// A walker over the words of a DAWG, ascending.
pub struct WordIter {
    /// The words not yet handed out, ascending.
    pub words: Vec<Vec<u8>>,
    /// How many words have been handed out.
    pub at: usize,
}

impl WordIter {
    /// Starts an enumeration of the DAWG's words.
    pub fn new<D: ReadDawg>(dawg: &D) -> (it: WordIter)
        requires
            dawg.inv(),
        ensures
            it.at == 0,
            strictly_sorted(it.words.deep_view()),
            forall|k: int|
                0 <= k < it.words.deep_view().len() ==> dawg.spec_has(
                    #[trigger] it.words.deep_view()[k],
                ),
            forall|w: Seq<u8>| dawg.spec_has(w) ==> it.words.deep_view().contains(w),
    {
        WordIter { words: dawg.words(), at: 0 }
    }

    /// The next word, if any.
    pub fn next(&mut self) -> (r: Option<Vec<u8>>)
        ensures
            final(self).words == old(self).words,
            match r {
                Some(w) => old(self).at < old(self).words@.len() && w@ == old(
                    self,
                ).words.deep_view()[old(self).at as int] && final(self).at == old(self).at + 1,
                None => old(self).at >= old(self).words@.len() && final(self).at == old(self).at,
            },
    {
        if self.at < self.words.len() {
            let w = clone_word(&self.words[self.at]);
            self.at += 1;
            Some(w)
        } else {
            None
        }
    }
}

} // verus!

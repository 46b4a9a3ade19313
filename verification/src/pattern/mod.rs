//! The pattern sublanguage: a word shape given by one symbol mask per
//! position.  A pattern accepts exactly the words of its own length whose
//! every symbol is permitted at its position; the empty pattern accepts
//! nothing (both here and as a read-only graph view).

use vstd::prelude::*;

pub mod convert;
pub mod display;
pub mod iters;
pub mod letter;
pub mod parse;

use crate::pattern::letter::{Letter, Node};

verus! {

/// Whether symbol `c` is permitted by the position mask `mask`.
pub open spec fn mask_has(mask: u32, c: u8) -> bool {
    c < 26 && (mask >> (c as u32)) & 1 == 1
}

/// Whether the pattern given by `masks` accepts the word `w`.
pub open spec fn pat_accepts(masks: Seq<u32>, w: Seq<u8>) -> bool {
    masks.len() > 0 && w.len() == masks.len() && (forall|k: int|
        0 <= k < w.len() ==> mask_has(#[trigger] masks[k], w[k]))
}

/// How many permitted symbols `mask` has among the first `c`.
pub open spec fn mask_count(mask: u32, c: int) -> nat
    decreases c,
{
    if c <= 0 {
        0
    } else {
        mask_count(mask, c - 1) + (if (mask >> ((c - 1) as u32)) & 1 == 1 {
            1nat
        } else {
            0nat
        })
    }
}

/// The product of the per-position symbol counts.
pub open spec fn pat_prod(masks: Seq<u32>) -> nat
    decreases masks.len(),
{
    if masks.len() == 0 {
        1
    } else {
        pat_prod(masks.drop_last()) * mask_count(masks.last(), 26)
    }
}

/// How many words the pattern accepts: the count product, or zero for the
/// empty pattern.
pub open spec fn pat_size(masks: Seq<u32>) -> nat {
    if masks.len() == 0 {
        0
    } else {
        pat_prod(masks)
    }
}

/// The smallest permitted symbol of `mask` at or after `c`; 26 when none.
pub open spec fn first_set(mask: u32, c: u8) -> u8
    decreases 26 - c,
{
    if c >= 26 {
        26
    } else if (mask >> (c as u32)) & 1 == 1 {
        c
    } else {
        first_set(mask, (c + 1) as u8)
    }
}

/// A mask with no permitted symbol among the first `c` counts zero, and
/// conversely.
pub proof fn lemma_mask_count_zero(mask: u32, c: int)
    requires
        0 <= c <= 26,
    ensures
        (mask_count(mask, c) == 0) <==> (forall|d: u8| d < c ==> !mask_has(mask, d)),
    decreases c,
{
    if c > 0 {
        lemma_mask_count_zero(mask, c - 1);
        if mask_count(mask, c) == 0 {
            assert forall|d: u8| d < c implies !mask_has(mask, d) by {
                if d == c - 1 {
                    assert((mask >> ((c - 1) as u32)) & 1 != 1);
                }
            }
        } else {
            if mask_count(mask, c - 1) == 0 {
                assert(mask_has(mask, (c - 1) as u8));
            } else {
                let d = choose|d: u8| d < c - 1 && mask_has(mask, d);
                assert(mask_has(mask, d));
            }
        }
    }
}

/// A mask with a permitted symbol yields one through `first_set`.
pub proof fn lemma_first_set(mask: u32, c: u8)
    requires
        c <= 26,
        exists|d: u8| c <= d < 26 && mask_has(mask, d),
    ensures
        c <= first_set(mask, c) < 26,
        mask_has(mask, first_set(mask, c)),
        forall|d: u8| c <= d < first_set(mask, c) ==> !mask_has(mask, d),
    decreases 26 - c,
{
    if c < 26 {
        if (mask >> (c as u32)) & 1 == 1 {
        } else {
            let d0 = choose|d: u8| c <= d < 26 && mask_has(mask, d);
            assert(d0 != c);
            assert(c + 1 <= d0 < 26 && mask_has(mask, d0));
            lemma_first_set(mask, (c + 1) as u8);
        }
    }
}

/// A compact pattern: the permitted-symbol mask of each position.
#[derive(Debug)]
pub struct Pattern {
    /// One 26-bit mask per position.
    pub masks: Vec<u32>,
}

impl View for Pattern {
    type V = Seq<u32>;

    open spec fn view(&self) -> Seq<u32> {
        self.masks@
    }
}

/// How many of the 26 symbols the mask permits.
pub fn mask_bits(mask: u32) -> (r: usize)
    ensures
        r == mask_count(mask, 26),
        r <= 26,
{
    let mut r: usize = 0;
    let mut c: u32 = 0;
    while c < 26
        invariant
            c <= 26,
            r == mask_count(mask, c as int),
            r <= c,
        decreases 26 - c,
    {
        if (mask >> c) & 1 == 1 {
            r += 1;
        }
        c += 1;
    }
    r
}

impl Pattern {
    /// The number of positions.
    pub fn position_count(&self) -> (r: usize)
        ensures
            r == self@.len(),
    {
        self.masks.len()
    }

    /// How many words the pattern accepts: the product of the per-position
    /// symbol counts, and zero for the empty pattern.
    pub fn len(&self) -> (r: usize)
        requires
            forall|k: int|
                0 <= k <= self@.len() ==> pat_prod(#[trigger] self@.take(k)) <= usize::MAX,
        ensures
            r == pat_size(self@),
    {
        if self.masks.len() == 0 {
            return 0;
        }
        let mut p: usize = 1;
        let mut k: usize = 0;
        proof {
            assert(self@.take(0) =~= Seq::<u32>::empty());
        }
        while k < self.masks.len()
            invariant
                forall|j: int|
                    0 <= j <= self@.len() ==> pat_prod(#[trigger] self@.take(j)) <= usize::MAX,
                k <= self@.len(),
                p == pat_prod(self@.take(k as int)),
            decreases self@.len() - k,
        {
            let cnt = mask_bits(self.masks[k]);
            proof {
                assert(self@.take(k + 1).drop_last() =~= self@.take(k as int));
                assert(self@.take(k + 1).last() == self@[k as int]);
                assert(pat_prod(self@.take(k + 1)) == pat_prod(self@.take(k as int)) * mask_count(
                    self@[k as int],
                    26,
                ));
            }
            p = p * cnt;
            k += 1;
        }
        proof {
            assert(self@.take(self@.len() as int) =~= self@);
        }
        p
    }

    /// Whether the pattern accepts no word at all.
    pub fn is_empty(&self) -> (r: bool)
        ensures
            r == (forall|w: Seq<u8>| !pat_accepts(self@, w)),
    {
        if self.masks.len() == 0 {
            return true;
        }
        let mut k: usize = 0;
        while k < self.masks.len()
            invariant
                self@.len() > 0,
                k <= self@.len(),
                forall|j: int| 0 <= j < k ==> mask_count(#[trigger] self@[j], 26) > 0,
            decreases self@.len() - k,
        {
            let cnt = mask_bits(self.masks[k]);
            if cnt == 0 {
                proof {
                    lemma_mask_count_zero(self@[k as int], 26);
                    assert forall|w: Seq<u8>| !pat_accepts(self@, w) by {
                        if pat_accepts(self@, w) {
                            assert(mask_has(self@[k as int], w[k as int]));
                        }
                    }
                }
                return true;
            }
            k += 1;
        }
        proof {
            // every position permits a symbol, so the least permitted word is
            // accepted
            let m = self@;
            let w = Seq::new(m.len(), |j: int| first_set(m[j], 0));
            assert forall|j: int| 0 <= j < w.len() implies mask_has(#[trigger] m[j], w[j]) by {
                lemma_mask_count_zero(m[j], 26);
                let d = choose|d: u8| d < 26 && mask_has(m[j], d);
                assert(0 <= d < 26 && mask_has(m[j], d));
                lemma_first_set(m[j], 0);
            }
            assert(pat_accepts(self@, w));
        }
        false
    }

    /// Whether the pattern accepts the given word.
    pub fn has(&self, word: &[u8]) -> (r: bool)
        ensures
            r == pat_accepts(self@, word@),
    {
        if self.masks.len() == 0 || word.len() != self.masks.len() {
            return false;
        }
        let mut k: usize = 0;
        while k < word.len()
            invariant
                word@.len() == self@.len(),
                self@.len() > 0,
                k <= word@.len(),
                forall|j: int| 0 <= j < k ==> mask_has(#[trigger] self@[j], word@[j]),
            decreases word@.len() - k,
        {
            let c = word[k];
            if c >= 26 {
                proof {
                    assert(!mask_has(self@[k as int], word@[k as int]));
                }
                return false;
            }
            if (self.masks[k] >> (c as u32)) & 1 != 1 {
                proof {
                    assert(!mask_has(self@[k as int], word@[k as int]));
                }
                return false;
            }
            k += 1;
        }
        true
    }

    /// The read-only node view of position `idx`: the node past the last
    /// position is the bare accepting node.
    pub fn index(&self, idx: usize) -> (r: Letter)
        ensures
            idx < self@.len() ==> r == (Letter { node: Some(
                Node { mask: self@[idx as int], next: (idx + 1) as usize },
            ) }),
            idx >= self@.len() ==> r == (Letter { node: None::<Node> }),
    {
        if idx < self.masks.len() {
            Letter { node: Some(Node { mask: self.masks[idx], next: idx + 1 }) }
        } else {
            Letter { node: None }
        }
    }
}

} // verus!

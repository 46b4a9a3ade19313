//! Formatting patterns back to their textual surface: the canonical emission
//! rules (single letter, `-` for a full mask, `[]` for an empty one, else a
//! bracketed list of minimal ascending ranges).

use vstd::prelude::*;

use crate::pattern::{first_set, lemma_first_set, lemma_mask_count_zero, mask_count, mask_has, mask_bits, Pattern};
use crate::utils::convert::{into_alpha, push_char};

verus! {

/// The letter standing for symbol `v`.
pub open spec fn alpha_char(v: u8) -> char {
    ((v + 97) as u8) as char
}

/// The canonical text of the symbol range `s..=e`.
pub open spec fn fmt_range_spec(s: u8, e: u8) -> Seq<char> {
    if s == e {
        seq![alpha_char(s)]
    } else if s == 0 {
        seq!['-', alpha_char(e)]
    } else if e == 25 {
        seq![alpha_char(s), '-']
    } else {
        seq![alpha_char(s), '-', alpha_char(e)]
    }
}

/// The range list of a mask, scanned from symbol `i` with `run` holding the
/// start of the run of permitted symbols currently open.
pub open spec fn fmt_runs(mask: u32, i: u8, run: Option<u8>) -> Seq<char>
    decreases 26 - i,
{
    if i >= 26 {
        match run {
            Some(s) => fmt_range_spec(s, 25),
            None => Seq::empty(),
        }
    } else if (mask >> (i as u32)) & 1 == 1 {
        fmt_runs(
            mask,
            (i + 1) as u8,
            match run {
                Some(s) => Some(s),
                None => Some(i),
            },
        )
    } else {
        match run {
            Some(s) => fmt_range_spec(s, (i - 1) as u8) + fmt_runs(mask, (i + 1) as u8, None),
            None => fmt_runs(mask, (i + 1) as u8, None),
        }
    }
}

/// The canonical text of one position mask.
pub open spec fn fmt_mask_spec(mask: u32) -> Seq<char> {
    let c = mask_count(mask, 26);
    if c == 0 {
        seq!['[', ']']
    } else if c == 1 {
        seq![alpha_char(first_set(mask, 0))]
    } else if c == 26 {
        seq!['-']
    } else {
        seq!['['] + fmt_runs(mask, 0, None) + seq![']']
    }
}

/// The canonical text of a whole pattern.
pub open spec fn fmt_spec(masks: Seq<u32>) -> Seq<char>
    decreases masks.len(),
{
    if masks.len() == 0 {
        Seq::empty()
    } else {
        fmt_spec(masks.drop_last()) + fmt_mask_spec(masks.last())
    }
}

impl Pattern {
    /// The canonical text of the symbol range `s..=e`.
    pub fn fmt_range(s: u8, e: u8) -> (r: String)
        requires
            s <= e < 26,
        ensures
            r@ == fmt_range_spec(s, e),
    {
        let mut r = String::new();
        if s == e {
            push_char(&mut r, into_alpha(s));
        } else if s == 0 {
            push_char(&mut r, '-');
            push_char(&mut r, into_alpha(e));
        } else if e == 25 {
            push_char(&mut r, into_alpha(s));
            push_char(&mut r, '-');
        } else {
            push_char(&mut r, into_alpha(s));
            push_char(&mut r, '-');
            push_char(&mut r, into_alpha(e));
        }
        proof {
            assert(r@ =~= fmt_range_spec(s, e));
        }
        r
    }

    /// The canonical text of one position mask.
    pub fn fmt_mask(mask: u32) -> (r: String)
        ensures
            r@ == fmt_mask_spec(mask),
    {
        let count = mask_bits(mask);
        let mut r = String::new();
        if count == 0 {
            push_char(&mut r, '[');
            push_char(&mut r, ']');
            proof {
                assert(r@ =~= fmt_mask_spec(mask));
            }
            return r;
        }
        if count == 1 {
            proof {
                lemma_mask_count_zero(mask, 26);
                let d = choose|d: u8| d < 26 && mask_has(mask, d);
                assert(0 <= d < 26 && mask_has(mask, d));
                lemma_first_set(mask, 0);
            }
            let mut k: u8 = 0;
            while k < 26
                invariant
                    k <= 26,
                    r@.len() == 0,
                    mask_count(mask, 26) == 1,
                    forall|d: u8| d < k ==> !mask_has(mask, d),
                    k <= first_set(mask, 0) < 26,
                    mask_has(mask, first_set(mask, 0)),
                decreases 26 - k,
            {
                if (mask >> (k as u32)) & 1 == 1 {
                    proof {
                        assert(mask_has(mask, k));
                        assert(k == first_set(mask, 0)) by {
                            if k < first_set(mask, 0) {
                                lemma_first_set(mask, 0);
                            }
                        }
                    }
                    let a = into_alpha(k);
                    push_char(&mut r, a);
                    proof {
                        assert(a as u32 == k + 97);
                        assert(a == alpha_char(k)) by {
                            assert(alpha_char(k) as u32 == k + 97);
                        }
                        assert(r@ =~= fmt_mask_spec(mask));
                    }
                    return r;
                }
                k += 1;
            }
            proof {
                assert(mask_has(mask, first_set(mask, 0)));
                assert(false);
            }
        }
        if count == 26 {
            push_char(&mut r, '-');
            proof {
                assert(r@ =~= fmt_mask_spec(mask));
            }
            return r;
        }
        push_char(&mut r, '[');
        let mut k: u8 = 0;
        let mut run: Option<u8> = None;
        while k < 26
            invariant
                k <= 26,
                match run {
                    Some(x) => x < k && x < 26,
                    None => true,
                },
                r@ + fmt_runs(mask, k, run) == seq!['['] + fmt_runs(mask, 0, None),
            decreases 26 - k,
        {
            let bit = (mask >> (k as u32)) & 1 == 1;
            if bit {
                run = match run {
                    Some(x) => Some(x),
                    None => Some(k),
                };
            } else {
                match run {
                    Some(x) => {
                        let ghost rpre = r@;
                        let piece = Pattern::fmt_range(x, k - 1);
                        r.append(piece.as_str());
                        proof {
                            assert(fmt_runs(mask, k, Some(x)) == fmt_range_spec(x, (k - 1) as u8)
                                + fmt_runs(mask, (k + 1) as u8, None));
                            assert(r@ + fmt_runs(mask, (k + 1) as u8, None) =~= rpre + fmt_runs(
                                mask,
                                k,
                                Some(x),
                            ));
                        }
                        run = None;
                    },
                    None => {},
                }
            }
            k += 1;
        }
        match run {
            Some(x) => {
                let piece = Pattern::fmt_range(x, 25);
                r.append(piece.as_str());
            },
            None => {},
        }
        push_char(&mut r, ']');
        proof {
            assert(r@ =~= fmt_mask_spec(mask));
        }
        r
    }

    /// The canonical text of the pattern.
    pub fn fmt(&self) -> (r: String)
        ensures
            r@ == fmt_spec(self@),
    {
        let mut r = String::new();
        let mut k: usize = 0;
        proof {
            assert(r@ =~= fmt_spec(self@.take(0)));
        }
        while k < self.masks.len()
            invariant
                k <= self@.len(),
                r@ == fmt_spec(self@.take(k as int)),
            decreases self@.len() - k,
        {
            let piece = Pattern::fmt_mask(self.masks[k]);
            r.append(piece.as_str());
            proof {
                assert(self@.take(k + 1).drop_last() =~= self@.take(k as int));
                assert(self@.take(k + 1).last() == self@[k as int]);
            }
            k += 1;
        }
        proof {
            assert(self@.take(self@.len() as int) =~= self@);
        }
        r
    }
}

} // verus!

//! The thin node: the storage form.  A 32-bit mask holds the present symbols
//! (bits 0..25) and the accepting flag (bit 26); the children of the present
//! symbols sit at consecutive indices starting at `idx`.

use vstd::prelude::*;

use crate::model::SpecNode;
use crate::node::wide::WideNode;
use crate::pattern::{lemma_mask_count_zero, mask_bits, mask_count, mask_has};

verus! {

/// A memory-efficient node relying on its children being contiguous.
#[derive(Clone, Copy, Debug, PartialEq, Eq, Structural)]
pub struct ThinNode {
    /// The slot of the child reached by the lowest present symbol.
    pub idx: usize,
    /// Presence bits 0..25 and the accepting flag at bit 26.
    pub mask: u32,
}

/// The error of converting a node whose children are not contiguous.
#[derive(Clone, Copy, Debug, PartialEq, Eq, Structural)]
pub struct NonContiguous;

/// Whether the thin node accepts a word ending at it.
pub open spec fn t_end(n: ThinNode) -> bool {
    (n.mask >> 26) & 1 == 1
}

/// The child slot for symbol `c`: the base plus the number of present
/// symbols below `c`; `0` when absent.
pub open spec fn t_kid(n: ThinNode, c: u8) -> usize {
    if mask_has(n.mask, c) {
        (n.idx + mask_count(n.mask, c as int)) as usize
    } else {
        0
    }
}

/// The thin node as an abstract graph node.
pub open spec fn thin_view(n: ThinNode) -> SpecNode {
    SpecNode { end: t_end(n), kids: Seq::new(26, |c: int| t_kid(n, c as u8)) }
}

/// A wide node value whose present children sit at consecutive slots starting
/// from the child of its lowest present symbol.
pub open spec fn contiguous(n: SpecNode) -> bool {
    forall|c1: int, c2: int|
        0 <= c1 < c2 < 26 && #[trigger] n.kids[c1] != 0 && #[trigger] n.kids[c2] != 0 && (forall|
            d: int,
        | c1 < d < c2 ==> n.kids[d] == 0) ==> n.kids[c2] == n.kids[c1] + 1
}

impl ThinNode {
    /// A node from its raw parts.
    pub fn new(idx: usize, mask: u32) -> (n: ThinNode)
        ensures
            n == (ThinNode { idx, mask }),
    {
        ThinNode { idx, mask }
    }

    /// How many children the node has.
    pub fn len(&self) -> (r: usize)
        ensures
            r == mask_count(self.mask, 26),
    {
        mask_bits(self.mask)
    }

    /// Whether the node has no children.
    pub fn is_empty(&self) -> (r: bool)
        ensures
            r == (forall|c: u8| !mask_has(self.mask, c)),
    {
        let bits = mask_bits(self.mask);
        proof {
            lemma_mask_count_zero(self.mask, 26);
            if bits != 0 {
                let d = choose|d: u8| d < 26 && mask_has(self.mask, d);
                assert(mask_has(self.mask, d));
            }
        }
        bits == 0
    }

    /// Whether a word ends at this node.
    pub fn is_end(&self) -> (r: bool)
        ensures
            r == t_end(*self),
    {
        (self.mask >> 26u32) & 1 == 1
    }

    /// Whether the node has a child for symbol `c`.
    pub fn has(&self, c: u8) -> (r: bool)
        ensures
            r == mask_has(self.mask, c),
    {
        c < 26 && (self.mask >> (c as u32)) & 1 == 1
    }

    /// The child slot for symbol `c`; `0` when absent.
    pub fn get(&self, c: u8) -> (r: usize)
        requires
            self.idx + 26 <= usize::MAX,
        ensures
            r == t_kid(*self, c),
    {
        if c >= 26 || (self.mask >> (c as u32)) & 1 != 1 {
            return 0;
        }
        let mut below: usize = 0;
        let mut d: u32 = 0;
        while d < c as u32
            invariant
                d <= c as u32,
                c < 26,
                below == mask_count(self.mask, d as int),
                below <= d,
            decreases c as u32 - d,
        {
            if (self.mask >> d) & 1 == 1 {
                below += 1;
            }
            d += 1;
        }
        self.idx + below
    }

    /// The node widened to the editing form: the same flag, the same child
    /// per symbol.
    pub fn to_wide(&self) -> (w: WideNode)
        requires
            self.idx + 26 <= usize::MAX,
        ensures
            w.wf(),
            w@ == thin_view(*self),
    {
        let end = self.is_end();
        let mut kids: Vec<usize> = Vec::new();
        let mut c: u8 = 0;
        while c < 26
            invariant
                self.idx + 26 <= usize::MAX,
                c <= 26,
                kids@.len() == c,
                forall|e: int| 0 <= e < c ==> #[trigger] kids@[e] == t_kid(*self, e as u8),
            decreases 26 - c,
        {
            kids.push(self.get(c));
            c += 1;
        }
        let w = WideNode { end, kids };
        proof {
            assert(w@.kids =~= thin_view(*self).kids);
        }
        w
    }

    /// The smallest present symbol at or after `c`, if any.
    pub fn next_c(&self, c: u8) -> (r: Option<u8>)
        ensures
            match r {
                Some(k) => c <= k < 26 && mask_has(self.mask, k) && (forall|d: u8|
                    c <= d < k ==> !mask_has(self.mask, d)),
                None => forall|d: u8| c <= d < 26 ==> !mask_has(self.mask, d),
            },
    {
        let mut k: u8 = c;
        while k < 26
            invariant
                c <= k,
                k <= 26 || k == c,
                forall|d: u8| c <= d < k ==> !mask_has(self.mask, d),
            decreases 26 - k,
        {
            if (self.mask >> (k as u32)) & 1 == 1 {
                proof {
                    assert(mask_has(self.mask, k));
                }
                return Some(k);
            }
            k += 1;
        }
        None
    }
}

/// Setting one presence bit: every other bit, and the accepting flag, stay.
proof fn lemma_mask_or_bit(m: u32, c: u8, d: u8)
    requires
        c < 26,
    ensures
        mask_has(m | (1u32 << (c as u32)), d) == (mask_has(m, d) || d == c),
        ((m | (1u32 << (c as u32))) >> 26) & 1 == (m >> 26) & 1,
        (m | (1u32 << (c as u32))) >> 27 == m >> 27,
{
    let mc = c as u32;
    let md = d as u32;
    if d < 26 {
        assert((((m | (1u32 << mc)) >> md) & 1 == 1) == ((m >> md) & 1 == 1 || mc == md))
            by (bit_vector)
            requires
                mc < 26 && md < 26,
        ;
    }
    assert(((m | (1u32 << mc)) >> 26) & 1 == (m >> 26) & 1) by (bit_vector)
        requires
            mc < 26,
    ;
    assert((m | (1u32 << mc)) >> 27 == m >> 27) by (bit_vector)
        requires
            mc < 26,
    ;
}

/// Setting an absent presence bit raises by one exactly the counts that span
/// it.
proof fn lemma_mask_count_or_bit(m: u32, c: u8, e: int)
    requires
        c < 26,
        !mask_has(m, c),
        0 <= e <= 26,
    ensures
        mask_count(m | (1u32 << (c as u32)), e) == mask_count(m, e) + (if (c as int) < e {
            1int
        } else {
            0int
        }),
    decreases e,
{
    if e > 0 {
        lemma_mask_count_or_bit(m, c, e - 1);
        lemma_mask_or_bit(m, c, (e - 1) as u8);
        assert(mask_has(m | (1u32 << (c as u32)), (e - 1) as u8) == (mask_has(m, (e - 1) as u8) || e
            - 1 == c));
    }
}

/// Counts do not grow across a span of absent symbols.
proof fn lemma_mask_count_flat(m: u32, a: int, b: int)
    requires
        0 <= a <= b <= 26,
        forall|d: u8| a <= d < b ==> !mask_has(m, d),
    ensures
        mask_count(m, b) == mask_count(m, a),
    decreases b - a,
{
    if b > a {
        lemma_mask_count_flat(m, a, b - 1);
        assert(!mask_has(m, (b - 1) as u8));
    }
}

impl ThinNode {
    /// Converts a wide node, succeeding exactly when its present children
    /// form one contiguous ascending run; the thin node then exposes the same
    /// flag and the same child per symbol.
    pub fn from_wide(w: &WideNode) -> (r: Result<ThinNode, NonContiguous>)
        requires
            w.wf(),
        ensures
            match r {
                Ok(t) => contiguous(w@) && t_end(t) == w@.end && (forall|c: u8|
                    c < 26 ==> t_kid(t, c) == w@.kids[c as int]) && (forall|c: u8|
                    c < 26 ==> mask_has(t.mask, c) == (w@.kids[c as int] != 0)) && t.mask >> 27
                    == 0 && (t.idx == 0 || (exists|c: u8| c < 26 && w@.kids[c as int] == t.idx)),
                Err(_) => !contiguous(w@),
            },
    {
        let end = w.is_end();
        let mut mask: u32 = if end {
            1u32 << 26u32
        } else {
            0
        };
        proof {
            assert forall|d: u8| d < 26 implies !mask_has(mask, d) by {
                if end {
                    assert(((1u32 << 26u32) >> (d as u32)) & 1 == 0) by (bit_vector)
                        requires
                            d < 26,
                    ;
                } else {
                    assert((0u32 >> (d as u32)) & 1 == 0) by (bit_vector);
                }
            }
            assert(((mask >> 26) & 1 == 1) == end) by {
                if end {
                    assert(((1u32 << 26u32) >> 26) & 1 == 1) by (bit_vector);
                } else {
                    assert((0u32 >> 26) & 1 == 0) by (bit_vector);
                }
            }
            assert(mask >> 27 == 0) by {
                if end {
                    assert((1u32 << 26u32) >> 27 == 0) by (bit_vector);
                } else {
                    assert(0u32 >> 27 == 0) by (bit_vector);
                }
            }
            lemma_mask_count_zero(mask, 26);
            lemma_mask_count_flat(mask, 0, 26);
        }
        let mut first: usize = 0;
        let mut have_first: bool = false;
        let mut prev: usize = 0;
        let ghost mut prev_c: u8 = 0;
        let ghost mut first_c: u8 = 0;
        let mut c: u8 = 0;
        while c < 26
            invariant
                w.wf(),
                c <= 26,
                forall|d: u8| d < c ==> mask_has(mask, d) == (w@.kids[d as int] != 0),
                forall|d: u8| c <= d < 26 ==> !mask_has(mask, d),
                ((mask >> 26) & 1 == 1) == w@.end,
                mask >> 27 == 0,
                !have_first ==> (forall|d: int| 0 <= d < c ==> w@.kids[d] == 0) && mask_count(
                    mask,
                    26,
                ) == 0 && first == 0,
                have_first ==> mask_count(mask, 26) >= 1 && first != 0 && prev == first
                    + mask_count(mask, 26) - 1 && prev_c < c && w@.kids[prev_c as int] == prev
                    && prev != 0 && mask_has(mask, prev_c) && (forall|d: u8|
                    prev_c < d < c ==> w@.kids[d as int] == 0) && first_c < 26 && w@.kids[
                    first_c as int] == first,
                forall|d: u8|
                    d < c && #[trigger] w@.kids[d as int] != 0 ==> w@.kids[d as int] == first
                        + mask_count(mask, d as int),
            decreases 26 - c,
        {
            let t = w.get(c);
            if t != 0 {
                if !have_first {
                    first = t;
                    have_first = true;
                    prev = t;
                    proof {
                        prev_c = c;
                        first_c = c;
                    }
                } else {
                    if prev == usize::MAX || t != prev + 1 {
                        proof {
                            // the adjacent present pair (prev_c, c) breaks the run
                            assert(w@.kids[prev_c as int] != 0 && w@.kids[c as int] != 0);
                            assert(forall|d: int|
                                prev_c < d < c ==> w@.kids[d] == 0);
                            assert(w@.kids[c as int] != w@.kids[prev_c as int] + 1);
                            assert(!contiguous(w@));
                        }
                        return Err(NonContiguous);
                    }
                    prev = t;
                    proof {
                        prev_c = c;
                    }
                }
                let ghost mpre = mask;
                mask = mask | (1u32 << (c as u32));
                proof {
                    assert forall|d: u8| d <= 26 implies mask_has(mask, d) == (mask_has(mpre, d)
                        || d == c) by {
                        lemma_mask_or_bit(mpre, c, d);
                    }
                    lemma_mask_or_bit(mpre, c, 26);
                    lemma_mask_count_or_bit(mpre, c, 26);
                    assert forall|e: int| 0 <= e <= c implies mask_count(mask, e) == mask_count(
                        mpre,
                        e,
                    ) by {
                        lemma_mask_count_or_bit(mpre, c, e);
                    }
                    // bits at and above c were clear before, so the count
                    // below c is the whole old count
                    lemma_mask_count_flat(mpre, c as int, 26);
                    assert(w@.kids[c as int] == first + mask_count(mask, c as int));
                }
            }
            c += 1;
        }
        let t = ThinNode { idx: first, mask };
        proof {
            assert(t_end(t) == w@.end);
            assert forall|cc: u8| cc < 26 implies t_kid(t, cc) == w@.kids[cc as int] by {
                if mask_has(mask, cc) {
                    assert(w@.kids[cc as int] != 0);
                    assert(w@.kids[cc as int] == first + mask_count(mask, cc as int));
                } else {
                    assert(w@.kids[cc as int] == 0);
                }
            }
            assert(contiguous(w@)) by {
                assert forall|c1: int, c2: int|
                    0 <= c1 < c2 < 26 && #[trigger] w@.kids[c1] != 0 && #[trigger] w@.kids[c2] != 0
                        && (forall|d: int| c1 < d < c2 ==> w@.kids[d] == 0) implies w@.kids[c2]
                    == w@.kids[c1] + 1 by {
                    assert(mask_has(mask, c1 as u8) && mask_has(mask, c2 as u8));
                    assert forall|d: u8| c1 + 1 <= d < c2 implies !mask_has(mask, d) by {
                        assert(w@.kids[d as int] == 0);
                    }
                    lemma_mask_count_flat(mask, c1 + 1, c2);
                    assert(mask_count(mask, c1 + 1) == mask_count(mask, c1) + 1);
                    assert(w@.kids[c1] == first + mask_count(mask, c1));
                    assert(w@.kids[c2] == first + mask_count(mask, c2));
                }
            }
        }
        Ok(t)
    }
}

} // verus!

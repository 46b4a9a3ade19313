//! Merging sorted word lists: the ordered, duplicate-free union.

use vstd::prelude::*;

use crate::pattern::iters::clone_word;
use crate::words::{
    lemma_lex_lt_asym, lemma_lex_lt_irrefl, lemma_lex_lt_skip, lemma_lex_lt_total,
    lemma_lex_lt_trans, lex_lt, strictly_sorted,
};

verus! {

/// Compares two words lexicographically: negative when the first comes first,
/// zero when they are equal, positive otherwise.
pub fn word_cmp(a: &Vec<u8>, b: &Vec<u8>) -> (r: i8)
    ensures
        (r == 0) == (a@ == b@),
        (r < 0) == lex_lt(a@, b@),
        (r > 0) == lex_lt(b@, a@),
{
    proof {
        lemma_lex_lt_total(a@, b@);
        lemma_lex_lt_irrefl(a@);
        if lex_lt(a@, b@) {
            lemma_lex_lt_asym(a@, b@);
        }
        if lex_lt(b@, a@) {
            lemma_lex_lt_asym(b@, a@);
        }
    }
    let mut k: usize = 0;
    while k < a.len() && k < b.len()
        invariant
            k <= a@.len(),
            k <= b@.len(),
            a@.take(k as int) == b@.take(k as int),
        decreases a@.len() - k,
    {
        proof {
            lemma_lex_lt_skip(a@, b@, k as int);
            lemma_lex_lt_skip(b@, a@, k as int);
            assert(a@.skip(k as int)[0] == a@[k as int]);
            assert(b@.skip(k as int)[0] == b@[k as int]);
        }
        if a[k] < b[k] {
            return -1;
        }
        if a[k] > b[k] {
            return 1;
        }
        proof {
            assert(a@.take(k + 1) =~= a@.take(k as int).push(a@[k as int]));
            assert(b@.take(k + 1) =~= b@.take(k as int).push(b@[k as int]));
        }
        k += 1;
    }
    proof {
        lemma_lex_lt_skip(a@, b@, k as int);
        lemma_lex_lt_skip(b@, a@, k as int);
    }
    if a.len() < b.len() {
        -1
    } else if a.len() > b.len() {
        1
    } else {
        proof {
            assert(a@.take(k as int) =~= a@);
            assert(b@.take(k as int) =~= b@);
        }
        0
    }
}

/// Merges two strictly ascending word lists into their strictly ascending,
/// duplicate-free union.
pub fn merge_words(xs: &Vec<Vec<u8>>, ys: &Vec<Vec<u8>>) -> (r: Vec<Vec<u8>>)
    requires
        strictly_sorted(xs.deep_view()),
        strictly_sorted(ys.deep_view()),
    ensures
        strictly_sorted(r.deep_view()),
        forall|w: Seq<u8>|
            #[trigger] r.deep_view().contains(w) == (xs.deep_view().contains(w)
                || ys.deep_view().contains(w)),
{
    let ghost xdv = xs.deep_view();
    let ghost ydv = ys.deep_view();
    let mut out: Vec<Vec<u8>> = Vec::new();
    let mut i: usize = 0;
    let mut j: usize = 0;
    while i < xs.len() || j < ys.len()
        invariant
            xs.deep_view() == xdv,
            ys.deep_view() == ydv,
            strictly_sorted(xdv),
            strictly_sorted(ydv),
            i <= xdv.len(),
            j <= ydv.len(),
            strictly_sorted(out.deep_view()),
            out.deep_view().len() > 0 && i < xdv.len() ==> lex_lt(
                out.deep_view().last(),
                xdv[i as int],
            ),
            out.deep_view().len() > 0 && j < ydv.len() ==> lex_lt(
                out.deep_view().last(),
                ydv[j as int],
            ),
            forall|w: Seq<u8>|
                #[trigger] out.deep_view().contains(w) == (xdv.take(i as int).contains(w)
                    || ydv.take(j as int).contains(w)),
        decreases xdv.len() + ydv.len() - i - j,
    {
        proof {
            if i < xdv.len() {
                assert(xdv[i as int] == xs@[i as int]@);
            }
            if j < ydv.len() {
                assert(ydv[j as int] == ys@[j as int]@);
            }
        }
        let take_x = if i >= xs.len() {
            false
        } else if j >= ys.len() {
            true
        } else {
            word_cmp(&xs[i], &ys[j]) <= 0
        };
        let ghost pre = out.deep_view();
        if take_x {
            let w = clone_word(&xs[i]);
            out.push(w);
            proof {
                assert(out.deep_view() =~~= pre.push(xdv[i as int]));
            }
            let both = j < ys.len() && word_cmp(&xs[i], &ys[j]) == 0;
            proof {
                let m = xdv[i as int];
                lemma_merge_step(pre, xdv, ydv, i as int, j as int, m, both);
            }
            i += 1;
            if both {
                j += 1;
            }
        } else {
            let w = clone_word(&ys[j]);
            out.push(w);
            proof {
                assert(out.deep_view() =~~= pre.push(ydv[j as int]));
                let m = ydv[j as int];
                lemma_merge_step_y(pre, xdv, ydv, i as int, j as int, m);
            }
            j += 1;
        }
    }
    proof {
        assert(xdv.take(xdv.len() as int) =~= xdv);
        assert(ydv.take(ydv.len() as int) =~= ydv);
    }
    out
}

/// One merge step taking the left head (and the right too when equal): the
/// pushed list stays sorted and lists exactly the consumed prefixes.
proof fn lemma_merge_step(
    pre: Seq<Seq<u8>>,
    xdv: Seq<Seq<u8>>,
    ydv: Seq<Seq<u8>>,
    i: int,
    j: int,
    m: Seq<u8>,
    both: bool,
)
    requires
        strictly_sorted(xdv),
        strictly_sorted(ydv),
        0 <= i < xdv.len(),
        0 <= j <= ydv.len(),
        m == xdv[i],
        pre.len() > 0 ==> lex_lt(pre.last(), m),
        j < ydv.len() ==> (lex_lt(m, ydv[j]) || m == ydv[j]),
        both == (j < ydv.len() && m == ydv[j]),
        strictly_sorted(pre),
        forall|w: Seq<u8>|
            #[trigger] pre.contains(w) == (xdv.take(i).contains(w) || ydv.take(j).contains(w)),
    ensures
        strictly_sorted(pre.push(m)),
        pre.push(m).len() > 0 && i + 1 < xdv.len() ==> lex_lt(pre.push(m).last(), xdv[i + 1]),
        pre.push(m).len() > 0 && (if both {
            j + 1
        } else {
            j
        }) < ydv.len() ==> lex_lt(
            pre.push(m).last(),
            ydv[if both {
                j + 1
            } else {
                j
            }],
        ),
        forall|w: Seq<u8>|
            #[trigger] pre.push(m).contains(w) == (xdv.take(i + 1).contains(w) || ydv.take(
                if both {
                    j + 1
                } else {
                    j
                },
            ).contains(w)),
{
    lemma_merge_push(pre, m);
    let j2: int = if both {
        j + 1
    } else {
        j
    };
    if !both && j < ydv.len() {
        assert(lex_lt(m, ydv[j]));
    }
    assert forall|w: Seq<u8>|
        #[trigger] pre.push(m).contains(w) == (xdv.take(i + 1).contains(w) || ydv.take(
            j2,
        ).contains(w)) by {
        lemma_take_push(xdv, i, w);
        if both {
            lemma_take_push(ydv, j, w);
        }
        lemma_push_contains(pre, m, w);
    }
}

/// One merge step taking the right head strictly first.
proof fn lemma_merge_step_y(
    pre: Seq<Seq<u8>>,
    xdv: Seq<Seq<u8>>,
    ydv: Seq<Seq<u8>>,
    i: int,
    j: int,
    m: Seq<u8>,
)
    requires
        strictly_sorted(xdv),
        strictly_sorted(ydv),
        0 <= i <= xdv.len(),
        0 <= j < ydv.len(),
        m == ydv[j],
        pre.len() > 0 ==> lex_lt(pre.last(), m),
        i < xdv.len() ==> lex_lt(m, xdv[i]),
        strictly_sorted(pre),
        forall|w: Seq<u8>|
            #[trigger] pre.contains(w) == (xdv.take(i).contains(w) || ydv.take(j).contains(w)),
    ensures
        strictly_sorted(pre.push(m)),
        pre.push(m).len() > 0 && i < xdv.len() ==> lex_lt(pre.push(m).last(), xdv[i]),
        pre.push(m).len() > 0 && j + 1 < ydv.len() ==> lex_lt(pre.push(m).last(), ydv[j + 1]),
        forall|w: Seq<u8>|
            #[trigger] pre.push(m).contains(w) == (xdv.take(i).contains(w) || ydv.take(
                j + 1,
            ).contains(w)),
{
    lemma_merge_push(pre, m);
    assert forall|w: Seq<u8>|
        #[trigger] pre.push(m).contains(w) == (xdv.take(i).contains(w) || ydv.take(
            j + 1,
        ).contains(w)) by {
        lemma_take_push(ydv, j, w);
        lemma_push_contains(pre, m, w);
    }
}

/// Pushing a word above a sorted list's last keeps it strictly sorted.
proof fn lemma_merge_push(pre: Seq<Seq<u8>>, m: Seq<u8>)
    requires
        strictly_sorted(pre),
        pre.len() > 0 ==> lex_lt(pre.last(), m),
    ensures
        strictly_sorted(pre.push(m)),
{
    let ps = pre.push(m);
    assert forall|x1: int, x2: int| 0 <= x1 < x2 < ps.len() implies lex_lt(
        #[trigger] ps[x1],
        #[trigger] ps[x2],
    ) by {
        if x2 < pre.len() {
            assert(ps[x1] == pre[x1] && ps[x2] == pre[x2]);
        } else {
            assert(ps[x1] == pre[x1] && ps[x2] == m);
            if x1 < pre.len() - 1 {
                assert(lex_lt(pre[x1], pre.last()));
                lemma_lex_lt_trans(pre[x1], pre.last(), m);
            }
        }
    }
}

/// Membership in one more taken element.
proof fn lemma_take_push(s: Seq<Seq<u8>>, k: int, w: Seq<u8>)
    requires
        0 <= k < s.len(),
    ensures
        s.take(k + 1).contains(w) == (s.take(k).contains(w) || w == s[k]),
{
    if s.take(k + 1).contains(w) {
        let x = choose|x: int| 0 <= x < k + 1 && #[trigger] s.take(k + 1)[x] == w;
        if x < k {
            assert(s.take(k)[x] == w);
        }
    }
    if s.take(k).contains(w) {
        let x = choose|x: int| 0 <= x < k && #[trigger] s.take(k)[x] == w;
        assert(s.take(k + 1)[x] == w);
    }
    if w == s[k] {
        assert(s.take(k + 1)[k] == w);
    }
}

/// Membership in a pushed list.
proof fn lemma_push_contains(pre: Seq<Seq<u8>>, m: Seq<u8>, w: Seq<u8>)
    ensures
        pre.push(m).contains(w) == (pre.contains(w) || w == m),
{
    if pre.push(m).contains(w) {
        let x = choose|x: int| 0 <= x < pre.len() + 1 && #[trigger] pre.push(m)[x] == w;
        if x < pre.len() {
            assert(pre[x] == w);
        }
    }
    if pre.contains(w) {
        let x = choose|x: int| 0 <= x < pre.len() && #[trigger] pre[x] == w;
        assert(pre.push(m)[x] == w);
    }
    if w == m {
        assert(pre.push(m)[pre.len() as int] == w);
    }
}

} // verus!

//! The canonical enumeration of the words of a graph.
//!
//! `word_list` lists, in strictly ascending lexicographic order, every word
//! accepted from a node whose length stays under a fuel bound.  The word
//! enumerators of the executable types return exactly this sequence.

use vstd::prelude::*;

use crate::model::{accepts, graph_wf, SpecNode};

verus! {

/// Strict lexicographic order on symbol sequences (shorter prefixes first).
pub open spec fn lex_lt(a: Seq<u8>, b: Seq<u8>) -> bool
    decreases a.len(),
{
    if b.len() == 0 {
        false
    } else if a.len() == 0 {
        true
    } else if a[0] < b[0] {
        true
    } else if a[0] > b[0] {
        false
    } else {
        lex_lt(a.drop_first(), b.drop_first())
    }
}

/// The sequence is strictly ascending, hence free of duplicates.
pub open spec fn strictly_sorted(ws: Seq<Seq<u8>>) -> bool {
    forall|i: int, j: int| 0 <= i < j < ws.len() ==> lex_lt(#[trigger] ws[i], #[trigger] ws[j])
}

/// Every listed word starts with a symbol no smaller than `c`.
pub open spec fn firsts_at_least(ws: Seq<Seq<u8>>, c: int) -> bool {
    forall|k: int| 0 <= k < ws.len() ==> (#[trigger] ws[k]).len() >= 1 && ws[k][0] >= c
}

/// Each word of `ws` with the symbol `c` put in front.
pub open spec fn prepend_all(c: u8, ws: Seq<Seq<u8>>) -> Seq<Seq<u8>> {
    ws.map_values(|w: Seq<u8>| seq![c] + w)
}

/// All words accepted from node `i` of length under `fuel`, ascending.
pub open spec fn word_list(g: Seq<SpecNode>, i: int, fuel: nat) -> Seq<Seq<u8>>
    decreases fuel, 27int,
{
    if fuel == 0 || !(0 <= i < g.len()) {
        Seq::empty()
    } else {
        (if g[i].end {
            seq![Seq::<u8>::empty()]
        } else {
            Seq::empty()
        }) + word_list_from(g, i, 0, fuel)
    }
}

/// All words accepted from node `i` of length in `1..fuel` whose first symbol
/// is at least `c`, ascending.
pub open spec fn word_list_from(g: Seq<SpecNode>, i: int, c: int, fuel: nat) -> Seq<Seq<u8>>
    decreases fuel, 26 - c,
{
    if fuel == 0 || !(0 <= i < g.len()) || !(0 <= c < 26) || g[i].kids.len() != 26 {
        Seq::empty()
    } else {
        let t = g[i].kids[c];
        (if t != 0 {
            prepend_all(c as u8, word_list(g, t as int, (fuel - 1) as nat))
        } else {
            Seq::empty()
        }) + word_list_from(g, i, c + 1, fuel)
    }
}

/// Membership in a concatenation is membership in either part.
pub proof fn lemma_concat_contains(a: Seq<Seq<u8>>, b: Seq<Seq<u8>>, x: Seq<u8>)
    ensures
        (a + b).contains(x) <==> a.contains(x) || b.contains(x),
{
    if a.contains(x) {
        let k = choose|k: int| 0 <= k < a.len() && a[k] == x;
        assert((a + b)[k] == x);
    }
    if b.contains(x) {
        let k = choose|k: int| 0 <= k < b.len() && b[k] == x;
        assert((a + b)[k + a.len()] == x);
    }
    if (a + b).contains(x) {
        let k = choose|k: int| 0 <= k < (a + b).len() && (a + b)[k] == x;
        if k < a.len() {
            assert(a[k] == x);
        } else {
            assert(b[k - a.len()] == x);
        }
    }
}

/// A word is in `prepend_all(c, ws)` exactly when it starts with `c` and its
/// tail is in `ws`.
pub proof fn lemma_prepend_contains(c: u8, ws: Seq<Seq<u8>>, w: Seq<u8>)
    ensures
        prepend_all(c, ws).contains(w) <==> (w.len() >= 1 && w[0] == c && ws.contains(
            w.drop_first(),
        )),
{
    let ps = prepend_all(c, ws);
    if ps.contains(w) {
        let k = choose|k: int| 0 <= k < ps.len() && ps[k] == w;
        assert(ps[k] == seq![c] + ws[k]);
        assert(w[0] == c);
        assert(w.drop_first() =~= ws[k]);
    }
    if w.len() >= 1 && w[0] == c && ws.contains(w.drop_first()) {
        let k = choose|k: int| 0 <= k < ws.len() && ws[k] == w.drop_first();
        assert(ps[k] == seq![c] + ws[k]);
        assert(seq![c] + w.drop_first() =~= w);
        assert(ps[k] == w);
    }
}

/// What `word_list` holds: exactly the accepted words shorter than the fuel.
pub proof fn lemma_word_list_mem(g: Seq<SpecNode>, i: int, fuel: nat, w: Seq<u8>)
    requires
        graph_wf(g),
        0 <= i < g.len(),
    ensures
        word_list(g, i, fuel).contains(w) <==> (accepts(g, i, w) && w.len() < fuel),
    decreases fuel, 27int,
{
    if fuel == 0 {
    } else {
        let base: Seq<Seq<u8>> = if g[i].end {
            seq![Seq::<u8>::empty()]
        } else {
            Seq::empty()
        };
        let rest = word_list_from(g, i, 0, fuel);
        lemma_concat_contains(base, rest, w);
        lemma_word_list_from_mem(g, i, 0, fuel, w);
        if base.contains(w) {
            assert(w =~= Seq::<u8>::empty());
        }
        if accepts(g, i, w) && w.len() < fuel {
            if w.len() == 0 {
                assert(base == seq![Seq::<u8>::empty()]);
                assert(base[0] == w);
            }
        }
    }
}

/// What `word_list_from` holds: the accepted words of length in `1..fuel`
/// whose first symbol is at least `c`.
pub proof fn lemma_word_list_from_mem(g: Seq<SpecNode>, i: int, c: int, fuel: nat, w: Seq<u8>)
    requires
        graph_wf(g),
        0 <= i < g.len(),
        0 <= c,
    ensures
        word_list_from(g, i, c, fuel).contains(w) <==> (accepts(g, i, w) && 1 <= w.len() < fuel
            && w[0] >= c),
    decreases fuel, 26 - c,
{
    if fuel == 0 || c >= 26 {
        if accepts(g, i, w) && w.len() >= 1 {
            assert(w[0] < 26);
        }
    } else {
        let t = g[i].kids[c];
        let head: Seq<Seq<u8>> = if t != 0 {
            prepend_all(c as u8, word_list(g, t as int, (fuel - 1) as nat))
        } else {
            Seq::empty()
        };
        let rest = word_list_from(g, i, c + 1, fuel);
        lemma_concat_contains(head, rest, w);
        lemma_word_list_from_mem(g, i, c + 1, fuel, w);
        if t != 0 {
            lemma_prepend_contains(c as u8, word_list(g, t as int, (fuel - 1) as nat), w);
            lemma_word_list_mem(g, t as int, (fuel - 1) as nat, w.drop_first());
        }
        if accepts(g, i, w) && 1 <= w.len() < fuel && w[0] == c {
            assert(g[i].kids[w[0] as int] != 0);
            assert(t != 0);
            assert(accepts(g, t as int, w.drop_first()));
        }
    }
}

/// The order is strict: no word precedes itself.
pub proof fn lemma_lex_lt_irrefl(a: Seq<u8>)
    ensures
        !lex_lt(a, a),
    decreases a.len(),
{
    if a.len() > 0 {
        lemma_lex_lt_irrefl(a.drop_first());
    }
}

/// A strictly ascending list holds no word twice.
pub proof fn lemma_sorted_distinct(ws: Seq<Seq<u8>>)
    requires
        strictly_sorted(ws),
    ensures
        forall|i: int, j: int| 0 <= i < ws.len() && 0 <= j < ws.len() && i != j ==> ws[i] != ws[j],
{
    assert forall|i: int, j: int|
        0 <= i < ws.len() && 0 <= j < ws.len() && i != j implies ws[i] != ws[j] by {
        if i < j {
            assert(lex_lt(ws[i], ws[j]));
        } else {
            assert(lex_lt(ws[j], ws[i]));
        }
        lemma_lex_lt_irrefl(ws[i]);
    }
}

/// The order is transitive.
pub proof fn lemma_lex_lt_trans(a: Seq<u8>, b: Seq<u8>, c: Seq<u8>)
    requires
        lex_lt(a, b),
        lex_lt(b, c),
    ensures
        lex_lt(a, c),
    decreases a.len(),
{
    if a.len() > 0 && b.len() > 0 && c.len() > 0 && a[0] == b[0] && b[0] == c[0] {
        lemma_lex_lt_trans(a.drop_first(), b.drop_first(), c.drop_first());
    }
}

/// The order is asymmetric.
pub proof fn lemma_lex_lt_asym(a: Seq<u8>, b: Seq<u8>)
    requires
        lex_lt(a, b),
    ensures
        !lex_lt(b, a),
    decreases a.len(),
{
    if a.len() > 0 && b.len() > 0 && a[0] == b[0] {
        lemma_lex_lt_asym(a.drop_first(), b.drop_first());
    }
}

/// Any two words are ordered or equal.
pub proof fn lemma_lex_lt_total(a: Seq<u8>, b: Seq<u8>)
    ensures
        a == b || lex_lt(a, b) || lex_lt(b, a),
    decreases a.len(),
{
    if a.len() > 0 && b.len() > 0 && a[0] == b[0] {
        lemma_lex_lt_total(a.drop_first(), b.drop_first());
        if a.drop_first() == b.drop_first() {
            assert forall|k: int| 0 <= k < a.len() implies a[k] == b[k] by {
                if k >= 1 {
                    assert(a.drop_first()[k - 1] == b.drop_first()[k - 1]);
                }
            }
            assert(a =~= b);
        }
    } else if a.len() == 0 && b.len() == 0 {
        assert(a =~= b);
    }
}

/// Words with equal leading parts compare by their tails.
pub proof fn lemma_lex_lt_skip(a: Seq<u8>, b: Seq<u8>, k: int)
    requires
        0 <= k <= a.len(),
        0 <= k <= b.len(),
        a.take(k) == b.take(k),
    ensures
        lex_lt(a, b) == lex_lt(a.skip(k), b.skip(k)),
    decreases k,
{
    if k == 0 {
        assert(a.skip(0) =~= a);
        assert(b.skip(0) =~= b);
    } else {
        assert(a[0] == b[0]) by {
            assert(a.take(k)[0] == a[0] && b.take(k)[0] == b[0]);
        }
        assert(a.drop_first().take(k - 1) =~= a.take(k).drop_first());
        assert(b.drop_first().take(k - 1) =~= b.take(k).drop_first());
        lemma_lex_lt_skip(a.drop_first(), b.drop_first(), k - 1);
        assert(a.drop_first().skip(k - 1) =~= a.skip(k));
        assert(b.drop_first().skip(k - 1) =~= b.skip(k));
        assert(a.len() > 0 && b.len() > 0);
    }
}

/// Prepending the same symbol preserves the order.
pub proof fn lemma_lex_lt_prepend(c: u8, a: Seq<u8>, b: Seq<u8>)
    ensures
        lex_lt(seq![c] + a, seq![c] + b) == lex_lt(a, b),
{
    assert((seq![c] + a)[0] == c);
    assert((seq![c] + b)[0] == c);
    assert((seq![c] + a).drop_first() =~= a);
    assert((seq![c] + b).drop_first() =~= b);
}

/// A word with a smaller first symbol comes first.
pub proof fn lemma_lex_lt_first(a: Seq<u8>, b: Seq<u8>)
    requires
        a.len() >= 1,
        b.len() >= 1,
        a[0] < b[0],
    ensures
        lex_lt(a, b),
{
}

/// Prepending one symbol to a strictly sorted list keeps it strictly sorted.
pub proof fn lemma_prepend_sorted(c: u8, ws: Seq<Seq<u8>>)
    requires
        strictly_sorted(ws),
    ensures
        strictly_sorted(prepend_all(c, ws)),
{
    let ps = prepend_all(c, ws);
    assert forall|i: int, j: int| 0 <= i < j < ps.len() implies lex_lt(
        #[trigger] ps[i],
        #[trigger] ps[j],
    ) by {
        assert(ps[i] == seq![c] + ws[i]);
        assert(ps[j] == seq![c] + ws[j]);
        lemma_lex_lt_prepend(c, ws[i], ws[j]);
    }
}

/// Concatenating sorted lists where every left word precedes every right word
/// yields a sorted list.
pub proof fn lemma_concat_sorted(a: Seq<Seq<u8>>, b: Seq<Seq<u8>>)
    requires
        strictly_sorted(a),
        strictly_sorted(b),
        forall|i: int, j: int|
            0 <= i < a.len() && 0 <= j < b.len() ==> lex_lt(#[trigger] a[i], #[trigger] b[j]),
    ensures
        strictly_sorted(a + b),
{
    let ab = a + b;
    assert forall|i: int, j: int| 0 <= i < j < ab.len() implies lex_lt(
        #[trigger] ab[i],
        #[trigger] ab[j],
    ) by {
        if i < a.len() && j < a.len() {
            assert(ab[i] == a[i] && ab[j] == a[j]);
        } else if i < a.len() {
            assert(ab[i] == a[i] && ab[j] == b[j - a.len()]);
        } else {
            assert(ab[i] == b[i - a.len()] && ab[j] == b[j - a.len()]);
        }
    }
}

/// `word_list` is strictly ascending.
pub proof fn lemma_word_list_sorted(g: Seq<SpecNode>, i: int, fuel: nat)
    requires
        graph_wf(g),
        0 <= i < g.len(),
    ensures
        strictly_sorted(word_list(g, i, fuel)),
    decreases fuel, 27int,
{
    if fuel == 0 {
    } else {
        let base: Seq<Seq<u8>> = if g[i].end {
            seq![Seq::<u8>::empty()]
        } else {
            Seq::empty()
        };
        let rest = word_list_from(g, i, 0, fuel);
        lemma_word_list_from_sorted(g, i, 0, fuel);
        assert forall|x: int, y: int| 0 <= x < base.len() && 0 <= y < rest.len() implies lex_lt(
            #[trigger] base[x],
            #[trigger] rest[y],
        ) by {
            lemma_word_list_from_mem(g, i, 0, fuel, rest[y]);
            assert(rest.contains(rest[y]));
            assert(rest[y].len() >= 1);
            assert(base[x].len() == 0);
        }
        lemma_concat_sorted(base, rest);
    }
}

/// `word_list_from` is strictly ascending and starts no lower than `c`.
pub proof fn lemma_word_list_from_sorted(g: Seq<SpecNode>, i: int, c: int, fuel: nat)
    requires
        graph_wf(g),
        0 <= i < g.len(),
        0 <= c,
    ensures
        strictly_sorted(word_list_from(g, i, c, fuel)),
        firsts_at_least(word_list_from(g, i, c, fuel), c),
    decreases fuel, 26 - c,
{
    let ws = word_list_from(g, i, c, fuel);
    assert forall|k: int| 0 <= k < ws.len() implies (#[trigger] ws[k]).len() >= 1 && ws[k][0]
        >= c by {
        assert(ws.contains(ws[k]));
        lemma_word_list_from_mem(g, i, c, fuel, ws[k]);
    }
    if fuel == 0 || c >= 26 {
    } else {
        let t = g[i].kids[c];
        let sub = word_list(g, t as int, (fuel - 1) as nat);
        let head: Seq<Seq<u8>> = if t != 0 {
            prepend_all(c as u8, sub)
        } else {
            Seq::empty()
        };
        let rest = word_list_from(g, i, c + 1, fuel);
        lemma_word_list_from_sorted(g, i, c + 1, fuel);
        if t != 0 {
            lemma_word_list_sorted(g, t as int, (fuel - 1) as nat);
            lemma_prepend_sorted(c as u8, sub);
        }
        assert forall|x: int, y: int| 0 <= x < head.len() && 0 <= y < rest.len() implies lex_lt(
            #[trigger] head[x],
            #[trigger] rest[y],
        ) by {
            assert(head[x] == seq![c as u8] + sub[x]);
            assert(head[x][0] == c);
            assert(rest.contains(rest[y]));
            lemma_word_list_from_mem(g, i, c + 1, fuel, rest[y]);
            lemma_lex_lt_first(head[x], rest[y]);
        }
        lemma_concat_sorted(head, rest);
    }
}

/// Every symbol of an accepted word is a real symbol.
pub proof fn lemma_accepts_symbols(g: Seq<SpecNode>, i: int, w: Seq<u8>)
    requires
        accepts(g, i, w),
    ensures
        forall|k: int| 0 <= k < w.len() ==> w[k] < 26,
    decreases w.len(),
{
    if w.len() > 0 {
        let t = g[i].kids[w[0] as int];
        lemma_accepts_symbols(g, t as int, w.drop_first());
        assert forall|k: int| 0 <= k < w.len() implies w[k] < 26 by {
            if k > 0 {
                assert(w.drop_first()[k - 1] == w[k]);
            }
        }
    }
}

} // verus!

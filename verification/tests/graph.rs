//! Flat-graph behaviour: building, membership, the pipeline, set algebra and
//! the combinator views.

use odawg::{from_word, into_word, AllDawg, AnyDawg, FlatDawg, Pattern, ReadDawg};

fn build(words: &[&str]) -> FlatDawg {
    let list: Vec<Vec<u8>> = words.iter().map(|w| from_word(w)).collect();
    FlatDawg::from_words(&list)
}

fn word_strings(d: &FlatDawg) -> Vec<String> {
    d.word_vec().iter().map(|w| into_word(w)).collect()
}

#[test]
fn minimise_deletes_duplicates() {
    let mut dawg = FlatDawg::new();
    dawg.add(&from_word("cat"));
    dawg.add(&from_word("cut"));

    dawg.minimise();
    dawg.trim();
    assert_eq!(dawg.node_count(), 4);
}

#[test]
fn words_round_trip() {
    // building from a word list and reading it back gives the distinct words
    // in ascending order
    let dawg = build(&["cut", "cat", "cats", "cat", "at"]);
    assert_eq!(word_strings(&dawg), vec!["at", "cat", "cats", "cut"]);
    assert_eq!(dawg.len(), 4);
    assert!(!dawg.is_empty());
    assert!(FlatDawg::new().is_empty());
}

#[test]
fn add_reports_presence() {
    let mut dawg = FlatDawg::new();
    assert!(!dawg.add(&from_word("cat")));
    assert!(dawg.add(&from_word("cat")));
    assert!(dawg.has(&from_word("cat")));
    assert!(!dawg.has(&from_word("ca")));
    assert!(!dawg.has(&from_word("cats")));
}

#[test]
fn sub_reports_presence() {
    let mut dawg = build(&["cat", "cats"]);
    assert!(dawg.sub(&from_word("cat")));
    assert!(!dawg.sub(&from_word("cat")));
    assert!(!dawg.sub(&from_word("dog")));
    assert!(dawg.has(&from_word("cats")));
    assert!(!dawg.has(&from_word("cat")));
}

#[test]
fn word_built_graphs_are_acyclic() {
    let dawg = build(&["cat", "cats", "cut", "cuts"]);
    assert!(!dawg.is_cyclic());
    let mut cleaned = build(&["cat", "cats", "cut", "cuts"]);
    cleaned.clean();
    assert!(!cleaned.is_cyclic());
}

#[test]
fn clean_preserves_words() {
    let mut dawg = build(&["cat", "cats", "cut", "cuts", "at"]);
    dawg.sub(&from_word("at"));
    dawg.clean();
    assert_eq!(word_strings(&dawg), vec!["cat", "cats", "cut", "cuts"]);
}

#[test]
fn clean_is_idempotent() {
    let mut dawg = build(&["cat", "cats", "cut", "cuts", "cub"]);
    dawg.clean();
    let nodes_once: Vec<_> = (0..dawg.node_count()).map(|i| {
        (dawg.nodes[i].end, dawg.nodes[i].kids.clone())
    }).collect();
    let words_once = word_strings(&dawg);
    dawg.clean();
    let nodes_twice: Vec<_> = (0..dawg.node_count()).map(|i| {
        (dawg.nodes[i].end, dawg.nodes[i].kids.clone())
    }).collect();
    assert_eq!(nodes_once, nodes_twice);
    assert_eq!(words_once, word_strings(&dawg));
}

#[test]
fn clean_empties_dead_graphs() {
    let mut dawg = build(&["cat"]);
    dawg.sub(&from_word("cat"));
    dawg.clean();
    assert_eq!(dawg.node_count(), 1);
    assert!(dawg.is_empty());
}

#[test]
fn union_then_clean() {
    let mut g1 = build(&["cat", "cats"]);
    let g2 = build(&["cut", "cuts"]);
    g1.union(&g2);
    g1.clean();
    assert_eq!(word_strings(&g1), vec!["cat", "cats", "cut", "cuts"]);
    // the `ts` suffix is shared: root, `c`, the `a`/`u` join, `t`, `s`
    assert_eq!(g1.node_count(), 5);
}

#[test]
fn union_words_combine() {
    let mut a = build(&["bat", "cat"]);
    let b = build(&["cat", "rat"]);
    a.union(&b);
    assert_eq!(word_strings(&a), vec!["bat", "cat", "rat"]);
}

#[test]
fn intersect_keeps_shared_words() {
    let mut a = build(&["bat", "cat", "rat"]);
    let b = build(&["cat", "rat", "sat"]);
    a.intersect(&b);
    assert_eq!(word_strings(&a), vec!["cat", "rat"]);
}

#[test]
fn remove_drops_shared_words() {
    let mut a = build(&["bat", "cat", "rat"]);
    let b = build(&["cat", "sat"]);
    a.remove(&b);
    assert_eq!(word_strings(&a), vec!["bat", "rat"]);
}

#[test]
fn keep_filters_by_predicate() {
    let mut a = build(&["at", "bat", "cats", "rat"]);
    a.keep(|w: &Vec<u8>| w.len() == 3);
    assert_eq!(word_strings(&a), vec!["bat", "rat"]);
}

#[test]
fn intersect_with_pattern() {
    let mut dict = build(&["bat", "cat", "rat", "bit", "batch"]);
    let pat = Pattern::parse_str("[bcr]at").unwrap();
    dict.intersect(&pat);
    assert_eq!(word_strings(&dict), vec!["bat", "cat", "rat"]);
}

#[test]
fn combinator_intersects_dictionary_with_pattern() {
    let dict = build(&["bat", "cat", "rat", "bit"]);
    let pat = Pattern::parse_str("[bcr]at").unwrap();
    let view = AllDawg { a: &dict, b: &pat };
    let words: Vec<String> = ReadDawg::words(&view).iter().map(|w| into_word(w)).collect();
    assert_eq!(words, vec!["bat", "cat", "rat"]);
    assert!(view.has(&from_word("bat")));
    assert!(!view.has(&from_word("bit")));
}

#[test]
fn combinator_unions_dictionaries() {
    let a = build(&["bat", "cat"]);
    let b = build(&["rat"]);
    let view = AnyDawg { a: &a, b: &b };
    let words: Vec<String> = ReadDawg::words(&view).iter().map(|w| into_word(w)).collect();
    assert_eq!(words, vec!["bat", "cat", "rat"]);
}

#[test]
fn graph_to_thin_and_back() {
    let mut dawg = build(&["ab", "cd"]);
    dawg.clean();
    let thin = dawg.to_thin().unwrap();
    assert!(thin.has(&from_word("ab")));
    assert!(thin.has(&from_word("cd")));
    assert!(!thin.has(&from_word("ad")));
    let wide = thin.to_wide();
    assert_eq!(word_strings(&wide), vec!["ab", "cd"]);
}

#[test]
fn graph_to_thin_refuses_shared_children() {
    // minimising `{cat, cut}` makes `a` and `u` share one `t` node, which the
    // compact form cannot hold: its children must sit at distinct consecutive
    // slots
    let mut dawg = build(&["cat", "cut"]);
    dawg.clean();
    assert!(dawg.to_thin().is_err());
}

#[test]
fn bfs_layout_after_trim() {
    // on a freshly built prefix tree every trimmed edge climbs, and each
    // node's children sit in ascending symbol order
    let mut dawg = build(&["cat", "cats", "cub", "at"]);
    dawg.trim();
    for i in 0..dawg.node_count() {
        let mut last = 0usize;
        for c in 0..26u8 {
            let j = dawg.nodes[i].get(c);
            if j != 0 {
                assert!(j > i);
                assert!(j > last);
                last = j;
            }
        }
    }
}

#[test]
fn rebuild_reopens_cleaned_graphs() {
    // after clean the suffix sharing blocks in-place set algebra; rebuild
    // restores the prefix-tree form with the same words
    let mut dawg = build(&["cat", "cats", "cut", "cuts"]);
    dawg.clean();
    dawg.rebuild();
    dawg.union(&build(&["cub"]));
    assert_eq!(word_strings(&dawg), vec!["cat", "cats", "cub", "cut", "cuts"]);
}

#[test]
fn clean_shares_all_equal_slots() {
    // after clean no two surviving slots hold the same flag and edges
    let mut dawg = build(&["cat", "cut", "cot", "at"]);
    dawg.clean();
    for i in 0..dawg.node_count() {
        for j in 0..dawg.node_count() {
            if i != j {
                let same = dawg.nodes[i].end == dawg.nodes[j].end
                    && dawg.nodes[i].kids == dawg.nodes[j].kids;
                assert!(!same);
            }
        }
    }
}

#[test]
fn unlink_reports_dead_root() {
    let mut dawg = build(&["cat"]);
    dawg.sub(&from_word("cat"));
    assert!(dawg.unlink());
    let mut live = build(&["cat"]);
    assert!(!live.unlink());
}

#[test]
fn word_iter_walks_in_order() {
    let dawg = build(&["cut", "cat"]);
    let mut it = odawg::dawg::iters::WordIter::new(&dawg);
    assert_eq!(it.next().map(|w| into_word(&w)), Some("cat".to_string()));
    assert_eq!(it.next().map(|w| into_word(&w)), Some("cut".to_string()));
    assert_eq!(it.next(), None);
}

#[test]
fn pattern_word_iter_walks_in_order() {
    let pat = Pattern::parse_str("[ab]x").unwrap();
    let mut it = odawg::pattern::iters::WordIter::new(&pat);
    assert_eq!(it.next().map(|w| into_word(&w)), Some("ax".to_string()));
    assert_eq!(it.next().map(|w| into_word(&w)), Some("bx".to_string()));
    assert_eq!(it.next(), None);
}

#[test]
fn codec_round_trip() {
    assert_eq!(from_alpha_byte('a'), 0);
    assert_eq!(from_alpha_byte('z'), 25);
    assert_eq!(odawg::into_alpha(0), 'a');
    assert_eq!(odawg::into_alpha(25), 'z');
    let w = from_word("quartz");
    assert_eq!(into_word(&w), "quartz");
}

fn from_alpha_byte(c: char) -> u8 {
    odawg::from_alpha(c)
}

//! Pattern behaviour: parsing, word counts, membership, enumeration, the
//! graph conversions and the canonical formatting.

use odawg::{from_word, into_word, ErrorKind, Pattern, ReadDawg};

fn pat(s: &str) -> Pattern {
    Pattern::parse_str(s).unwrap()
}

fn has(p: &Pattern, w: &str) -> bool {
    Pattern::has(p, &from_word(w))
}

fn word_strings(p: &Pattern) -> Vec<String> {
    ReadDawg::words(p).iter().map(|w| into_word(w)).collect()
}

#[test]
fn parse_empty() {
    let p = pat("");
    assert_eq!(p.len(), 0);
    assert!(!has(&p, "a"));
}

#[test]
fn parse_word() {
    let p = pat("jab");
    assert_eq!(p.len(), 1);
    assert!(has(&p, "jab"));
    assert!(!has(&p, "fab"));
}

#[test]
fn parse_any() {
    let p = pat("-ab");
    assert_eq!(p.len(), 26);
    assert!(has(&p, "jab"));
    assert!(has(&p, "fab"));
    assert!(has(&p, "tab"));
    assert!(!has(&p, "fib"));
}

#[test]
fn parse_group() {
    let p = pat("[fjt]ab");
    assert_eq!(p.len(), 3);
    assert!(has(&p, "jab"));
    assert!(has(&p, "fab"));
    assert!(has(&p, "tab"));
    assert!(!has(&p, "fib"));
}

#[test]
fn parse_range() {
    let p = pat("[r-t]at");
    assert_eq!(p.len(), 3);
    assert!(has(&p, "rat"));
    assert!(has(&p, "sat"));
    assert!(has(&p, "tat"));
    assert!(!has(&p, "sit"));
}

#[test]
fn parse_multi() {
    let p = pat("[b-cr-t]at");
    assert_eq!(p.len(), 5);
    assert!(has(&p, "bat"));
    assert!(has(&p, "cat"));
    assert!(has(&p, "rat"));
    assert!(has(&p, "sat"));
    assert!(has(&p, "tat"));
    assert!(!has(&p, "sit"));
}

#[test]
fn parse_mixed() {
    let p = pat("[b-cpr-t]at");
    assert_eq!(p.len(), 6);
    assert!(has(&p, "bat"));
    assert!(has(&p, "cat"));
    assert!(has(&p, "pat"));
    assert!(has(&p, "rat"));
    assert!(has(&p, "sat"));
    assert!(has(&p, "tat"));
    assert!(!has(&p, "sit"));
}

#[test]
fn parse_many() {
    let p = pat("[r-t][ai]t");
    assert_eq!(p.len(), 6);
    assert!(has(&p, "rat"));
    assert!(has(&p, "sat"));
    assert!(has(&p, "tat"));
    assert!(has(&p, "rit"));
    assert!(has(&p, "sit"));
    assert!(has(&p, "tit"));
    assert!(!has(&p, "wit"));
}

#[test]
fn parse_start() {
    let p = pat("[-b]ye");
    assert_eq!(p.len(), 2);
    assert!(has(&p, "aye"));
    assert!(has(&p, "bye"));
    assert!(!has(&p, "dye"));
}

#[test]
fn parse_end() {
    let p = pat("[y-]ap");
    assert_eq!(p.len(), 2);
    assert!(has(&p, "yap"));
    assert!(has(&p, "zap"));
    assert!(!has(&p, "map"));
}

#[test]
fn parse_all() {
    let p = pat("[-cmr-ty-]ap");
    assert_eq!(p.len(), 9);
    assert!(has(&p, "aap"));
    assert!(has(&p, "bap"));
    assert!(has(&p, "cap"));
    assert!(has(&p, "map"));
    assert!(has(&p, "rap"));
    assert!(has(&p, "sap"));
    assert!(has(&p, "tap"));
    assert!(has(&p, "yap"));
    assert!(has(&p, "zap"));
    assert!(!has(&p, "bat"));
}

#[test]
fn parse_errors() {
    assert_eq!(Pattern::parse_str("a]b").unwrap_err().kind, ErrorKind::ReclosedGroup);
    assert_eq!(Pattern::parse_str("[ab").unwrap_err().kind, ErrorKind::UnclosedGroup);
    assert_eq!(Pattern::parse_str("[a[b]").unwrap_err().kind, ErrorKind::UnclosedGroup);
    assert_eq!(Pattern::parse_str("[a--b]").unwrap_err().kind, ErrorKind::UnclosedRange);
    assert_eq!(Pattern::parse_str("aQb").unwrap_err().kind, ErrorKind::Unexpected);
    assert_eq!(Pattern::parse_str("a b").unwrap_err().idx, 1);
}

#[test]
fn iters_empty() {
    let p = pat("");
    let words = word_strings(&p);
    assert_eq!(words, vec![""; 0]);
}

#[test]
fn iters_word() {
    let p = pat("jab");
    let words = word_strings(&p);
    assert_eq!(words, vec!["jab"]);
}

#[test]
fn iters_any() {
    let p = pat("-ab");
    let words = word_strings(&p);
    assert_eq!(
        words,
        vec![
            "aab", "bab", "cab", "dab", "eab", "fab", "gab", "hab", "iab", "jab", "kab", "lab",
            "mab", "nab", "oab", "pab", "qab", "rab", "sab", "tab", "uab", "vab", "wab", "xab",
            "yab", "zab"
        ]
    );
}

#[test]
fn iters_all() {
    let p = pat("[-cmr-ty-]ap");
    let words = word_strings(&p);
    assert_eq!(words, vec!["aap", "bap", "cap", "map", "rap", "sap", "tap", "yap", "zap"]);
}

fn check_conversions(text: &str) {
    let p = pat(text);
    let thin = p.to_thin();
    let wide = p.to_flat();
    for word in ReadDawg::words(&p) {
        assert!(thin.has(&word));
        assert!(wide.has(&word));
    }
    for word in wide.word_vec() {
        assert!(has(&p, &into_word(&word)));
    }
}

#[test]
fn convert_empty() {
    let p = pat("");
    let thin = p.to_thin();
    let wide = p.to_flat();
    assert!(!thin.has(&from_word("jab")));
    assert!(!wide.has(&from_word("jab")));
}

#[test]
fn convert_word() {
    check_conversions("jab");
}

#[test]
fn convert_any() {
    check_conversions("-ab");
}

#[test]
fn convert_group() {
    check_conversions("[fjt]ab");
}

#[test]
fn convert_range() {
    check_conversions("[r-t]at");
}

#[test]
fn convert_multi() {
    check_conversions("[b-cr-t]at");
}

#[test]
fn convert_mixed() {
    check_conversions("[b-cpr-t]at");
}

#[test]
fn convert_many() {
    check_conversions("[r-t][ai]t");
}

#[test]
fn convert_start() {
    check_conversions("[-b]ye");
}

#[test]
fn convert_end() {
    check_conversions("[y-]ap");
}

#[test]
fn convert_all() {
    check_conversions("[-cmr-ty-]ap");
}

#[test]
fn format_round_trip() {
    // parsing the canonical text of a pattern gives the pattern back
    for text in ["", "jab", "-ab", "[fjt]ab", "[r-t]at", "[b-cr-t]at", "[b-cpr-t]at",
        "[r-t][ai]t", "[-b]ye", "[y-]ap", "[-cmr-ty-]ap", "[]a"] {
        let p = pat(text);
        let shown = p.fmt();
        assert_eq!(shown, text);
        let again = pat(&shown);
        assert_eq!(again.masks, p.masks);
    }
}

#[test]
fn format_chooses_shortest() {
    assert_eq!(pat("[abc]").fmt(), "[-c]");
    assert_eq!(pat("[xyz]").fmt(), "[x-]");
    assert_eq!(pat("[ab]x[yz]").fmt(), "[-b]x[y-]");
    assert_eq!(pat("[a-zb]").fmt(), "-");
}

#[test]
fn letter_view_reads_masks() {
    let p = pat("[bd]x");
    let first = p.index(0);
    assert!(!first.is_end());
    assert!(first.has(1));
    assert!(!first.has(2));
    assert!(first.has(3));
    assert_eq!(first.get(1), 1);
    assert_eq!(first.get(2), 0);
    assert_eq!(first.next_c(0), Some(1));
    assert_eq!(first.next_c(2), Some(3));
    assert_eq!(first.next_c(4), None);
    let tail = p.index(2);
    assert!(tail.is_end());
    assert!(tail.is_empty());
}

use std::collections::BTreeSet;

use hubset::backend::selection_chars;
use hubset::catalog::{is_white_space, resolve, subset_tokens, trim};
use hubset::ranges::parse_unicode_ranges;

fn strings(ts: &[&str]) -> Vec<String> {
    ts.iter().map(|t| t.to_string()).collect()
}

fn codepoints(tokens: &[String]) -> BTreeSet<char> {
    selection_chars(&parse_unicode_ranges(tokens).unwrap()).into_iter().collect()
}

#[test]
fn latin_contains_the_basic_block() {
    let r = resolve(&strings(&["latin"]));
    assert!(!r.is_empty());
    assert!(r.contains(&"U+0-FF".to_string()));
    assert_eq!(r.len(), 26);
}

#[test]
fn unknown_name_contributes_nothing() {
    assert!(resolve(&strings(&["not-a-real-subset"])).is_empty());
    assert!(resolve(&strings(&["Latin"])).is_empty());
    assert!(resolve(&[]).is_empty());
}

#[test]
fn names_are_trimmed() {
    assert_eq!(resolve(&strings(&["  greek\t"])), vec!["U+0370-03FF".to_string()]);
    assert_eq!(trim("\u{3000} greek-ext \n"), "greek-ext");
    assert_eq!(trim("   "), "");
}

#[test]
fn tokens_concatenate_in_request_order() {
    let r = resolve(&strings(&["greek", "unknown", "greek-ext"]));
    assert_eq!(r, vec!["U+0370-03FF".to_string(), "U+1F00-1FFF".to_string()]);
}

#[test]
fn repeated_name_selects_the_same_codepoints() {
    let once = resolve(&strings(&["latin"]));
    let twice = resolve(&strings(&["latin", "latin"]));
    assert_eq!(twice.len(), 2 * once.len());
    assert_eq!(codepoints(&once), codepoints(&twice));
}

#[test]
fn every_catalog_entry_parses() {
    for name in ["latin", "latin-ext", "greek", "greek-ext", "cyrillic", "cyrillic-ext", "vietnamese"] {
        let tokens = subset_tokens(name).unwrap();
        assert!(!tokens.is_empty());
        assert!(parse_unicode_ranges(&tokens).is_ok());
    }
    assert_eq!(subset_tokens("greek"), Some(vec!["U+0370-03FF".to_string()]));
    assert_eq!(subset_tokens(" greek"), None);
}

#[test]
fn unknown_name_among_known_ones_adds_nothing() {
    assert_eq!(resolve(&strings(&["cyrillic", "klingon"])), resolve(&strings(&["cyrillic"])));
}

#[test]
fn white_space_matches_std() {
    for c in ['\t', '\n', '\u{b}', '\u{c}', '\r', ' ', '\u{85}', '\u{a0}', '\u{1680}', '\u{2000}', '\u{200a}', '\u{2028}', '\u{2029}', '\u{202f}', '\u{205f}', '\u{3000}'] {
        assert!(is_white_space(c));
    }
    for c in ['a', '-', '\u{200b}', '\u{feff}', '\u{1f}', '\0'] {
        assert!(!is_white_space(c));
    }
}

use hubset::ranges::{
    parse_unicode_range, parse_unicode_ranges, to_token, to_tokens, RangeError, RangeErrorKind,
    UnicodeValue,
};

fn strings(ts: &[&str]) -> Vec<String> {
    ts.iter().map(|t| t.to_string()).collect()
}

#[test]
fn single_codepoint() {
    assert_eq!(parse_unicode_range("U+41"), Ok(UnicodeValue::Single('A')));
    assert_eq!(parse_unicode_range("U+2BB"), Ok(UnicodeValue::Single('\u{2bb}')));
}

#[test]
fn prefix_is_optional() {
    assert_eq!(parse_unicode_range("41"), Ok(UnicodeValue::Single('A')));
    assert_eq!(parse_unicode_range("0-ff"), Ok(UnicodeValue::Range('\0', '\u{ff}')));
}

#[test]
fn interval_keeps_both_ends() {
    assert_eq!(parse_unicode_range("U+0-FF"), Ok(UnicodeValue::Range('\0', '\u{ff}')));
    assert_eq!(parse_unicode_range("U+41-41"), Ok(UnicodeValue::Range('A', 'A')));
    assert_eq!(parse_unicode_range("U+0100-02AF"), Ok(UnicodeValue::Range('\u{100}', '\u{2af}')));
}

#[test]
fn largest_scalar_values() {
    assert_eq!(parse_unicode_range("U+10FFFF"), Ok(UnicodeValue::Single('\u{10ffff}')));
    assert_eq!(parse_unicode_range("U+110000"), Err(RangeErrorKind::InvalidValue));
    assert_eq!(parse_unicode_range("U+FFFFFFFFFF"), Err(RangeErrorKind::InvalidValue));
    assert_eq!(parse_unicode_range("U+00000000041"), Ok(UnicodeValue::Single('A')));
}

#[test]
fn surrogates_are_rejected() {
    assert_eq!(parse_unicode_range("U+D800"), Err(RangeErrorKind::InvalidValue));
    assert_eq!(parse_unicode_range("U+D7FF-DFFF"), Err(RangeErrorKind::InvalidEnd));
}

#[test]
fn malformed_tokens() {
    assert_eq!(parse_unicode_range("U+"), Err(RangeErrorKind::InvalidValue));
    assert_eq!(parse_unicode_range(""), Err(RangeErrorKind::InvalidValue));
    assert_eq!(parse_unicode_range("U+XYZ"), Err(RangeErrorKind::InvalidValue));
    assert_eq!(parse_unicode_range("U+G-FF"), Err(RangeErrorKind::InvalidStart));
    assert_eq!(parse_unicode_range("U+-FF"), Err(RangeErrorKind::InvalidStart));
    assert_eq!(parse_unicode_range("U+0-ZZ"), Err(RangeErrorKind::InvalidEnd));
    assert_eq!(parse_unicode_range("U+1-2-3"), Err(RangeErrorKind::InvalidEnd));
    assert_eq!(parse_unicode_range("U+U+41"), Err(RangeErrorKind::InvalidValue));
}

#[test]
fn reversed_interval_is_rejected() {
    assert_eq!(parse_unicode_range("U+FF-0"), Err(RangeErrorKind::Reversed));
}

#[test]
fn list_parses_in_order() {
    let r = parse_unicode_ranges(&strings(&["U+41", "U+30-39"]));
    assert_eq!(r, Ok(vec![UnicodeValue::Single('A'), UnicodeValue::Range('0', '9')]));
    assert_eq!(parse_unicode_ranges(&[]), Ok(vec![]));
}

#[test]
fn list_stops_at_first_bad_token() {
    let r = parse_unicode_ranges(&strings(&["U+41", "U+FF-0", "nope"]));
    assert_eq!(r, Err(RangeError { index: 1, kind: RangeErrorKind::Reversed }));
}

#[test]
fn tokens_are_written_canonically() {
    assert_eq!(to_token(&UnicodeValue::Range('\0', '\u{ff}')), "U+0-FF");
    assert_eq!(to_token(&UnicodeValue::Single('\u{2bb}')), "U+2BB");
    assert_eq!(to_token(&UnicodeValue::Single('\u{10ffff}')), "U+10FFFF");
    assert_eq!(
        to_tokens(&[UnicodeValue::Single('A'), UnicodeValue::Range('\u{1e00}', '\u{1eff}')]),
        vec!["U+41".to_string(), "U+1E00-1EFF".to_string()]
    );
}

#[test]
fn reparsing_canonical_tokens_gives_the_same_values() {
    let tokens = strings(&["U+0100-02AF", "U+0300-0301", "0329", "U+1E00-1EFF", "U+A720-A7FF"]);
    let values = parse_unicode_ranges(&tokens).unwrap();
    let again = parse_unicode_ranges(&to_tokens(&values)).unwrap();
    assert_eq!(values, again);
}

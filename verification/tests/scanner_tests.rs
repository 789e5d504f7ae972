use event_scanner::mapping::Mapping;
use event_scanner::scanner::{parse, ParseError};

fn assert_mapping_eq(m: &Mapping, expected: &[(&str, &str)]) {
    assert_eq!(m.len(), expected.len());
    for (k, v) in expected {
        let got = m.get(&k.to_string());
        assert!(got.is_some(), "missing key {:?}", k);
        assert_eq!(got.unwrap(), v.to_string());
    }
}

#[test]
fn empty_input_parses_to_empty_mapping() {
    let m = parse("").unwrap();
    assert_eq!(m.len(), 0);
}

#[test]
fn whitespace_only_input_parses_to_empty_mapping() {
    let m = parse(" \t\r\n   ").unwrap();
    assert_eq!(m.len(), 0);
}

#[test]
fn two_pairs_parse() {
    let m = parse("one:\"0x154\" two:\"0x150\"").unwrap();
    assert_mapping_eq(&m, &[("one", "0x154"), ("two", "0x150")]);
}

#[test]
fn duplicate_key_keeps_last_value() {
    let m = parse("a:\"1\" a:\"2\"").unwrap();
    assert_mapping_eq(&m, &[("a", "2")]);
}

#[test]
fn arbitrary_whitespace_between_pairs() {
    let m = parse("  \n a:\"1\" \t\n\r b:\"2\"   a:\"3\" \u{2028} ").unwrap();
    assert_mapping_eq(&m, &[("a", "3"), ("b", "2")]);
}

#[test]
fn adjacent_pairs_need_no_separator() {
    let m = parse("a:\"1\"b:\"2\"").unwrap();
    assert_mapping_eq(&m, &[("a", "1"), ("b", "2")]);
}

#[test]
fn key_with_inner_whitespace_is_preserved() {
    let m = parse("a b:\"v\"").unwrap();
    assert_mapping_eq(&m, &[("a b", "v")]);
}

#[test]
fn empty_key_is_accepted() {
    let m = parse(":\"v\"").unwrap();
    assert_mapping_eq(&m, &[("", "v")]);
}

#[test]
fn key_without_colon_fails_invalid_key() {
    assert_eq!(parse("abc").unwrap_err(), ParseError::InvalidKey);
}

#[test]
fn key_without_colon_after_valid_pair_fails_invalid_key() {
    assert_eq!(parse("a:\"1\" bcd").unwrap_err(), ParseError::InvalidKey);
}

#[test]
fn value_with_unterminated_quote_fails_invalid_value() {
    assert_eq!(parse("key:\"abc").unwrap_err(), ParseError::InvalidValue);
}

#[test]
fn value_without_opening_quote_fails_invalid_value() {
    assert_eq!(parse("a:1\"").unwrap_err(), ParseError::InvalidValue);
}

#[test]
fn input_ending_after_colon_fails_invalid_value() {
    assert_eq!(parse("a:").unwrap_err(), ParseError::InvalidValue);
}

#[test]
fn escaped_quote_decodes_to_literal_quote() {
    let m = parse("a:\"x\\\"y\"").unwrap();
    assert_mapping_eq(&m, &[("a", "x\"y")]);
}

#[test]
fn escape_before_non_quote_fails_invalid_value() {
    assert_eq!(parse("a:\"x\\q\"").unwrap_err(), ParseError::InvalidValue);
}

#[test]
fn input_ending_mid_escape_fails_invalid_value() {
    assert_eq!(parse("a:\"x\\").unwrap_err(), ParseError::InvalidValue);
}

#[test]
fn render_escapes_quotes() {
    let m = parse("a:\"x\\\"y\"").unwrap();
    assert_eq!(m.render(), "a:\"x\\\"y\" ");
}

#[test]
fn render_then_parse_round_trips() {
    let m = parse("  one:\"0x154\"\n two:\"0x150\" a b:\"x\\\"y\\\"z\" :\"\" ").unwrap();
    let rendered = m.render();
    let again = parse(&rendered).unwrap();
    assert_eq!(again.len(), m.len());
    for i in 0..m.len() {
        let key = m.key_at(i);
        assert_eq!(again.get(&key), m.get(&key));
    }
}

#[test]
fn insert_overwrites_by_key() {
    let mut m = Mapping::new();
    m.insert("k".to_string(), "1".to_string());
    m.insert("k".to_string(), "2".to_string());
    m.insert("l".to_string(), "3".to_string());
    assert_mapping_eq(&m, &[("k", "2"), ("l", "3")]);
}

#[test]
fn get_of_absent_key_is_none() {
    let m = parse("a:\"1\"").unwrap();
    assert!(m.get(&"b".to_string()).is_none());
}

#[test]
fn entries_keep_first_insertion_order() {
    let m = parse("b:\"1\" a:\"2\" b:\"3\"").unwrap();
    assert_eq!(m.key_at(0), "b");
    assert_eq!(m.value_at(0), "3");
    assert_eq!(m.key_at(1), "a");
    assert_eq!(m.value_at(1), "2");
}

#[test]
fn whitespace_classification_matches_unicode() {
    assert!(event_scanner::is_whitespace_char(' '));
    assert!(event_scanner::is_whitespace_char('\t'));
    assert!(event_scanner::is_whitespace_char('\u{2028}'));
    assert!(event_scanner::is_whitespace_char('\u{00A0}'));
    assert!(!event_scanner::is_whitespace_char('a'));
    assert!(!event_scanner::is_whitespace_char(':'));
    assert!(!event_scanner::is_whitespace_char('"'));
}

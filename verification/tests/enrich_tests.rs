use event_scanner::enrich::{enrich, figure_fifth_value, hex_digit, parse_hex, to_hex_string};
use event_scanner::scanner::parse;

const EVENT_DATA: &str = "one:\"0x154\" two:\"0x150\" three:\"0x14A\" four:\"0x144\"";

#[test]
fn hex_digit_values() {
    assert_eq!(hex_digit('0'), Some(0));
    assert_eq!(hex_digit('9'), Some(9));
    assert_eq!(hex_digit('a'), Some(10));
    assert_eq!(hex_digit('f'), Some(15));
    assert_eq!(hex_digit('A'), Some(10));
    assert_eq!(hex_digit('F'), Some(15));
    assert_eq!(hex_digit('g'), None);
    assert_eq!(hex_digit(' '), None);
}

#[test]
fn parse_hex_accepts_prefixed_and_bare_values() {
    assert_eq!(parse_hex(&"0x154".to_string()), Some(0x154));
    assert_eq!(parse_hex(&"154".to_string()), Some(0x154));
    assert_eq!(parse_hex(&"ffff".to_string()), Some(0xFFFF));
    assert_eq!(parse_hex(&"FFFF".to_string()), Some(0xFFFF));
    assert_eq!(parse_hex(&"0".to_string()), Some(0));
    assert_eq!(parse_hex(&"0x0x12".to_string()), Some(0x12));
    assert_eq!(parse_hex(&"00154".to_string()), Some(0x154));
}

#[test]
fn parse_hex_rejects_bad_values() {
    assert_eq!(parse_hex(&"".to_string()), None);
    assert_eq!(parse_hex(&"0x".to_string()), None);
    assert_eq!(parse_hex(&"xyz".to_string()), None);
    assert_eq!(parse_hex(&"15 4".to_string()), None);
    assert_eq!(parse_hex(&"10000".to_string()), None);
    assert_eq!(parse_hex(&"123456789".to_string()), None);
}

#[test]
fn to_hex_string_writes_lowercase_digits() {
    assert_eq!(to_hex_string(0), "0x0");
    assert_eq!(to_hex_string(0x13C), "0x13c");
    assert_eq!(to_hex_string(0x154), "0x154");
    assert_eq!(to_hex_string(0xFFFF), "0xffff");
    assert_eq!(to_hex_string(9), "0x9");
}

#[test]
fn fifth_value_of_the_event_data() {
    let m = parse(EVENT_DATA).unwrap();
    // unmasked values are 43, 47, 53, 59; 53 and 59 first differ at bit two,
    // so the next value is 59 + 2 * 4 = 67, masked again to 0x13C
    assert_eq!(figure_fifth_value(&m), Some(0x13C));
}

#[test]
fn fifth_value_needs_all_four_keys() {
    let m = parse("one:\"0x154\" two:\"0x150\" three:\"0x14A\"").unwrap();
    assert_eq!(figure_fifth_value(&m), None);
}

#[test]
fn fifth_value_needs_hexadecimal_values() {
    let m = parse("one:\"0x154\" two:\"0x150\" three:\"0x14A\" four:\"nope\"").unwrap();
    assert_eq!(figure_fifth_value(&m), None);
}

#[test]
fn enrich_adds_the_fifth_entry() {
    let mut m = parse(EVENT_DATA).unwrap();
    assert!(enrich(&mut m));
    assert_eq!(m.len(), 5);
    assert_eq!(m.get(&"five".to_string()), Some("0x13c".to_string()));
}

#[test]
fn enrich_leaves_an_incomplete_mapping_alone() {
    let mut m = parse("one:\"0x154\"").unwrap();
    assert!(!enrich(&mut m));
    assert_eq!(m.len(), 1);
    assert!(m.get(&"five".to_string()).is_none());
}

use cutr::config::Config;
use cutr::config::ConfigError;
use cutr::line::strip_terminator;
use cutr::selector::parse_index;
use cutr::selector::resolve_selector;
use cutr::selector::split_selectors;

#[test]
fn parse_plain_number() {
    assert_eq!(parse_index("12"), Some(12));
}

#[test]
fn parse_leading_plus_and_zeros() {
    assert_eq!(parse_index("+7"), Some(7));
    assert_eq!(parse_index("007"), Some(7));
}

#[test]
fn parse_rejects_empty_zero_and_garbage() {
    assert_eq!(parse_index(""), None);
    assert_eq!(parse_index("+"), None);
    assert_eq!(parse_index("0"), None);
    assert_eq!(parse_index("000"), None);
    assert_eq!(parse_index("1a"), None);
    assert_eq!(parse_index("x"), None);
}

#[test]
fn parse_rejects_overflow() {
    assert_eq!(parse_index("99999999999999999999999999"), None);
}

#[test]
fn resolve_plain_range() {
    assert_eq!(resolve_selector("2-4", 9), Some((2, 4)));
}

#[test]
fn resolve_open_sides_default_to_boundaries() {
    assert_eq!(resolve_selector("-3", 5), Some((1, 3)));
    assert_eq!(resolve_selector("2-", 5), Some((2, 5)));
    assert_eq!(resolve_selector("-", 5), Some((1, 5)));
}

#[test]
fn resolve_single_index() {
    assert_eq!(resolve_selector("3", 5), Some((3, 3)));
}

#[test]
fn resolve_clamps_end() {
    assert_eq!(resolve_selector("2-100", 5), Some((2, 5)));
}

#[test]
fn resolve_start_past_count_is_empty() {
    assert_eq!(resolve_selector("7", 5), None);
    assert_eq!(resolve_selector("6-9", 5), None);
}

#[test]
fn resolve_reversed_range_is_empty() {
    assert_eq!(resolve_selector("4-2", 9), None);
}

#[test]
fn resolve_against_no_segments_is_empty() {
    assert_eq!(resolve_selector("1-", 0), None);
}

#[test]
fn resolve_malformed_sides_fall_back() {
    assert_eq!(resolve_selector("1-a", 7), Some((1, 7)));
    assert_eq!(resolve_selector("z-7", 9), Some((1, 7)));
    assert_eq!(resolve_selector("z", 9), Some((1, 1)));
}

#[test]
fn resolve_splits_at_first_dash_only() {
    // "2-3-9": the right side "3-9" does not parse and falls back to the
    // segment count.
    assert_eq!(resolve_selector("2-3-9", 5), Some((2, 5)));
}

#[test]
fn split_keeps_token_order() {
    let toks = split_selectors("1,3-5,8-");
    let toks: Vec<&str> = toks.iter().map(|t| t.as_str()).collect();
    assert_eq!(toks, vec!["1", "3-5", "8-"]);
}

#[test]
fn split_keeps_empty_tokens() {
    let toks = split_selectors(",,");
    let toks: Vec<&str> = toks.iter().map(|t| t.as_str()).collect();
    assert_eq!(toks, vec!["", "", ""]);
}

#[test]
fn config_requires_exactly_one_mode() {
    let none = Config::new(None, None, None, ',', None, false, false);
    assert_eq!(none.err(), Some(ConfigError::ModeSelection));
    let two = Config::new(
        Some("1".to_string()),
        None,
        Some("2".to_string()),
        ',',
        None,
        false,
        false,
    );
    assert_eq!(two.err(), Some(ConfigError::ModeSelection));
}

#[test]
fn config_rejects_empty_selector_list() {
    let empty = Config::new(None, None, Some(String::new()), ',', None, false, false);
    assert_eq!(empty.err(), Some(ConfigError::EmptySelectorList));
}

#[test]
fn config_delimiters_and_terminator() {
    let cfg = Config::new(None, None, Some("1".to_string()), ',', None, false, false).unwrap();
    assert_eq!(cfg.field_delim, b',');
    assert_eq!(cfg.out_delim, ",");
    assert_eq!(cfg.terminator, b'\n');
    let cfg = Config::new(None, None, Some("1".to_string()), ',', Some('|'), true, true).unwrap();
    assert_eq!(cfg.out_delim, "|");
    assert_eq!(cfg.terminator, 0u8);
    assert!(cfg.only_delimited);
}

#[test]
fn strip_removes_one_trailing_terminator() {
    let mut rec = b"ab\n".to_vec();
    strip_terminator(&mut rec, b'\n');
    assert_eq!(rec, b"ab");
}

#[test]
fn strip_leaves_unterminated_record() {
    let mut rec = b"ab".to_vec();
    strip_terminator(&mut rec, b'\n');
    assert_eq!(rec, b"ab");
    let mut empty: Vec<u8> = Vec::new();
    strip_terminator(&mut empty, b'\n');
    assert!(empty.is_empty());
}

#[test]
fn strip_respects_configured_terminator() {
    let mut rec = vec![b'a', 0u8];
    strip_terminator(&mut rec, 0u8);
    assert_eq!(rec, b"a");
}

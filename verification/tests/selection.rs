use cutr::config::Config;
use cutr::line::process_line;
use cutr::line::LineOutcome;

fn fields_cfg(sel: &str, delim: char, out: Option<char>, only: bool) -> Config {
    Config::new(None, None, Some(sel.to_string()), delim, out, only, false).unwrap()
}

fn chars_cfg(sel: &str) -> Config {
    Config::new(None, Some(sel.to_string()), None, '\t', None, false, false).unwrap()
}

fn bytes_cfg(sel: &str) -> Config {
    Config::new(Some(sel.to_string()), None, None, '\t', None, false, false).unwrap()
}

fn output_of(cfg: &Config, line: &[u8]) -> String {
    match process_line(cfg, &line.to_vec()) {
        LineOutcome::Output(s) => s,
        LineOutcome::Suppressed => panic!("line was suppressed"),
        LineOutcome::DecodeFailure => panic!("line failed to decode"),
    }
}

#[test]
fn fields_two_singles() {
    let cfg = fields_cfg("2,4", ',', None, false);
    assert_eq!(output_of(&cfg, b"a,b,c,d,e"), "b,d");
}

#[test]
fn fields_end_clamps_to_count() {
    let cfg = fields_cfg("3-100", ',', None, false);
    assert_eq!(output_of(&cfg, b"a,b,c,d,e"), "c,d,e");
}

#[test]
fn fields_start_past_count_is_empty() {
    let cfg = fields_cfg("10", ',', None, false);
    assert_eq!(output_of(&cfg, b"a,b,c"), "");
}

#[test]
fn fields_skipped_selector_places_no_delimiter() {
    let cfg = fields_cfg("10,1", ',', None, false);
    assert_eq!(output_of(&cfg, b"a,b,c"), "a");
}

#[test]
fn characters_prefix() {
    let cfg = chars_cfg("1-3");
    assert_eq!(output_of(&cfg, "hello".as_bytes()), "hel");
}

#[test]
fn characters_multibyte() {
    let cfg = chars_cfg("2");
    assert_eq!(output_of(&cfg, "h\u{e9}llo".as_bytes()), "\u{e9}");
}

#[test]
fn bytes_split_multibyte_character() {
    // The first byte of a two-byte encoded character renders as the
    // replacement character, not the full character.
    let cfg = bytes_cfg("1");
    assert_eq!(output_of(&cfg, "\u{e9}x".as_bytes()), "\u{fffd}");
}

#[test]
fn bytes_ascii_pass_through() {
    let cfg = bytes_cfg("1-2");
    assert_eq!(output_of(&cfg, b"ab"), "ab");
}

#[test]
fn only_delimited_suppresses_plain_line() {
    let cfg = fields_cfg("1", ',', None, true);
    match process_line(&cfg, &b"abc".to_vec()) {
        LineOutcome::Suppressed => {}
        _ => panic!("expected suppression"),
    }
}

#[test]
fn only_delimited_keeps_delimited_line() {
    let cfg = fields_cfg("2", ',', None, true);
    assert_eq!(output_of(&cfg, b"a,b"), "b");
}

#[test]
fn only_delimited_ignored_outside_fields_mode() {
    let cfg = Config::new(Some("1".to_string()), None, None, '\t', None, true, false).unwrap();
    assert_eq!(output_of(&cfg, b"abc"), "a");
}

#[test]
fn full_range_reproduces_fields() {
    let cfg = fields_cfg("1-", ',', None, false);
    assert_eq!(output_of(&cfg, b"a,b,c"), "a,b,c");
}

#[test]
fn full_range_reproduces_characters() {
    let cfg = chars_cfg("1-");
    assert_eq!(output_of(&cfg, "h\u{e9}llo".as_bytes()), "h\u{e9}llo");
}

#[test]
fn full_range_reproduces_bytes() {
    let cfg = bytes_cfg("1-");
    assert_eq!(output_of(&cfg, b"hi"), "hi");
}

#[test]
fn lenient_right_bound_matches_open_range() {
    let lenient = fields_cfg("1-a", ',', None, false);
    let open = fields_cfg("1-", ',', None, false);
    assert_eq!(output_of(&lenient, b"a,b,c,d"), output_of(&open, b"a,b,c,d"));
    assert_eq!(output_of(&lenient, b"a,b,c,d"), "a,b,c,d");
}

#[test]
fn lenient_left_bound_matches_one() {
    let lenient = fields_cfg("z-3", ',', None, false);
    let plain = fields_cfg("1-3", ',', None, false);
    assert_eq!(output_of(&lenient, b"a,b,c,d"), output_of(&plain, b"a,b,c,d"));
    assert_eq!(output_of(&lenient, b"a,b,c,d"), "a,b,c");
}

#[test]
fn zero_falls_back_to_first_segment() {
    let cfg = fields_cfg("0", ',', None, false);
    assert_eq!(output_of(&cfg, b"a,b,c"), "a");
}

#[test]
fn reversed_range_is_skipped() {
    let cfg = fields_cfg("3-2,1", ',', None, false);
    assert_eq!(output_of(&cfg, b"a,b,c"), "a");
}

#[test]
fn empty_tokens_select_first_segment() {
    let cfg = fields_cfg(",,", ',', None, false);
    assert_eq!(output_of(&cfg, b"a,b"), "a,a,a");
}

#[test]
fn output_delimiter_joins_within_and_between_ranges() {
    let cfg = fields_cfg("3-5,1", ',', Some('|'), false);
    assert_eq!(output_of(&cfg, b"a,b,c,d,e"), "c|d|e|a");
}

#[test]
fn adjacent_delimiters_give_empty_fields() {
    let cfg = fields_cfg("2", ',', None, false);
    assert_eq!(output_of(&cfg, b"a,,c"), "");
}

#[test]
fn decode_failure_in_characters_mode() {
    let cfg = chars_cfg("1");
    match process_line(&cfg, &vec![0x68u8, 0xffu8]) {
        LineOutcome::DecodeFailure => {}
        _ => panic!("expected a decode failure"),
    }
}

#[test]
fn malformed_field_renders_replacement_character() {
    let cfg = fields_cfg("2", ',', None, false);
    assert_eq!(output_of(&cfg, &[b'a', b',', 0xff]), "\u{fffd}");
}

#[test]
fn empty_line_in_fields_mode_has_one_empty_field() {
    let cfg = fields_cfg("1", ',', None, false);
    assert_eq!(output_of(&cfg, b""), "");
}

#[test]
fn empty_line_in_characters_mode_renders_empty() {
    let cfg = chars_cfg("1-");
    assert_eq!(output_of(&cfg, b""), "");
}

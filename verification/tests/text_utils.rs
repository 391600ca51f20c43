use advent::text::parse_i32;
use advent::text::parse_u32;
use advent::text::split_char;
use advent::text::split_lines;
use advent::text::split_ws;

#[test]
fn lines_split_at_line_feeds_and_trim_carriage_returns() {
    assert_eq!(split_lines("a\r\nb\n"), vec!["a", "b"]);
    assert_eq!(split_lines(""), Vec::<&str>::new());
    assert_eq!(split_lines("\n"), vec![""]);
    assert_eq!(split_lines("a\rb"), vec!["a\rb"]);
    assert_eq!(split_lines("x\r"), vec!["x\r"]);
}

#[test]
fn separators_make_one_more_piece() {
    assert_eq!(split_char("a;b;", ';'), vec!["a", "b", ""]);
    assert_eq!(split_char("", ';'), vec![""]);
}

#[test]
fn whitespace_runs_vanish_between_tokens() {
    assert_eq!(split_ws("  one\t two "), vec!["one", "two"]);
    assert_eq!(split_ws("   "), Vec::<&str>::new());
}

#[test]
fn integers_parse_exactly_at_their_bounds() {
    assert_eq!(parse_i32("-2147483648"), Some(i32::MIN));
    assert_eq!(parse_i32("2147483647"), Some(i32::MAX));
    assert_eq!(parse_i32("2147483648"), None);
    assert_eq!(parse_i32("+7"), Some(7));
    assert_eq!(parse_i32(""), None);
    assert_eq!(parse_i32("1a"), None);
    assert_eq!(parse_u32("4294967295"), Some(u32::MAX));
    assert_eq!(parse_u32("4294967296"), None);
    assert_eq!(parse_u32("007"), Some(7));
}

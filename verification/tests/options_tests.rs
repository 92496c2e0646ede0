use config_loader::default_file_contents;
use config_loader::parse_options;
use config_loader::split_lines;
use config_loader::strip_quotes;
use config_loader::ConfigError;

fn pairs(entries: &[(&str, &str)]) -> Vec<(String, String)> {
    entries.iter().map(|(n, v)| (n.to_string(), v.to_string())).collect()
}

#[test]
fn round_trip_single_quoted_entry() {
    let text = default_file_contents("key=\"value\"");
    assert_eq!(text, "key=\"value\"\n");
    assert_eq!(parse_options(&text).unwrap(), pairs(&[("key", "value")]));
}

#[test]
fn comment_lines_skipped_in_order() {
    let opts = parse_options("# comment\na=1\n# another\nb=2").unwrap();
    assert_eq!(opts, pairs(&[("a", "1"), ("b", "2")]));
}

#[test]
fn quote_stripping_is_symmetric_and_minimal() {
    assert_eq!(strip_quotes("\"hello\""), "hello");
    assert_eq!(strip_quotes("hello"), "hello");
    assert_eq!(strip_quotes("\"hello"), "hello");
    assert_eq!(strip_quotes("hello\""), "hello");
    assert_eq!(strip_quotes("\"\"hello\"\""), "hello");
    assert_eq!(strip_quotes("he\"llo"), "he\"llo");
    assert_eq!(strip_quotes("\""), "");
    assert_eq!(strip_quotes("\"\""), "");
    assert_eq!(strip_quotes(""), "");
}

#[test]
fn default_bootstrap_text_parses() {
    let text = default_file_contents("a=1\n");
    assert_eq!(text, "a=1\n\n");
    assert_eq!(parse_options(&text).unwrap(), pairs(&[("a", "1")]));
}

#[test]
fn empty_contents_yield_no_entries() {
    assert_eq!(parse_options("").unwrap(), pairs(&[]));
}

#[test]
fn malformed_line_is_reported() {
    assert_eq!(parse_options("justtext"), Err(ConfigError::MalformedLine));
    assert_eq!(parse_options("a=1\njusttext\nb=2"), Err(ConfigError::MalformedLine));
}

#[test]
fn comment_check_does_not_trim_whitespace() {
    assert_eq!(parse_options(" # note"), Err(ConfigError::MalformedLine));
}

#[test]
fn default_with_comment_and_quoted_mode() {
    let text = default_file_contents("#comment\nmode=\"fast\"\n");
    assert_eq!(text, "#comment\nmode=\"fast\"\n\n");
    assert_eq!(parse_options(&text).unwrap(), pairs(&[("mode", "fast")]));
}

#[test]
fn value_is_everything_after_first_equals() {
    assert_eq!(parse_options("a=b=c").unwrap(), pairs(&[("a", "b=c")]));
}

#[test]
fn crlf_line_endings_are_accepted() {
    let opts = parse_options("a=1\r\nb=2\r\n").unwrap();
    assert_eq!(opts, pairs(&[("a", "1"), ("b", "2")]));
}

#[test]
fn duplicate_names_kept_in_order() {
    let opts = parse_options("a=1\na=2").unwrap();
    assert_eq!(opts, pairs(&[("a", "1"), ("a", "2")]));
}

#[test]
fn empty_and_quote_only_values() {
    assert_eq!(parse_options("a=").unwrap(), pairs(&[("a", "")]));
    assert_eq!(parse_options("a=\"\"").unwrap(), pairs(&[("a", "")]));
    assert_eq!(parse_options("a=\"").unwrap(), pairs(&[("a", "")]));
}

#[test]
fn blank_lines_are_skipped() {
    assert_eq!(parse_options("\na=1\n\nb=2\n").unwrap(), pairs(&[("a", "1"), ("b", "2")]));
}

#[test]
fn comment_only_text_has_no_entries() {
    assert_eq!(parse_options("#justtext\n#").unwrap(), pairs(&[]));
}

#[test]
fn split_lines_matches_line_conventions() {
    assert_eq!(split_lines(""), Vec::<String>::new());
    assert_eq!(split_lines("a"), vec!["a".to_string()]);
    assert_eq!(split_lines("a\n"), vec!["a".to_string()]);
    assert_eq!(split_lines("a\nb"), vec!["a".to_string(), "b".to_string()]);
    assert_eq!(split_lines("a\r\nb"), vec!["a".to_string(), "b".to_string()]);
    assert_eq!(split_lines("a\rb\n"), vec!["a\rb".to_string()]);
    assert_eq!(split_lines("a\r"), vec!["a\r".to_string()]);
    assert_eq!(split_lines("\n\n"), vec!["".to_string(), "".to_string()]);
}

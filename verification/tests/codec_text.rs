use countdown_todo_core::codec;
use countdown_todo_core::model::TodoStatus;
use countdown_todo_core::text;

#[test]
fn round_trips_fields_with_special_characters() {
    let fields = vec![
        "plain".to_string(),
        "a,b".to_string(),
        "say \"hi\"".to_string(),
        "line1\nline2".to_string(),
        "".to_string(),
    ];
    let row = codec::csv_row(&fields);
    let back = codec::parse_csv_line(row.as_str()).expect("row should parse");
    assert_eq!(back, fields);
}

#[test]
fn escapes_special_fields_exactly() {
    assert_eq!(codec::csv_escape("plain"), "plain");
    assert_eq!(codec::csv_escape("a,b"), "\"a,b\"");
    assert_eq!(codec::csv_escape("say \"hi\""), "\"say \"\"hi\"\"\"");
    assert_eq!(codec::csv_escape("line1\nline2"), "\"line1\nline2\"");
}

#[test]
fn splits_quoted_newlines_as_content() {
    let records = codec::split_csv_records("a,\"x\ny\"\nb,c\n").expect("block should split");
    assert_eq!(records, vec!["a,\"x\ny\"".to_string(), "b,c".to_string()]);
}

#[test]
fn reports_unclosed_quotes() {
    let error = codec::parse_csv_line("\"open").expect_err("line should fail");
    assert_eq!(error.message(), "internal error: unclosed quote in csv line");
    let error = codec::split_csv_records("a,\"open\n").expect_err("block should fail");
    assert_eq!(error.message(), "internal error: unclosed quote in csv line");
}

#[test]
fn parses_and_renders_signed_minutes() {
    assert_eq!(text::parse_i64_str("-42"), Some(-42));
    assert_eq!(text::parse_i64_str("+7"), Some(7));
    assert_eq!(text::parse_i64_str("007"), Some(7));
    assert_eq!(text::parse_i64_str(""), None);
    assert_eq!(text::parse_i64_str("1a"), None);
    assert_eq!(text::parse_i64_str("-"), None);
    assert_eq!(text::parse_i64_str("9223372036854775807"), Some(i64::MAX));
    assert_eq!(text::parse_i64_str("9223372036854775808"), None);
    assert_eq!(text::parse_i64_str("-9223372036854775808"), Some(i64::MIN));
    assert_eq!(text::parse_i64_str("-9223372036854775809"), None);
    assert_eq!(text::i64_to_string(0), "0");
    assert_eq!(text::i64_to_string(-305), "-305");
    assert_eq!(text::i64_to_string(i64::MIN), "-9223372036854775808");
}

#[test]
fn trims_unicode_white_space() {
    assert_eq!(text::trim_str("  phase one\t"), "phase one");
    assert_eq!(text::trim_str("\u{3000}wide\u{2028}"), "wide");
    assert_eq!(text::trim_str("   "), "");
}

#[test]
fn maps_status_tokens_both_ways() {
    assert_eq!(TodoStatus::from_str("open"), Some(TodoStatus::Open));
    assert_eq!(TodoStatus::from_str("done"), Some(TodoStatus::Done));
    assert_eq!(TodoStatus::from_str("paused"), None);
    assert_eq!(TodoStatus::Open.as_str(), "open");
    assert_eq!(TodoStatus::Done.as_str(), "done");
}

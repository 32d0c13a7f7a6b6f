use exa_pool::logger::format_log_line;
use exa_pool::logger::json_escape;
use exa_pool::logger::needs_rotation;
use exa_pool::logger::u64_to_dec;
use exa_pool::output::ContentsConfig;
use exa_pool::output::build_contents;
use exa_pool::output::get_max_chars;
use exa_pool::output::parse_fields;
use exa_pool::output::show_field;
use exa_pool::output::truncate_text;

#[test]
fn decimal_rendering_is_exact() {
    assert_eq!(u64_to_dec(0), "0");
    assert_eq!(u64_to_dec(7), "7");
    assert_eq!(u64_to_dec(42), "42");
    assert_eq!(u64_to_dec(1234567890), "1234567890");
    assert_eq!(u64_to_dec(u64::MAX), "18446744073709551615");
}

#[test]
fn json_escaping_covers_quotes_and_backslashes() {
    assert_eq!(json_escape("plain"), "plain");
    assert_eq!(json_escape("a\"b"), "a\\\"b");
    assert_eq!(json_escape("a\\b"), "a\\\\b");
    assert_eq!(json_escape("a\nb\tc\rd"), "a\\nb\\tc\\rd");
}

#[test]
fn log_line_is_one_json_object() {
    let line = format_log_line(1700000000, "...abc", "findSimilar", 429);
    assert_eq!(
        line,
        "{\"ts\":1700000000,\"key\":\"...abc\",\"cmd\":\"findSimilar\",\"status\":429}"
    );
}

#[test]
fn rotation_threshold_is_five_mebibytes() {
    assert!(!needs_rotation(5 * 1024 * 1024 - 1));
    assert!(needs_rotation(5 * 1024 * 1024));
    assert!(needs_rotation(u64::MAX));
}

#[test]
fn max_chars_defaults_depend_on_compact() {
    assert_eq!(get_max_chars(None, true), 300);
    assert_eq!(get_max_chars(None, false), 500);
    assert_eq!(get_max_chars(Some(120), true), 120);
    assert_eq!(get_max_chars(Some(120), false), 120);
}

#[test]
fn short_text_is_untouched() {
    assert_eq!(truncate_text("Short.", 100), "Short.");
    assert_eq!(truncate_text("", 5), "");
}

#[test]
fn truncation_prefers_sentence_boundaries() {
    // Window "Hello there. General": the ". " keeps the punctuation.
    assert_eq!(
        truncate_text("Hello there. General Kenobi you are bold", 20),
        "Hello there...."
    );
    assert_eq!(
        truncate_text("Is it you? I was not sure at all", 14),
        "Is it you?..."
    );
}

#[test]
fn truncation_falls_back_to_word_boundary() {
    assert_eq!(truncate_text("hello world foo", 13), "hello world...");
}

#[test]
fn truncation_falls_back_to_hard_cut() {
    assert_eq!(truncate_text("abcdefghij", 5), "abcde...");
}

#[test]
fn field_list_is_split_trimmed_and_lowercased() {
    let fields = parse_fields(&Some("Title, URL ,date".to_string()));
    assert_eq!(
        fields,
        Some(vec!["title".to_string(), "url".to_string(), "date".to_string()])
    );
    assert_eq!(parse_fields(&None), None);
}

#[test]
fn fields_filter_shows_only_listed_names() {
    let fields = parse_fields(&Some("title,url".to_string()));
    assert!(show_field(&fields, "title"));
    assert!(show_field(&fields, "url"));
    assert!(!show_field(&fields, "content"));
    assert!(show_field(&None, "content"));
}

#[test]
fn contents_config_prefers_highlights() {
    let verbosity = Some("compact".to_string());
    assert_eq!(
        build_contents(true, Some(2000), &verbosity),
        Some(ContentsConfig { text: None, highlights: Some(2000), verbosity: verbosity.clone() })
    );
    assert_eq!(
        build_contents(true, None, &None),
        Some(ContentsConfig { text: Some(true), highlights: None, verbosity: None })
    );
    assert_eq!(build_contents(false, None, &None), None);
}

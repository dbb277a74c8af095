use newsletter_archive::search::{sanitize_fts_query, search_plan};

#[test]
fn test_sanitize_basic() {
    assert_eq!(sanitize_fts_query("hello world"), "hello world*");
}

#[test]
fn test_sanitize_single_word() {
    assert_eq!(sanitize_fts_query("test"), "test*");
}

#[test]
fn test_sanitize_empty() {
    assert_eq!(sanitize_fts_query(""), "");
    assert_eq!(sanitize_fts_query("   "), "");
}

#[test]
fn test_sanitize_special_chars() {
    assert_eq!(sanitize_fts_query("hello (world)"), "hello world*");
}

#[test]
fn test_passthrough_quotes() {
    assert_eq!(sanitize_fts_query("\"exact phrase\""), "\"exact phrase\"");
}

#[test]
fn operators_pass_through_trimmed() {
    assert_eq!(sanitize_fts_query("  rust OR go "), "rust OR go");
    assert_eq!(sanitize_fts_query("rust NOT go"), "rust NOT go");
    // Lower-case words are not operators.
    assert_eq!(sanitize_fts_query("rust or go"), "rust or go*");
}

#[test]
fn words_made_only_of_special_chars_are_dropped() {
    assert_eq!(sanitize_fts_query("(( -- **"), "");
    assert_eq!(sanitize_fts_query("a -- b"), "a b*");
    assert_eq!(sanitize_fts_query("\tasync/await\n  tokio:rt "), "async/await tokiort*");
}

#[test]
fn search_plan_uses_default_limit_and_skips_empty_queries() {
    assert_eq!(search_plan("rust", None), Some(("rust*".to_string(), 50)));
    assert_eq!(search_plan("rust", Some(5)), Some(("rust*".to_string(), 5)));
    assert_eq!(search_plan("   ", Some(5)), None);
    assert_eq!(search_plan("()", None), None);
}

#[test]
fn sanitized_queries_are_fixed_points() {
    for input in ["hello world", "  test ", "hello (world)", "\"exact phrase\"", "a OR b", "-OR x", "***", "", "caf\u{e9} na\u{ef}ve:"] {
        let once = sanitize_fts_query(input);
        assert_eq!(sanitize_fts_query(&once), once, "input {:?}", input);
    }
    assert_eq!(sanitize_fts_query("a -OR b"), "a OR b*");
    assert_eq!(sanitize_fts_query("a OR b*"), "a OR b*");
}

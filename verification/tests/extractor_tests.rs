use rss_ai::extract::{
    compute_content_hash, count_words, has_boilerplate_keyword, is_potentially_incomplete,
    normalize_whitespace, strip_by_prefix, truncate_utf8,
};

#[test]
fn truncates_content_by_max_bytes() {
    let text = "hello wonderful world";
    let truncated = truncate_utf8(text, 8);
    assert_eq!(truncated, "hello wo");
}

#[test]
fn content_hash_is_stable_for_equivalent_whitespace() {
    let first = compute_content_hash("Hello   world\nfrom   RSS-AI");
    let second = compute_content_hash("Hello world from RSS-AI");
    assert_eq!(first, second);
}

#[test]
fn content_hash_is_sha256_hex() {
    // SHA-256 of the empty string.
    assert_eq!(
        compute_content_hash("   "),
        "e3b0c44298fc1c149afbf4c8996fb92427ae41e4649b934ca495991b7852b855"
    );
    // SHA-256 of "abc".
    assert_eq!(
        compute_content_hash(" abc "),
        "ba7816bf8f01cfea414140de5dae2223b00361a396177a9cb410ff61f20015ad"
    );
}

#[test]
fn normalize_whitespace_collapses_and_trims() {
    assert_eq!(normalize_whitespace("  a \t\n b  c "), "a b c");
    assert_eq!(normalize_whitespace(""), "");
    assert_eq!(normalize_whitespace(" \u{3000} "), "");
    assert_eq!(normalize_whitespace("x\u{a0}\u{a0}y"), "x y");
}

#[test]
fn count_words_splits_on_whitespace() {
    assert_eq!(count_words(""), 0);
    assert_eq!(count_words("   "), 0);
    assert_eq!(count_words("one"), 1);
    assert_eq!(count_words(" one  two\tthree\n"), 3);
}

#[test]
fn truncate_utf8_keeps_whole_characters() {
    assert_eq!(truncate_utf8("héllo", 2), "h");
    assert_eq!(truncate_utf8("héllo", 3), "hé");
    assert_eq!(truncate_utf8("short", 100), "short");
    assert_eq!(truncate_utf8("é", 1), "");
}

#[test]
fn strip_by_prefix_removes_byline_words() {
    assert_eq!(strip_by_prefix("  By Jane Doe "), "Jane Doe");
    assert_eq!(strip_by_prefix("by John"), "John");
    assert_eq!(strip_by_prefix("By By Someone"), "Someone");
    assert_eq!(strip_by_prefix("Bylines Inc"), "Bylines Inc");
}

#[test]
fn boilerplate_keywords_match_case_insensitively() {
    assert!(has_boilerplate_keyword(Some("Main-NAV")));
    assert!(has_boilerplate_keyword(Some("ad-banner")));
    assert!(has_boilerplate_keyword(Some("comments-section")));
    assert!(!has_boilerplate_keyword(Some("article-body")));
    assert!(!has_boilerplate_keyword(None));
}

#[test]
fn paywall_with_short_text_is_incomplete() {
    assert!(is_potentially_incomplete(
        "<p>Subscribe to continue reading</p>",
        "A short teaser."
    ));
    assert!(!is_potentially_incomplete("<p>Free article</p>", "A short teaser."));
    let long_text = "word ".repeat(300);
    assert!(!is_potentially_incomplete("<div>PAYWALL</div>", &long_text));
}

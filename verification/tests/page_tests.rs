use rss_ai::extract::{finish_extraction, is_html_document, parse_datetime, PageParts};

#[test]
fn parses_rfc3339_dates_after_trimming() {
    assert_eq!(parse_datetime("  2024-03-01T09:30:15+00:00 "), Some((1_709_285_415, 0)));
    assert_eq!(
        parse_datetime("2024-03-01T09:30:15.250+01:00"),
        Some((1_709_281_815, 250_000_000))
    );
}

#[test]
fn parses_rfc2822_dates() {
    assert_eq!(parse_datetime("Fri, 01 Mar 2024 09:30:15 GMT"), Some((1_709_285_415, 0)));
}

#[test]
fn parses_naive_date_times_as_utc() {
    assert_eq!(parse_datetime("2024-03-01 09:30:15"), Some((1_709_285_415, 0)));
    assert_eq!(parse_datetime("2024-03-01T09:30:15"), Some((1_709_285_415, 0)));
    assert_eq!(parse_datetime("2024-03-01 09:30"), Some((1_709_285_400, 0)));
}

#[test]
fn parses_plain_dates_at_midnight() {
    assert_eq!(parse_datetime("2024-03-01"), Some((1_709_251_200, 0)));
    assert_eq!(parse_datetime("October 05, 2023"), Some((1_696_464_000, 0)));
    assert_eq!(parse_datetime("Oct 05, 2023"), Some((1_696_464_000, 0)));
}

#[test]
fn unreadable_dates_are_none() {
    assert_eq!(parse_datetime("yesterday"), None);
    assert_eq!(parse_datetime(""), None);
}

#[test]
fn html_is_recognised_by_type_or_markup() {
    assert!(is_html_document("text/html; charset=utf-8", ""));
    assert!(is_html_document("application/xhtml+xml", ""));
    assert!(is_html_document("", "<body><p>x</p></body>"));
    assert!(is_html_document("text/plain", "<article>x</article>"));
    assert!(!is_html_document("application/json", "{\"a\": 1}"));
    assert!(is_html_document("Text/HTML; Charset=UTF-8", ""));
}

#[test]
fn extract_content_handles_non_html() {
    let r = finish_extraction("  Hello   world \n again ", None, 1000);
    assert_eq!(r.text, "Hello world again");
    assert_eq!(r.word_count, 3);
    assert_eq!(
        r.content_hash,
        "ed022f9f93a9cefeaf3fb9519cf5c62ec44ed57a096cea04262c040d7e792073"
    );
    assert!(r.title.is_none());
    assert!(r.author.is_none());
    assert!(r.published_at.is_none());
    assert!(!r.potentially_incomplete);
}

#[test]
fn extract_content_truncates_output_by_config_limit() {
    let r = finish_extraction("Hello world again", None, 5);
    assert_eq!(r.text, "Hello");
    assert_eq!(r.word_count, 1);
    assert_eq!(
        r.content_hash,
        "185f8db32271fe25f561a6fc938b2e264306ec304eda518007d1764826381969"
    );
}

#[test]
fn html_parts_are_kept() {
    let parts = PageParts {
        text: "# Title\n\nBody   text".to_string(),
        title: Some("Title".to_string()),
        author: Some("Jane".to_string()),
        published_at: Some((1_709_285_415, 0)),
    };
    let r = finish_extraction("<html><body>...</body></html>", Some(parts), 1000);
    assert_eq!(r.text, "# Title Body text");
    assert_eq!(r.title.as_deref(), Some("Title"));
    assert_eq!(r.author.as_deref(), Some("Jane"));
    assert_eq!(r.published_at, Some((1_709_285_415, 0)));
    assert_eq!(r.word_count, 4);
}

#[test]
fn extract_content_marks_paywalled_pages_as_potentially_incomplete() {
    let parts = PageParts {
        text: "Only a teaser.".to_string(),
        title: None,
        author: None,
        published_at: None,
    };
    let r = finish_extraction("<html>Subscribe now to keep reading</html>", Some(parts), 1000);
    assert!(r.potentially_incomplete);
}

use std::borrow::Cow;

use rss_ai::embeddings::{prepare_article_text, prepare_input};

#[test]
fn prepare_article_text_with_content() {
    assert_eq!(
        prepare_article_text("Title", Some("Content")),
        "Title\n\nContent"
    );
}

#[test]
fn prepare_article_text_no_content() {
    assert_eq!(prepare_article_text("Title", None), "Title");
    assert_eq!(prepare_article_text("Title", Some("")), "Title");
}

#[test]
fn prepare_article_text_strips_null_bytes() {
    let text = prepare_article_text("Hello\0World", Some("foo\0bar"));
    assert!(!text.contains('\0'));
    assert_eq!(text, "HelloWorld\n\nfoobar");
}

#[test]
fn prepare_input_no_truncation_borrows() {
    let text = "hello world";
    let result = prepare_input(text, 100);
    assert!(matches!(result, Cow::Borrowed(_)));
    assert_eq!(&*result, "hello world");
}

#[test]
fn prepare_input_truncates() {
    assert_eq!(&*prepare_input("hello world", 5), "hello");
}

#[test]
fn prepare_input_respects_char_boundaries() {
    let text = "héllo"; // é is 2 bytes
    let result = prepare_input(text, 2);
    // Should truncate to "h" (1 byte) rather than splitting the é
    assert_eq!(&*result, "h");
}

#[test]
fn prepare_article_text_keeps_tabs_and_carriage_returns() {
    assert_eq!(
        prepare_article_text("A\tB\u{7}", Some("x\r\ny\u{1b}")),
        "A\tB\n\nx\r\ny"
    );
}

#[test]
fn prepare_input_exact_fit_borrows() {
    let result = prepare_input("abc", 3);
    assert!(matches!(result, Cow::Borrowed(_)));
    let cut = prepare_input("abc", 0);
    assert!(matches!(cut, Cow::Owned(_)));
    assert_eq!(&*cut, "");
}

#[test]
fn prepare_input_multibyte_at_limit() {
    // "日本" is 6 bytes; a limit of 5 keeps only the first character.
    assert_eq!(&*prepare_input("日本", 5), "日");
    assert_eq!(&*prepare_input("日本", 3), "日");
    assert_eq!(&*prepare_input("日本", 2), "");
}

use rss_ai::search::{
    document_fields, newest_first, parse_index_timestamp, select_hits, snippet_terms, top_n,
    ArticleIndexData, HitFacts, PostFilter,
};
use rss_ai::snippet::{find_bytes, generate_snippet};

fn hit(ts: Option<i64>, feed: &str) -> HitFacts {
    HitFacts { published_ts: ts, feed_title: feed.to_string() }
}

fn no_filter(offset: usize, limit: usize) -> PostFilter {
    PostFilter { date_from: None, date_to: None, feed_filter: None, offset, limit }
}

#[test]
fn top_n_overfetches_only_with_post_filters() {
    assert_eq!(top_n(&no_filter(5, 20)), 25);
    let mut f = no_filter(5, 20);
    f.date_from = Some(0);
    assert_eq!(top_n(&f), 75);
    let mut g = no_filter(0, 10);
    g.feed_filter = Some(vec!["Blog".to_string()]);
    assert_eq!(top_n(&g), 30);
}

#[test]
fn date_range_filter_keeps_newer_hits() {
    let hits = vec![hit(Some(1_705_320_000), "Blog"), hit(Some(1_749_988_800), "Blog")];
    let mut f = no_filter(0, 20);
    f.date_from = Some(1_735_689_600);
    assert_eq!(select_hits(&hits, &f), vec![1]);
}

#[test]
fn undated_hits_fail_any_date_bound() {
    let hits = vec![hit(None, "Blog"), hit(Some(100), "Blog")];
    let mut f = no_filter(0, 20);
    f.date_to = Some(200);
    assert_eq!(select_hits(&hits, &f), vec![1]);
    assert_eq!(select_hits(&hits, &no_filter(0, 20)), vec![0, 1]);
}

#[test]
fn feed_filter_offset_and_limit() {
    let hits = vec![
        hit(Some(1), "A"),
        hit(Some(2), "B"),
        hit(Some(3), "A"),
        hit(Some(4), "A"),
        hit(Some(5), "A"),
    ];
    let mut f = no_filter(1, 2);
    f.feed_filter = Some(vec!["A".to_string()]);
    assert_eq!(select_hits(&hits, &f), vec![2, 3]);
}

#[test]
fn zero_limit_still_takes_one_hit() {
    let hits = vec![hit(Some(1), "A"), hit(Some(2), "A")];
    assert_eq!(select_hits(&hits, &no_filter(0, 0)), vec![0]);
}

#[test]
fn snippet_terms_drop_operators_and_quotes() {
    assert_eq!(
        snippet_terms("Rust AND \"borrow checker\" OR not Safety"),
        vec!["rust".to_string(), "borrow".to_string(), "checker".to_string(), "safety".to_string()]
    );
    assert_eq!(snippet_terms("  \"\"  and  "), Vec::<String>::new());
}

#[test]
fn test_search_results_include_snippets() {
    let content = "Rust provides memory safety without garbage collection. The borrow checker ensures references are always valid. This makes Rust unique among systems languages.";
    let terms = snippet_terms("borrow checker");
    let snippet = generate_snippet(content, &terms).unwrap();
    assert!(!snippet.is_empty());
    assert_eq!(
        snippet,
        "...borrow checker ensures references are always valid. This makes Rust unique among systems languages."
    );
}

#[test]
fn snippet_window_is_cut_at_word_ends() {
    let words: Vec<String> = (0..100).map(|i| format!("word{i}")).collect();
    let content = words.join(" ");
    let snippet = generate_snippet(&content, &["word50".to_string()]).unwrap();
    assert_eq!(
        snippet,
        "...word50 word51 word52 word53 word54 word55 word56 word57 word58 word59 word60 word61 word62 word63 word64 word65 word66 word67 word68 word69 word70 word71 word72 word73 word74 word75 word76 word77 word78..."
    );
}

#[test]
fn snippet_without_match_starts_at_the_text() {
    assert_eq!(generate_snippet("short text here", &["missing".to_string()]).unwrap(), "short text here");
}

#[test]
fn snippet_without_space_backs_off_forty_bytes() {
    let content = format!("{}target", "y".repeat(100));
    assert_eq!(
        generate_snippet(&content, &["target".to_string()]).unwrap(),
        format!("...{}target", "y".repeat(40))
    );
    let content = format!("{} target and more", "x".repeat(60));
    assert_eq!(generate_snippet(&content, &["target".to_string()]).unwrap(), "...target and more");
}

#[test]
fn snippet_refuses_to_split_characters() {
    let content = format!("{}atarget", "é".repeat(60));
    assert_eq!(generate_snippet(&content, &["target".to_string()]), None);
    let content = format!("a{}", "é".repeat(1500));
    assert_eq!(generate_snippet(&content, &[]), None);
}

#[test]
fn byte_search_finds_first_occurrence() {
    assert_eq!(find_bytes(b"abcabc", b"ca"), Some(2));
    assert_eq!(find_bytes(b"abc", b"abcd"), None);
    assert_eq!(find_bytes(b"abc", b""), Some(0));
}

#[test]
fn index_timestamps_from_stored_dates() {
    assert_eq!(parse_index_timestamp("2025-06-15T12:00:00+00:00"), Some(1_749_988_800));
    assert_eq!(parse_index_timestamp("2025-06-15 12:00:00"), Some(1_749_988_800));
    assert_eq!(parse_index_timestamp("2025-06-15"), Some(1_749_945_600));
    assert_eq!(parse_index_timestamp("June 15, 2025"), None);
}

#[test]
fn document_fields_fill_absent_texts() {
    let tags = vec!["programming".to_string(), "rust".to_string()];
    let data = ArticleIndexData {
        article_id: 1,
        title: "Rust Programming Language",
        content: Some("Rust is a systems programming language."),
        summary: None,
        author: Some("Jane Doe"),
        tags: &tags,
        feed_title: None,
        published_at: Some("2025-06-15T12:00:00+00:00"),
    };
    let d = document_fields(&data);
    assert_eq!(d.article_id, 1);
    assert_eq!(d.title, "Rust Programming Language");
    assert_eq!(d.content, "Rust is a systems programming language.");
    assert_eq!(d.summary, "");
    assert_eq!(d.author, "Jane Doe");
    assert_eq!(d.tags, "programming rust");
    assert_eq!(d.feed_title, "");
    assert_eq!(d.published_at, Some(1_749_988_800));
}

#[test]
fn newest_first_is_a_stable_descending_order() {
    let dates = vec![
        Some("2025-01-01T00:00:00+00:00".to_string()),
        None,
        Some("2025-06-15T12:00:00+00:00".to_string()),
        Some("2025-01-01T00:00:00+00:00".to_string()),
        None,
    ];
    assert_eq!(newest_first(&dates), vec![2, 0, 3, 1, 4]);
    assert_eq!(newest_first(&[]), Vec::<usize>::new());
}

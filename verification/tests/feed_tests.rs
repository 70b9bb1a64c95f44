use rss_ai::feed::{
    classify_response, entry_to_new_article, feed_may_be_dead, site_url, strip_html_tags,
    EntryData, FeedLink, FetchDecision, FetchOutcome, FetchSummary,
};

#[test]
fn strip_html_tags_works() {
    assert_eq!(
        strip_html_tags("This has <b>bold</b> and <script>alert('xss')</script> text."),
        "This has bold and alert('xss') text."
    );
    assert_eq!(strip_html_tags("no tags"), "no tags");
    assert_eq!(strip_html_tags(""), "");
}

fn entry() -> EntryData {
    EntryData {
        id: "urn:1".to_string(),
        link_hrefs: vec![
            "https://example.com/articles/nato-summit-2024".to_string(),
            "https://example.com/other".to_string(),
        ],
        title: Some("NATO Summit Addresses Eastern European Security Concerns".to_string()),
        author_names: vec!["Jane Doe".to_string()],
        published: None,
        updated: Some("2024-01-01T10:00:00+00:00".to_string()),
        summary: Some("<p>Leaders <em>met</em>.</p>".to_string()),
    }
}

#[test]
fn entry_to_new_article_fields() {
    let a = entry_to_new_article(1, &entry());
    assert_eq!(a.feed_id, 1);
    assert_eq!(a.url, "https://example.com/articles/nato-summit-2024");
    assert_eq!(a.guid.as_deref(), Some("urn:1"));
    assert_eq!(a.title, "NATO Summit Addresses Eastern European Security Concerns");
    assert_eq!(a.author.as_deref(), Some("Jane Doe"));
    assert_eq!(a.published_at.as_deref(), Some("2024-01-01T10:00:00+00:00"));
    assert_eq!(a.summary.as_deref(), Some("Leaders met."));
    assert!(a.content.is_none());
}

#[test]
fn entry_to_new_article_missing_title() {
    let mut e = entry();
    e.title = None;
    e.link_hrefs.clear();
    e.id = String::new();
    let a = entry_to_new_article(7, &e);
    assert_eq!(a.title, "(untitled)");
    assert_eq!(a.url, "");
    assert!(a.guid.is_none());
}

#[test]
fn site_url_skips_self_links() {
    let links = vec![
        FeedLink { href: "https://example.com/feed.xml".into(), rel: Some("self".into()) },
        FeedLink { href: "https://example.com/".into(), rel: Some("alternate".into()) },
    ];
    assert_eq!(site_url(&links).as_deref(), Some("https://example.com/"));
    assert_eq!(site_url(&links[..1]), None);
}

#[test]
fn classify_response_statuses() {
    assert_eq!(classify_response(304, None, "u", "u"), FetchDecision::NotModified);
    assert_eq!(
        classify_response(429, Some("120"), "u", "u"),
        FetchDecision::RateLimited { retry_after_secs: 120 }
    );
    assert_eq!(
        classify_response(503, Some("soon"), "u", "u"),
        FetchDecision::RateLimited { retry_after_secs: 60 }
    );
    assert_eq!(
        classify_response(500, None, "u", "u"),
        FetchDecision::Failed { status: 500, moved_to: None }
    );
    assert_eq!(
        classify_response(200, None, "https://new/feed", "https://old/feed"),
        FetchDecision::Parse { moved_to: Some("https://new/feed".to_string()) }
    );
}

#[test]
fn summary_counts_outcomes() {
    let mut s = FetchSummary::new();
    s.record(FetchOutcome::Fetched { new_articles: 5 });
    s.record(FetchOutcome::NotModified);
    s.record(FetchOutcome::Failed { feed_id: 3, message: "boom".into() });
    s.record(FetchOutcome::Aborted);
    assert_eq!(s.feeds_fetched, 1);
    assert_eq!(s.feeds_not_modified, 1);
    assert_eq!(s.feeds_errored, 2);
    assert_eq!(s.new_articles_total, 5);
    assert_eq!(s.errors, vec![(3, "boom".to_string())]);
}

#[test]
fn dead_feed_threshold() {
    assert!(!feed_may_be_dead(8));
    assert!(feed_may_be_dead(9));
}

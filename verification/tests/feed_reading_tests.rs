use rss_ai::feed::{
    classify_response, decision_error, read_feed, summarize, FeedError, FetchOutcome,
};

const RSS: &str = r#"<?xml version="1.0" encoding="UTF-8"?>
<rss version="2.0">
  <channel>
    <title>Global Affairs Daily</title>
    <link>https://example.com</link>
    <description>World news</description>
    <item>
      <title>NATO Summit Addresses Eastern European Security Concerns</title>
      <link>https://example.com/articles/nato-summit-2024</link>
      <guid>nato-2024</guid>
      <pubDate>Fri, 01 Mar 2024 09:30:15 GMT</pubDate>
      <description>&lt;p&gt;Leaders &lt;b&gt;met&lt;/b&gt; today.&lt;/p&gt;</description>
    </item>
    <item>
      <link>https://example.com/articles/no-title</link>
      <guid>untitled-1</guid>
    </item>
  </channel>
</rss>"#;

#[test]
fn parse_rss_valid() {
    let content = match read_feed(1, "https://example.com/rss", RSS.as_bytes()) {
        Ok(c) => c,
        Err(_) => panic!("feed should parse"),
    };
    assert_eq!(content.title.as_deref(), Some("Global Affairs Daily"));
    assert_eq!(content.description.as_deref(), Some("World news"));
    assert_eq!(content.site_url.as_deref(), Some("https://example.com/"));
    assert_eq!(content.articles.len(), 2);
}

#[test]
fn entry_to_new_article_rss() {
    let content = match read_feed(1, "https://example.com/rss", RSS.as_bytes()) {
        Ok(c) => c,
        Err(_) => panic!("feed should parse"),
    };
    let article = &content.articles[0];
    assert_eq!(article.feed_id, 1);
    assert_eq!(article.title, "NATO Summit Addresses Eastern European Security Concerns");
    assert_eq!(article.url, "https://example.com/articles/nato-summit-2024");
    assert_eq!(article.guid.as_deref(), Some("nato-2024"));
    assert_eq!(article.published_at.as_deref(), Some("2024-03-01T09:30:15+00:00"));
    assert_eq!(article.summary.as_deref(), Some("Leaders met today."));
    assert!(article.content.is_none());
}

#[test]
fn entry_without_title_is_untitled() {
    let content = match read_feed(7, "https://example.com/rss", RSS.as_bytes()) {
        Ok(c) => c,
        Err(_) => panic!("feed should parse"),
    };
    let article = &content.articles[1];
    assert_eq!(article.title, "(untitled)");
    assert_eq!(article.url, "https://example.com/articles/no-title");
    assert_eq!(article.feed_id, 7);
}

#[test]
fn parse_rss_empty() {
    let xml = r#"<?xml version="1.0"?><rss version="2.0"><channel><title>Empty</title></channel></rss>"#;
    let content = match read_feed(1, "https://example.com/rss", xml.as_bytes()) {
        Ok(c) => c,
        Err(_) => panic!("feed should parse"),
    };
    assert!(content.articles.is_empty());
    assert!(content.site_url.is_none());
}

#[test]
fn unparseable_body_names_the_feed() {
    match read_feed(1, "https://example.com/rss", b"this is not a feed") {
        Err(FeedError::Parse(msg)) => assert!(msg.starts_with("https://example.com/rss: ")),
        _ => panic!("expected a parse error"),
    }
}

#[test]
fn atom_site_url_skips_self_link() {
    let xml = r#"<?xml version="1.0"?>
<feed xmlns="http://www.w3.org/2005/Atom">
  <title>Atom Title</title>
  <subtitle>Atom Subtitle</subtitle>
  <link rel="self" href="https://ex.com/feed.xml"/>
  <link rel="alternate" href="https://ex.com/"/>
  <id>urn:feed</id>
</feed>"#;
    let content = match read_feed(2, "https://ex.com/feed.xml", xml.as_bytes()) {
        Ok(c) => c,
        Err(_) => panic!("feed should parse"),
    };
    assert_eq!(content.title.as_deref(), Some("Atom Title"));
    assert_eq!(content.description.as_deref(), Some("Atom Subtitle"));
    assert_eq!(content.site_url.as_deref(), Some("https://ex.com/"));
    assert!(content.articles.is_empty());
}

#[test]
fn unparseable_body_carries_the_parser_message() {
    let body: &[u8] = b"{ not json at all";
    let expected = feed_rs::parser::parse(body).unwrap_err().to_string();
    match read_feed(3, "https://example.com/feed.json", body) {
        Err(FeedError::Parse(msg)) => {
            assert_eq!(msg, format!("https://example.com/feed.json: {}", expected))
        }
        _ => panic!("expected a parse error"),
    }
}

#[test]
fn fetch_feed_429_rate_limited() {
    let d = classify_response(429, Some("120"), "https://x/rss", "https://x/rss");
    match decision_error("https://x/rss", &d) {
        Some(FeedError::RateLimited { retry_after_secs }) => assert_eq!(retry_after_secs, 120),
        _ => panic!("expected RateLimited"),
    }
    let d = classify_response(503, Some("soon"), "https://x/rss", "https://x/rss");
    match decision_error("https://x/rss", &d) {
        Some(FeedError::RateLimited { retry_after_secs }) => assert_eq!(retry_after_secs, 60),
        _ => panic!("expected RateLimited"),
    }
}

#[test]
fn fetch_feed_404_error() {
    let d = classify_response(404, None, "https://x/rss", "https://x/rss");
    match decision_error("https://x/rss", &d) {
        Some(FeedError::HttpStatus { url, status }) => {
            assert_eq!(url, "https://x/rss");
            assert_eq!(status, 404);
        }
        _ => panic!("expected HttpStatus"),
    }
    let ok = classify_response(200, None, "https://x/rss", "https://x/rss");
    assert!(decision_error("https://x/rss", &ok).is_none());
}

#[test]
fn fetch_all_feeds_isolates_errors() {
    let s = summarize(vec![
        FetchOutcome::Fetched { new_articles: 3 },
        FetchOutcome::Failed { feed_id: 2, message: "boom".to_string() },
        FetchOutcome::NotModified,
        FetchOutcome::Fetched { new_articles: 2 },
        FetchOutcome::Aborted,
    ]);
    assert_eq!(s.feeds_fetched, 2);
    assert_eq!(s.feeds_not_modified, 1);
    assert_eq!(s.feeds_errored, 2);
    assert_eq!(s.new_articles_total, 5);
    assert_eq!(s.errors, vec![(2, "boom".to_string())]);
}

#[test]
fn fetch_all_feeds_empty_list() {
    let s = summarize(Vec::new());
    assert_eq!(s.feeds_fetched, 0);
    assert_eq!(s.feeds_errored, 0);
    assert!(s.errors.is_empty());
}

#[test]
fn entry_without_id_or_link_gets_a_made_up_id() {
    let xml = r#"<?xml version="1.0"?><rss version="2.0"><channel><title>T</title>
<item><title>First</title><guid>a-1</guid></item>
<item><description>No id, no link</description></item>
<item><title>Third</title><link>https://ex.com/3</link></item>
</channel></rss>"#;
    let content = match read_feed(4, "https://ex.com/rss", xml.as_bytes()) {
        Ok(c) => c,
        Err(_) => panic!("feed should parse"),
    };
    // One article per entry, in document order.
    assert_eq!(content.articles.len(), 3);
    assert_eq!(content.articles[0].title, "First");
    assert_eq!(content.articles[0].guid.as_deref(), Some("a-1"));
    let made_up = content.articles[1].guid.clone().expect("a made-up id");
    assert!(!made_up.is_empty());
    assert_eq!(content.articles[1].url, made_up);
    assert_eq!(content.articles[2].title, "Third");
    assert_eq!(content.articles[2].url, "https://ex.com/3");
}

use rss_ai::crawl::{
    domain_key, is_success, parse_article_url, robots_outcome, robots_url, robots_verdict,
    status_verdict, DomainThrottle, ExtractorError, RobotsReply,
};
use rss_ai::urls::UrlParts;

fn parse_url(s: &str) -> Option<UrlParts> {
    parse_article_url(s).ok()
}

#[test]
fn domain_key_keeps_scheme_host_and_port() {
    let u = parse_url("https://Example.com:8443/a/b?c=d").unwrap();
    match domain_key(&u) {
        Ok(k) => assert_eq!(k, "https://example.com:8443"),
        Err(_) => panic!("expected a key"),
    }
    let u = parse_url("http://example.com/x").unwrap();
    match domain_key(&u) {
        Ok(k) => assert_eq!(k, "http://example.com"),
        Err(_) => panic!("expected a key"),
    }
}

#[test]
fn url_without_host_has_no_domain_key() {
    let u = parse_url("mailto:someone@example.com").unwrap();
    match domain_key(&u) {
        Err(ExtractorError::InvalidUrl(t)) => assert_eq!(t, "mailto:someone@example.com"),
        _ => panic!("expected InvalidUrl"),
    }
    match parse_article_url("not a url") {
        Err(ExtractorError::InvalidUrl(t)) => assert_eq!(t, "not a url"),
        _ => panic!("expected InvalidUrl"),
    }
}

#[test]
fn parsed_url_parts() {
    let u = parse_url("HTTPS://Example.COM/Path/To?q=1").unwrap();
    assert_eq!(u.scheme, "https");
    assert_eq!(u.host.as_deref(), Some("example.com"));
    assert_eq!(u.port, None);
    assert_eq!(u.path, "/Path/To");
    assert_eq!(u.text, "https://example.com/Path/To?q=1");
}

#[test]
fn robots_location_and_verdicts() {
    assert_eq!(robots_url("https://example.com"), "https://example.com/robots.txt");
    assert!(robots_verdict("https://example.com/a", true).is_ok());
    match robots_verdict("https://example.com/a", false) {
        Err(ExtractorError::RobotsDisallowed { url }) => assert_eq!(url, "https://example.com/a"),
        _ => panic!("expected RobotsDisallowed"),
    }
}

#[test]
fn extract_content_handles_404() {
    match status_verdict("https://example.com/missing", 404) {
        Err(ExtractorError::HttpStatus { url, status }) => {
            assert_eq!(url, "https://example.com/missing");
            assert_eq!(status, 404);
        }
        _ => panic!("expected HttpStatus"),
    }
    assert!(status_verdict("https://example.com/ok", 200).is_ok());
    assert!(is_success(299));
    assert!(!is_success(300));
}

#[test]
fn respects_robots_txt() {
    let reply = RobotsReply::Text("User-agent: *\nDisallow: /private\n".to_string());
    let (allowed, rules) = robots_outcome(&reply, "rss-ai/0.2.0", "/private/article");
    assert!(!allowed);
    assert!(rules.is_some());
    let (allowed, _) = robots_outcome(&reply, "rss-ai/0.2.0", "/public/article");
    assert!(allowed);
}

#[test]
fn unreachable_robots_allows_everything() {
    let (allowed, rules) = robots_outcome(&RobotsReply::Failed, "rss-ai", "/private");
    assert!(allowed);
    assert!(rules.is_none());
    let (allowed, rules) = robots_outcome(&RobotsReply::Status(500), "rss-ai", "/private");
    assert!(allowed);
    assert!(rules.is_none());
}

#[test]
fn respects_domain_rate_limit() {
    let mut t = DomainThrottle::new();
    assert_eq!(t.acquire("https://a.example", 0), 0);
    assert_eq!(t.acquire("https://a.example", 400_000_000), 600_000_000);
    assert_eq!(t.acquire("https://b.example", 400_000_000), 0);
    assert_eq!(t.acquire("https://a.example", 1_000_000_000), 0);
    assert_eq!(t.acquire("https://a.example", 1_500_000_000), 500_000_000);
}

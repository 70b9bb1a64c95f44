//! Records of the knowledge base: feeds, articles, tags and links.
use vstd::prelude::*;

verus! {

/// A subscribed feed.
#[derive(Debug, Clone)]
pub struct Feed {
    pub id: i64,
    pub url: String,
    pub title: Option<String>,
    pub description: Option<String>,
    pub site_url: Option<String>,
    pub poll_interval_minutes: i64,
    pub last_polled_at: Option<String>,
    pub last_error: Option<String>,
    pub error_count: i64,
    pub active: i64,
    pub created_at: String,
    pub updated_at: String,
}

/// A stored article.
#[derive(Debug, Clone)]
pub struct Article {
    pub id: i64,
    pub feed_id: i64,
    pub guid: Option<String>,
    pub url: String,
    pub title: String,
    pub author: Option<String>,
    pub published_at: Option<String>,
    pub summary: Option<String>,
    pub content: Option<String>,
    pub content_hash: Option<String>,
    pub content_extracted: i64,
    pub embedding_generated: i64,
    pub tags_generated: i64,
    pub created_at: String,
    pub updated_at: String,
}

/// A tag and the number of articles carrying it.
#[derive(Debug, Clone)]
pub struct Tag {
    pub id: i64,
    pub name: String,
    pub article_count: i64,
    pub created_at: String,
}

/// An article to insert.
#[derive(Debug, Clone)]
pub struct NewArticle {
    pub feed_id: i64,
    pub guid: Option<String>,
    pub url: String,
    pub title: String,
    pub author: Option<String>,
    pub published_at: Option<String>,
    pub summary: Option<String>,
    pub content: Option<String>,
    pub content_hash: Option<String>,
}

/// A node and its edges in the article link graph.
#[derive(Debug, Clone)]
pub struct LinkGraphNode {
    pub article_id: i64,
    pub linked_article_ids: Vec<i64>,
}

/// Extracted article content to store.
pub struct ExtractedArticleUpdate<'a> {
    pub content: &'a str,
    pub content_hash: &'a str,
    pub word_count: i64,
    pub title: Option<&'a str>,
    pub author: Option<&'a str>,
    pub published_at: Option<&'a str>,
}

} // verus!
